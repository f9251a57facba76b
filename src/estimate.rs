//! Estimates of the time to commit to, verify and recursively prove Merkle paths of trees
//! whose layers use different hash functions, from measured per-hash times.
use vstd::arithmetic::power2::pow2;
use vstd::prelude::*;

verus! {

/// A hash function with measured times.
#[derive(Clone, Copy, Debug, PartialEq, Eq, Structural)]
pub enum HashKind {
    Poseidon2,
    Keccak,
    Blake3,
    Rescue,
}

/// A field with measured times.
#[derive(Clone, Copy, Debug, PartialEq, Eq, Structural)]
pub enum FieldKind {
    Goldilocks,
    Mersenne31,
    KoalaBear,
}

/// Nanoseconds to digest a leaf.
pub open spec fn digest_time(hash: HashKind, field: FieldKind) -> Option<u32> {
    match (hash, field) {
        (HashKind::Poseidon2, FieldKind::Goldilocks) => Some(41000),
        (HashKind::Keccak, FieldKind::Goldilocks) => Some(15500),
        (HashKind::Blake3, FieldKind::Goldilocks) => Some(3100),
        (HashKind::Rescue, FieldKind::Goldilocks) => Some(227500),
        (HashKind::Poseidon2, FieldKind::Mersenne31) => Some(28300),
        (HashKind::Keccak, FieldKind::Mersenne31) => Some(14600),
        (HashKind::Blake3, FieldKind::Mersenne31) => Some(2300),
        (HashKind::Rescue, FieldKind::Mersenne31) => Some(138800),
        _ => None,
    }
}

/// Nanoseconds to compress two nodes into one.
pub open spec fn compression_time(hash: HashKind, field: FieldKind) -> Option<u32> {
    match (hash, field) {
        (HashKind::Poseidon2, FieldKind::Goldilocks) => Some(40500),
        (HashKind::Keccak, FieldKind::Goldilocks) => Some(16800),
        (HashKind::Blake3, FieldKind::Goldilocks) => Some(3800),
        (HashKind::Rescue, FieldKind::Goldilocks) => Some(225800),
        (HashKind::Poseidon2, FieldKind::Mersenne31) => Some(28200),
        (HashKind::Keccak, FieldKind::Mersenne31) => Some(16900),
        (HashKind::Blake3, FieldKind::Mersenne31) => Some(3900),
        (HashKind::Rescue, FieldKind::Mersenne31) => Some(137400),
        _ => None,
    }
}

/// Nanoseconds to prove one hash execution recursively with an outer hash.
pub open spec fn rec_proving_time(hash: HashKind, outer: HashKind, field: FieldKind) -> Option<u32> {
    match (hash, outer, field) {
        (HashKind::Keccak, HashKind::Blake3, FieldKind::Mersenne31) => Some(354300),
        (HashKind::Keccak, HashKind::Poseidon2, FieldKind::KoalaBear) => Some(960700),
        (HashKind::Poseidon2, HashKind::Poseidon2, FieldKind::KoalaBear) => Some(238000),
        _ => None,
    }
}

/// Nanoseconds to verify a recursive proof of hash executions with an outer hash.
pub open spec fn rec_verification_time(hash: HashKind, outer: HashKind, field: FieldKind) -> Option<u32> {
    match (hash, outer, field) {
        (HashKind::Keccak, HashKind::Blake3, FieldKind::Mersenne31) => Some(573000),
        (HashKind::Keccak, HashKind::Poseidon2, FieldKind::KoalaBear) => Some(42530000),
        (HashKind::Poseidon2, HashKind::Poseidon2, FieldKind::KoalaBear) => Some(699100000),
        _ => None,
    }
}

/// The field whose native times stand in for `field` when scaling a recursive time.
pub open spec fn native_field(field: FieldKind) -> FieldKind {
    if field == FieldKind::KoalaBear {
        FieldKind::Mersenne31
    } else {
        field
    }
}

/// The measured recursive proving (`proving`) or verification time.
pub open spec fn rec_table(proving: bool, hash: HashKind, outer: HashKind, field: FieldKind) -> Option<u32> {
    if proving {
        rec_proving_time(hash, outer, field)
    } else {
        rec_verification_time(hash, outer, field)
    }
}

/// A recursive time: measured, or for BLAKE3 estimated from Keccak's, scaled by the ratio of
/// their native digest times.
pub open spec fn rec_or_estimate(proving: bool, hash: HashKind, outer: HashKind, field: FieldKind) -> Option<int> {
    if hash == HashKind::Blake3 {
        match (
            rec_table(proving, HashKind::Keccak, outer, field),
            digest_time(HashKind::Blake3, native_field(field)),
            digest_time(HashKind::Keccak, native_field(field)),
        ) {
            (Some(t), Some(b), Some(k)) => Some((t * b) as int / (k as int)),
            _ => None,
        }
    } else {
        match rec_table(proving, hash, outer, field) {
            Some(t) => Some(t as int),
            None => None,
        }
    }
}

/// `2^n hd + (2^n - 2^m) h1 + (2^m - 2^k) h2`: digest every leaf, compress with `h1` below
/// level `m` and with `h2` from there up to the caps at level `k`.
pub open spec fn commitment_formula(n: nat, m: nat, k: nat, hd: int, h1: int, h2: int) -> int {
    pow2(n) * hd + (pow2(n) - pow2(m)) * h1 + (pow2(m) - pow2(k)) * h2
}

/// `hd + (n - m) h1 + (m - k) h2`: one leaf digest and one compression per level on a path.
pub open spec fn path_formula(n: nat, m: nat, k: nat, hd: int, h1: int, h2: int) -> int {
    hd + (n - m) * h1 + (m - k) * h2
}

/// `Some(v)` when `v` fits in a `usize`.
pub open spec fn fits(v: int) -> Option<usize> {
    if 0 <= v <= usize::MAX {
        Some(v as usize)
    } else {
        None
    }
}

/// The estimated commitment time, when the times are measured, `k <= m <= n`, and it fits.
pub open spec fn commitment_estimate(
    n: usize,
    m: usize,
    k: usize,
    hd: HashKind,
    h1: HashKind,
    h2: HashKind,
    field: FieldKind,
) -> Option<usize> {
    match (digest_time(hd, field), compression_time(h1, field), compression_time(h2, field)) {
        (Some(d), Some(t1), Some(t2)) => if k <= m && m <= n {
            fits(commitment_formula(n as nat, m as nat, k as nat, d as int, t1 as int, t2 as int))
        } else {
            None
        },
        _ => None,
    }
}

/// The estimated time to verify a path, when the times are measured, `k <= m <= n`, and it
/// fits.
pub open spec fn verification_estimate(
    n: usize,
    m: usize,
    k: usize,
    hd: HashKind,
    h1: HashKind,
    h2: HashKind,
    field: FieldKind,
) -> Option<usize> {
    match (digest_time(hd, field), compression_time(h1, field), compression_time(h2, field)) {
        (Some(d), Some(t1), Some(t2)) => if k <= m && m <= n {
            fits(path_formula(n as nat, m as nat, k as nat, d as int, t1 as int, t2 as int))
        } else {
            None
        },
        _ => None,
    }
}

/// The estimated time to prove a path recursively with outer hash `oh`, when the times are
/// known, `k <= m <= n`, and it fits.
pub open spec fn recursive_path_estimate(
    n: usize,
    m: usize,
    k: usize,
    hd: HashKind,
    h1: HashKind,
    h2: HashKind,
    oh: HashKind,
    field: FieldKind,
) -> Option<usize> {
    match (rec_or_estimate(true, hd, oh, field), rec_or_estimate(true, h1, oh, field), rec_or_estimate(true, h2, oh, field)) {
        (Some(d), Some(t1), Some(t2)) => if k <= m && m <= n {
            fits(path_formula(n as nat, m as nat, k as nat, d, t1, t2))
        } else {
            None
        },
        _ => None,
    }
}

fn digest_time_of(hash: HashKind, field: FieldKind) -> (r: Option<u32>)
    ensures
        r == digest_time(hash, field),
{
    match (hash, field) {
        (HashKind::Poseidon2, FieldKind::Goldilocks) => Some(41000),
        (HashKind::Keccak, FieldKind::Goldilocks) => Some(15500),
        (HashKind::Blake3, FieldKind::Goldilocks) => Some(3100),
        (HashKind::Rescue, FieldKind::Goldilocks) => Some(227500),
        (HashKind::Poseidon2, FieldKind::Mersenne31) => Some(28300),
        (HashKind::Keccak, FieldKind::Mersenne31) => Some(14600),
        (HashKind::Blake3, FieldKind::Mersenne31) => Some(2300),
        (HashKind::Rescue, FieldKind::Mersenne31) => Some(138800),
        _ => None,
    }
}

fn compression_time_of(hash: HashKind, field: FieldKind) -> (r: Option<u32>)
    ensures
        r == compression_time(hash, field),
{
    match (hash, field) {
        (HashKind::Poseidon2, FieldKind::Goldilocks) => Some(40500),
        (HashKind::Keccak, FieldKind::Goldilocks) => Some(16800),
        (HashKind::Blake3, FieldKind::Goldilocks) => Some(3800),
        (HashKind::Rescue, FieldKind::Goldilocks) => Some(225800),
        (HashKind::Poseidon2, FieldKind::Mersenne31) => Some(28200),
        (HashKind::Keccak, FieldKind::Mersenne31) => Some(16900),
        (HashKind::Blake3, FieldKind::Mersenne31) => Some(3900),
        (HashKind::Rescue, FieldKind::Mersenne31) => Some(137400),
        _ => None,
    }
}

/// The measured time to digest a leaf, in nanoseconds.
pub fn get_digest_time(hash: HashKind, field: FieldKind) -> (r: Option<usize>)
    ensures
        r == (match digest_time(hash, field) {
            Some(t) => Some(t as usize),
            None => None,
        }),
{
    match digest_time_of(hash, field) {
        Some(t) => Some(t as usize),
        None => None,
    }
}

/// The measured time to compress two nodes, in nanoseconds.
pub fn get_compression_time(hash: HashKind, field: FieldKind) -> (r: Option<usize>)
    ensures
        r == (match compression_time(hash, field) {
            Some(t) => Some(t as usize),
            None => None,
        }),
{
    match compression_time_of(hash, field) {
        Some(t) => Some(t as usize),
        None => None,
    }
}

fn rec_table_of(proving: bool, hash: HashKind, outer: HashKind, field: FieldKind) -> (r: Option<u32>)
    ensures
        r == rec_table(proving, hash, outer, field),
{
    match (hash, outer, field) {
        (HashKind::Keccak, HashKind::Blake3, FieldKind::Mersenne31) => Some(if proving { 354300 } else { 573000 }),
        (HashKind::Keccak, HashKind::Poseidon2, FieldKind::KoalaBear) => Some(if proving { 960700 } else { 42530000 }),
        (HashKind::Poseidon2, HashKind::Poseidon2, FieldKind::KoalaBear) => Some(if proving { 238000 } else { 699100000 }),
        _ => None,
    }
}

fn rec_time(proving: bool, hash: HashKind, outer: HashKind, field: FieldKind) -> (r: Option<u64>)
    ensures
        r == (match rec_or_estimate(proving, hash, outer, field) {
            Some(v) => Some(v as u64),
            None => None,
        }),
        r matches Some(v) ==> v < 0x1_0000_0000,
        rec_or_estimate(proving, hash, outer, field) matches Some(v) ==> 0 <= v < 0x1_0000_0000,
{
    if hash == HashKind::Blake3 {
        let tmp_field = if field == FieldKind::KoalaBear { FieldKind::Mersenne31 } else { field };
        match (
            rec_table_of(proving, HashKind::Keccak, outer, field),
            digest_time_of(HashKind::Blake3, tmp_field),
            digest_time_of(HashKind::Keccak, tmp_field),
        ) {
            (Some(t), Some(b), Some(k)) => {
                assert(b <= 3100 && k >= 14600);
                assert(t as int * b as int <= 699100000 * 3100) by (nonlinear_arith)
                    requires t <= 699100000, b <= 3100;
                let v = (t as u64 * b as u64) / (k as u64);
                assert(v <= t) by (nonlinear_arith)
                    requires v == (t as int * b as int) / (k as int), b <= k, k > 0, t >= 0, b >= 0;
                Some(v)
            },
            _ => None,
        }
    } else {
        match rec_table_of(proving, hash, outer, field) {
            Some(t) => Some(t as u64),
            None => None,
        }
    }
}

/// The time to prove one hash execution recursively, estimated for BLAKE3 from Keccak's.
pub fn get_or_estimate_rec_hash_proving_time(hash: HashKind, outer_hash: HashKind, field: FieldKind) -> (r: Option<usize>)
    ensures
        r == (match rec_or_estimate(true, hash, outer_hash, field) {
            Some(v) => fits(v),
            None => None,
        }),
{
    match rec_time(true, hash, outer_hash, field) {
        Some(v) => if v <= usize::MAX as u64 { Some(v as usize) } else { None },
        None => None,
    }
}

/// The time to verify a recursive proof of hash executions, estimated for BLAKE3 from
/// Keccak's.
pub fn get_or_estimate_rec_hash_verification_time(hash: HashKind, outer_hash: HashKind, field: FieldKind) -> (r: Option<usize>)
    ensures
        r == (match rec_or_estimate(false, hash, outer_hash, field) {
            Some(v) => fits(v),
            None => None,
        }),
{
    match rec_time(false, hash, outer_hash, field) {
        Some(v) => if v <= usize::MAX as u64 { Some(v as usize) } else { None },
        None => None,
    }
}

proof fn lemma_pow2_le(a: nat, b: nat)
    requires
        a <= b,
    ensures
        pow2(a) <= pow2(b),
{
    if a < b {
        vstd::arithmetic::power2::lemma_pow2_strictly_increases(a, b);
    }
}

/// `d + (n - m) t1 + (m - k) t2`, when it fits.
fn path_time(n: usize, m: usize, k: usize, d: u64, t1: u64, t2: u64) -> (r: Option<usize>)
    requires
        k <= m <= n,
        d < 0x1_0000_0000,
        t1 < 0x1_0000_0000,
        t2 < 0x1_0000_0000,
    ensures
        r == fits(path_formula(n as nat, m as nat, k as nat, d as int, t1 as int, t2 as int)),
{
    let a = (n - m) as u128;
    let b = (m - k) as u128;
    assert(a * (t1 as u128) < 0x1_0000_0000_0000_0000_0000_0000) by (nonlinear_arith)
        requires a < 0x1_0000_0000_0000_0000, t1 < 0x1_0000_0000;
    assert(b * (t2 as u128) < 0x1_0000_0000_0000_0000_0000_0000) by (nonlinear_arith)
        requires b < 0x1_0000_0000_0000_0000, t2 < 0x1_0000_0000;
    let total: u128 = d as u128 + a * (t1 as u128) + b * (t2 as u128);
    if total <= usize::MAX as u128 {
        Some(total as usize)
    } else {
        None
    }
}

/// The time to commit: digest `2^n` leaves, compress with `h1` up to level `m` and with `h2`
/// from there up to the caps at level `k`.
pub fn estimate_commitment_time_mixed_capped(
    n: usize,
    m: usize,
    k: usize,
    hd: HashKind,
    h1: HashKind,
    h2: HashKind,
    field: FieldKind,
) -> (r: Option<usize>)
    ensures
        r == commitment_estimate(n, m, k, hd, h1, h2, field),
{
    let (d, t1, t2) = match (digest_time_of(hd, field), compression_time_of(h1, field), compression_time_of(h2, field)) {
        (Some(d), Some(t1), Some(t2)) => (d, t1, t2),
        _ => {
            return None;
        },
    };
    if !(k <= m && m <= n) {
        return None;
    }
    proof {
        lemma_pow2_le(m as nat, n as nat);
        lemma_pow2_le(k as nat, m as nat);
        vstd::arithmetic::power2::lemma2_to64();
        vstd::arithmetic::power2::lemma2_to64_rest();
    }
    if n >= 64 {
        proof {
            lemma_pow2_le(64, n as nat);
            let pn = pow2(n as nat) as int;
            let pm = pow2(m as nat) as int;
            let pk = pow2(k as nat) as int;
            assert(commitment_formula(n as nat, m as nat, k as nat, d as int, t1 as int, t2 as int) > usize::MAX) by (nonlinear_arith)
                requires
                    pn >= 0x1_0000_0000_0000_0000,
                    pm <= pn,
                    pk <= pm,
                    pk >= 0,
                    d >= 1,
                    t1 >= 0,
                    t2 >= 0,
                    commitment_formula(n as nat, m as nat, k as nat, d as int, t1 as int, t2 as int)
                        == pn * d + (pn - pm) * t1 + (pm - pk) * t2,
                    usize::MAX <= 0xffff_ffff_ffff_ffff,
            ;
        }
        return None;
    }
    proof {
        vstd::bits::lemma_u64_shl_is_mul(1, n as u64);
        vstd::bits::lemma_u64_shl_is_mul(1, m as u64);
        vstd::bits::lemma_u64_shl_is_mul(1, k as u64);
        vstd::bits::lemma_u64_pow2_no_overflow(n as nat);
    }
    let pn = 1u64 << (n as u64);
    let pm = 1u64 << (m as u64);
    let pk = 1u64 << (k as u64);
    let a = pn as u128;
    let b = (pn - pm) as u128;
    let c = (pm - pk) as u128;
    assert(a * (d as u128) < 0x1_0000_0000_0000_0000_0000_0000) by (nonlinear_arith)
        requires a < 0x1_0000_0000_0000_0000, d < 0x1_0000_0000;
    assert(b * (t1 as u128) < 0x1_0000_0000_0000_0000_0000_0000) by (nonlinear_arith)
        requires b < 0x1_0000_0000_0000_0000, t1 < 0x1_0000_0000;
    assert(c * (t2 as u128) < 0x1_0000_0000_0000_0000_0000_0000) by (nonlinear_arith)
        requires c < 0x1_0000_0000_0000_0000, t2 < 0x1_0000_0000;
    let total: u128 = a * (d as u128) + b * (t1 as u128) + c * (t2 as u128);
    if total <= usize::MAX as u128 {
        Some(total as usize)
    } else {
        None
    }
}

pub fn estimate_commitment_time_mixed(n: usize, m: usize, hd: HashKind, h1: HashKind, h2: HashKind, field: FieldKind) -> (r: Option<usize>)
    ensures
        r == commitment_estimate(n, m, 0, hd, h1, h2, field),
{
    estimate_commitment_time_mixed_capped(n, m, 0, hd, h1, h2, field)
}

pub fn estimate_commitment_time_capped(n: usize, k: usize, hd: HashKind, h: HashKind, field: FieldKind) -> (r: Option<usize>)
    ensures
        r == commitment_estimate(n, k, k, hd, h, h, field),
{
    estimate_commitment_time_mixed_capped(n, k, k, hd, h, h, field)
}

pub fn estimate_commitment_time(n: usize, hd: HashKind, h: HashKind, field: FieldKind) -> (r: Option<usize>)
    ensures
        r == commitment_estimate(n, 0, 0, hd, h, h, field),
{
    estimate_commitment_time_mixed_capped(n, 0, 0, hd, h, h, field)
}

/// The time to verify a path: one leaf digest, `n - m` compressions with `h1` and `m - k`
/// with `h2`.
pub fn estimate_verification_time_mixed_capped(
    n: usize,
    m: usize,
    k: usize,
    hd: HashKind,
    h1: HashKind,
    h2: HashKind,
    field: FieldKind,
) -> (r: Option<usize>)
    ensures
        r == verification_estimate(n, m, k, hd, h1, h2, field),
{
    let (d, t1, t2) = match (digest_time_of(hd, field), compression_time_of(h1, field), compression_time_of(h2, field)) {
        (Some(d), Some(t1), Some(t2)) => (d, t1, t2),
        _ => {
            return None;
        },
    };
    if !(k <= m && m <= n) {
        return None;
    }
    path_time(n, m, k, d as u64, t1 as u64, t2 as u64)
}

pub fn estimate_verification_time_mixed(n: usize, m: usize, hd: HashKind, h1: HashKind, h2: HashKind, field: FieldKind) -> (r: Option<usize>)
    ensures
        r == verification_estimate(n, m, 0, hd, h1, h2, field),
{
    estimate_verification_time_mixed_capped(n, m, 0, hd, h1, h2, field)
}

pub fn estimate_verification_time_capped(n: usize, k: usize, hd: HashKind, h: HashKind, field: FieldKind) -> (r: Option<usize>)
    ensures
        r == verification_estimate(n, k, k, hd, h, h, field),
{
    estimate_verification_time_mixed_capped(n, k, k, hd, h, h, field)
}

pub fn estimate_verification_time(n: usize, hd: HashKind, h: HashKind, field: FieldKind) -> (r: Option<usize>)
    ensures
        r == verification_estimate(n, 0, 0, hd, h, h, field),
{
    estimate_verification_time_mixed_capped(n, 0, 0, hd, h, h, field)
}

/// The time to prove a path recursively with outer hash `oh`: the leaf digest, `n - m`
/// compressions with `h1` and `m - k` with `h2`, each proved recursively.
pub fn estimate_recursive_path_proving_time_mixed_capped(
    n: usize,
    m: usize,
    k: usize,
    hd: HashKind,
    h1: HashKind,
    h2: HashKind,
    oh: HashKind,
    field: FieldKind,
) -> (r: Option<usize>)
    ensures
        r == recursive_path_estimate(n, m, k, hd, h1, h2, oh, field),
{
    let (d, t1, t2) = match (rec_time(true, hd, oh, field), rec_time(true, h1, oh, field), rec_time(true, h2, oh, field)) {
        (Some(d), Some(t1), Some(t2)) => (d, t1, t2),
        _ => {
            return None;
        },
    };
    if !(k <= m && m <= n) {
        return None;
    }
    path_time(n, m, k, d, t1, t2)
}

pub fn estimate_recursive_path_proving_time_mixed(
    n: usize,
    m: usize,
    hd: HashKind,
    h1: HashKind,
    h2: HashKind,
    oh: HashKind,
    field: FieldKind,
) -> (r: Option<usize>)
    ensures
        r == recursive_path_estimate(n, m, 0, hd, h1, h2, oh, field),
{
    estimate_recursive_path_proving_time_mixed_capped(n, m, 0, hd, h1, h2, oh, field)
}

pub fn estimate_recursive_path_proving_time_capped(n: usize, k: usize, hd: HashKind, h: HashKind, oh: HashKind, field: FieldKind) -> (r: Option<usize>)
    ensures
        r == recursive_path_estimate(n, k, k, hd, h, h, oh, field),
{
    estimate_recursive_path_proving_time_mixed_capped(n, k, k, hd, h, h, oh, field)
}

pub fn estimate_recursive_path_proving_time(n: usize, hd: HashKind, h: HashKind, oh: HashKind, field: FieldKind) -> (r: Option<usize>)
    ensures
        r == recursive_path_estimate(n, 0, 0, hd, h, h, oh, field),
{
    estimate_recursive_path_proving_time_mixed_capped(n, 0, 0, hd, h, h, oh, field)
}

} // verus!
