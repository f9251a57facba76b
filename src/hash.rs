//! Byte hash functions used as leaf hashers and two-to-one compressors.
use crate::hybrid::{LeafHasher, PseudoCompressionFunction};
use p3_symmetric::CryptographicHasher;
use vstd::prelude::*;

verus! {

/// The BLAKE3 digest of `input`.
pub uninterp spec fn blake3_of(input: Seq<u8>) -> Seq<u8>;

/// The Keccak-256 digest of `input`.
pub uninterp spec fn keccak256_of(input: Seq<u8>) -> Seq<u8>;

/// Relies on `blake3::hash`: the 32-byte BLAKE3 digest of `input`.
#[verifier::external_body]
fn blake3_digest(input: &[u8]) -> (r: [u8; 32])
    ensures
        r@ == blake3_of(input@),
{
    blake3::hash(input).into()
}

/// Relies on `Keccak256Hash::hash_slice` of p3-keccak: the 32-byte Keccak-256 digest of `input`.
#[verifier::external_body]
fn keccak256_digest(input: &[u8]) -> (r: [u8; 32])
    ensures
        r@ == keccak256_of(input@),
{
    p3_keccak::Keccak256Hash.hash_slice(input)
}

/// The little-endian bytes of a `u32`.
pub open spec fn u32_le(x: u32) -> Seq<u8> {
    seq![
        (x % 256) as u8,
        (x / 256 % 256) as u8,
        (x / 65536 % 256) as u8,
        (x / 16777216 % 256) as u8,
    ]
}

/// The little-endian bytes of each entry of `s`, in order.
pub open spec fn le_bytes(s: Seq<u32>) -> Seq<u8>
    decreases s.len(),
{
    if s.len() == 0 {
        Seq::empty()
    } else {
        le_bytes(s.drop_last()) + u32_le(s.last())
    }
}

/// The concatenation of the byte strings of `s`.
pub open spec fn concat_bytes(s: Seq<Vec<u8>>) -> Seq<u8>
    decreases s.len(),
{
    if s.len() == 0 {
        Seq::empty()
    } else {
        concat_bytes(s.drop_last()) + s.last()@
    }
}

/// Serializes field elements into their little-endian bytes.
pub fn serialize_u32s(input: &Vec<u32>) -> (r: Vec<u8>)
    ensures
        r@ == le_bytes(input@),
{
    let mut out: Vec<u8> = Vec::new();
    let mut i: usize = 0;
    while i < input.len()
        invariant
            i <= input.len(),
            out@ == le_bytes(input@.subrange(0, i as int)),
        decreases input.len() - i,
    {
        let x = input[i];
        out.push((x % 256) as u8);
        out.push((x / 256 % 256) as u8);
        out.push((x / 65536 % 256) as u8);
        out.push((x / 16777216 % 256) as u8);
        assert(input@.subrange(0, i + 1).drop_last() == input@.subrange(0, i as int));
        i = i + 1;
    }
    assert(input@.subrange(0, input.len() as int) == input@);
    out
}

/// The BLAKE3 hash function.
#[derive(Copy, Clone, Debug)]
pub struct Blake3;

impl Blake3 {
    /// The digest of a byte string.
    pub fn hash_iter(&self, input: &Vec<u8>) -> (r: [u8; 32])
        ensures
            r@ == blake3_of(input@),
    {
        blake3_digest(input.as_slice())
    }

    /// The digest of the concatenation of several byte strings.
    pub fn hash_iter_slices(&self, input: &Vec<Vec<u8>>) -> (r: [u8; 32])
        ensures
            r@ == blake3_of(concat_bytes(input@)),
    {
        let mut all: Vec<u8> = Vec::new();
        let mut i: usize = 0;
        while i < input.len()
            invariant
                i <= input.len(),
                all@ == concat_bytes(input@.subrange(0, i as int)),
            decreases input.len() - i,
        {
            let mut chunk = input[i].clone();
            all.append(&mut chunk);
            assert(input@.subrange(0, i + 1).drop_last() == input@.subrange(0, i as int));
            i = i + 1;
        }
        assert(input@.subrange(0, input.len() as int) == input@);
        blake3_digest(all.as_slice())
    }
}

impl LeafHasher for Blake3 {
    open spec fn spec_hash(&self, input: Seq<u32>) -> Seq<u8> {
        blake3_of(le_bytes(input))
    }

    fn hash_elems(&self, input: &Vec<u32>) -> (r: [u8; 32]) {
        let bytes = serialize_u32s(input);
        blake3_digest(bytes.as_slice())
    }
}

impl PseudoCompressionFunction for Blake3 {
    open spec fn spec_compress(&self, left: Seq<u8>, right: Seq<u8>) -> Seq<u8> {
        blake3_of(left + right)
    }

    fn compress(&self, input: [[u8; 32]; 2]) -> (r: [u8; 32]) {
        let bytes = concat_digests(&input[0], &input[1]);
        blake3_digest(bytes.as_slice())
    }
}

/// The 64 bytes of `left` followed by `right`.
pub fn concat_digests(left: &[u8; 32], right: &[u8; 32]) -> (r: Vec<u8>)
    ensures
        r@ == left@ + right@,
{
    let mut bytes: Vec<u8> = Vec::new();
    let mut k: usize = 0;
    while k < 32
        invariant
            k <= 32,
            bytes@ == left@.subrange(0, k as int),
        decreases 32 - k,
    {
        bytes.push(left[k]);
        k = k + 1;
    }
    k = 0;
    while k < 32
        invariant
            k <= 32,
            bytes@ == left@ + right@.subrange(0, k as int),
        decreases 32 - k,
    {
        bytes.push(right[k]);
        k = k + 1;
    }
    assert(left@.subrange(0, 32) == left@);
    assert(right@.subrange(0, 32) == right@);
    bytes
}

/// The Keccak-256 hash function.
#[derive(Copy, Clone, Debug)]
pub struct Keccak256;

impl LeafHasher for Keccak256 {
    open spec fn spec_hash(&self, input: Seq<u32>) -> Seq<u8> {
        keccak256_of(le_bytes(input))
    }

    fn hash_elems(&self, input: &Vec<u32>) -> (r: [u8; 32]) {
        let bytes = serialize_u32s(input);
        keccak256_digest(bytes.as_slice())
    }
}

impl PseudoCompressionFunction for Keccak256 {
    open spec fn spec_compress(&self, left: Seq<u8>, right: Seq<u8>) -> Seq<u8> {
        keccak256_of(left + right)
    }

    fn compress(&self, input: [[u8; 32]; 2]) -> (r: [u8; 32]) {
        let bytes = concat_digests(&input[0], &input[1]);
        keccak256_digest(bytes.as_slice())
    }
}

} // verus!
