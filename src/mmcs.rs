//! Opening rows of a committed tree with their authentication paths, and checking them against
//! a root.
use crate::hybrid::{HybridPseudoCompressionFunction, LeafHasher};
use crate::hybrid_merkle_tree::{
    all_wf, digests_view, geq_rel, group, group_height, group_source, heights_consistent, heights_fit, layer,
    leaf_digest, lemma_group_members, lemma_layer_len, lemma_np2, log_np2, max_log, next_power_of_two, np2, pad,
    pads, rows_at, sort_sizes, tree_layers, tree_root, tree_sizes, zero_digest, Digest,
};
use crate::matrix::{Dimensions, RowMajorMatrix};
use vstd::arithmetic::power2::{lemma_pow2_unfold, pow2};
use vstd::prelude::*;

verus! {

/// The heights of a list of dimensions.
pub open spec fn dim_heights(ds: Seq<Dimensions>) -> Seq<usize> {
    Seq::new(ds.len(), |j: int| ds[j].height)
}

/// The dimensions of a list of matrices.
pub open spec fn dims_of(ms: Seq<RowMajorMatrix>) -> Seq<Dimensions> {
    Seq::new(ms.len(), |j: int| Dimensions { width: ms[j].width, height: ms[j].spec_height() as usize })
}

/// The largest `log_np2` of a height.
pub open spec fn max_log_h(hs: Seq<usize>) -> nat
    decreases hs.len(),
{
    if hs.len() == 0 {
        0
    } else {
        let rest = max_log_h(hs.drop_last());
        let here = log_np2(hs.last() as nat);
        if here > rest {
            here
        } else {
            rest
        }
    }
}

/// Whether some height rounds up to `s`.
pub open spec fn has_size(hs: Seq<usize>, s: nat) -> bool
    decreases hs.len(),
{
    if hs.len() == 0 {
        false
    } else {
        np2(hs.last() as nat) == s || has_size(hs.drop_last(), s)
    }
}

/// The height of the first entry that rounds up to `s` (zero when there is none).
pub open spec fn height_for(hs: Seq<usize>, s: nat) -> nat
    decreases hs.len(),
{
    if hs.len() == 0 {
        0
    } else if has_size(hs.drop_last(), s) {
        height_for(hs.drop_last(), s)
    } else if np2(hs.last() as nat) == s {
        hs.last() as nat
    } else {
        0
    }
}

/// The opened rows of the entries whose height rounds up to `s`, concatenated.
pub open spec fn concat_for(hs: Seq<usize>, rows: Seq<Seq<u32>>, s: nat) -> Seq<u32>
    decreases hs.len(),
{
    if hs.len() == 0 || rows.len() == 0 {
        Seq::empty()
    } else if np2(hs.last() as nat) == s {
        concat_for(hs.drop_last(), rows.drop_last(), s) + rows.last()
    } else {
        concat_for(hs.drop_last(), rows.drop_last(), s)
    }
}

/// The padded heights, largest first.
pub open spec fn sizes_of(hs: Seq<usize>) -> Seq<usize> {
    Seq::new(hs.len(), |j: int| np2(hs[j] as nat) as usize).sort_by(geq_rel())
}

/// Position in layer `k` of the node above leaf `index`.
pub open spec fn pos(index: nat, k: nat) -> nat {
    index / pow2(k)
}

/// The digest of the opened rows at position `p` of the layer of size `s`.
pub open spec fn opened_digest<H: LeafHasher>(h: H, hs: Seq<usize>, rows: Seq<Seq<u32>>, s: nat, p: nat) -> Seq<u8> {
    if p < height_for(hs, s) {
        h.spec_hash(concat_for(hs, rows, s))
    } else {
        zero_digest()
    }
}

/// The digest at layer `k` on the path from leaf `index`, rebuilt from the opened rows and the
/// sibling digests.
pub open spec fn path_digest<H: LeafHasher, C: HybridPseudoCompressionFunction>(
    h: H,
    c: C,
    hs: Seq<usize>,
    rows: Seq<Seq<u32>>,
    siblings: Seq<Seq<u8>>,
    index: nat,
    k: nat,
) -> Seq<u8>
    decreases k,
{
    let top = max_log_h(hs);
    if k == 0 {
        opened_digest(h, hs, rows, pow2(top), index)
    } else {
        let prev = path_digest(h, c, hs, rows, siblings, index, (k - 1) as nat);
        let sib = siblings[k - 1];
        let p = pos(index, (k - 1) as nat);
        let n = pow2((top - (k - 1)) as nat);
        let sizes = sizes_of(hs);
        let d = if p % 2 == 0 {
            c.spec_compress(prev, sib, sizes, n as usize)
        } else {
            c.spec_compress(sib, prev, sizes, n as usize)
        };
        if has_size(hs, n / 2) {
            c.spec_compress(d, opened_digest(h, hs, rows, n / 2, p / 2), sizes, n as usize)
        } else {
            d
        }
    }
}

/// The row of matrix `j` opened at leaf `index`: its row at the position of `index` in the
/// layer where the matrix is injected, or nothing past its height.
pub open spec fn opened_row(ms: Seq<RowMajorMatrix>, index: nat, j: int) -> Seq<u32> {
    let p = pos(index, (max_log(ms) - log_np2(ms[j].spec_height())) as nat);
    if p < ms[j].spec_height() {
        ms[j].spec_row(p as int)
    } else {
        Seq::empty()
    }
}

/// The sibling, in layer `k`, of the node above leaf `index`.
pub open spec fn sibling(layers: Seq<Seq<Seq<u8>>>, index: nat, k: int) -> Seq<u8> {
    let p = pos(index, k as nat);
    if p % 2 == 0 {
        layers[k][p + 1 as int]
    } else {
        layers[k][p - 1 as int]
    }
}

/// The rows that an opening at leaf `index` holds, one per matrix.
pub open spec fn opened_rows(ms: Seq<RowMajorMatrix>, index: nat) -> Seq<Seq<u32>> {
    Seq::new(ms.len(), |j: int| opened_row(ms, index, j))
}

/// The sibling digests that an opening at leaf `index` holds, one per layer below the root.
pub open spec fn siblings(layers: Seq<Seq<Seq<u8>>>, index: nat, depth: nat) -> Seq<Seq<u8>> {
    Seq::new(depth, |k: int| sibling(layers, index, k))
}

proof fn lemma_max_log_h(ms: Seq<RowMajorMatrix>)
    requires
        heights_fit(ms),
    ensures
        max_log_h(dim_heights(dims_of(ms))) == max_log(ms),
    decreases ms.len(),
{
    if ms.len() > 0 {
        lemma_max_log_h(ms.drop_last());
        assert(dim_heights(dims_of(ms)).drop_last() =~= dim_heights(dims_of(ms.drop_last())));
    }
}

proof fn lemma_has_size(ms: Seq<RowMajorMatrix>, s: nat)
    requires
        heights_fit(ms),
    ensures
        has_size(dim_heights(dims_of(ms)), s) == (group(ms, s).len() > 0),
    decreases ms.len(),
{
    if ms.len() > 0 {
        lemma_has_size(ms.drop_last(), s);
        assert(dim_heights(dims_of(ms)).drop_last() =~= dim_heights(dims_of(ms.drop_last())));
    }
}

proof fn lemma_height_for(ms: Seq<RowMajorMatrix>, s: nat)
    requires
        heights_fit(ms),
    ensures
        height_for(dim_heights(dims_of(ms)), s) == group_height(ms, s),
    decreases ms.len(),
{
    if ms.len() > 0 {
        let rest = ms.drop_last();
        lemma_height_for(rest, s);
        lemma_has_size(rest, s);
        assert(dim_heights(dims_of(ms)).drop_last() =~= dim_heights(dims_of(rest)));
        if group(rest, s).len() > 0 && pad(ms.last()) == s {
            assert(group(ms, s)[0] == group(rest, s)[0]);
        }
    }
}

/// The opened rows of the matrices of padded height `s` are their rows at `p`.
proof fn lemma_concat_for(ms: Seq<RowMajorMatrix>, rows: Seq<Seq<u32>>, s: nat, p: int)
    requires
        heights_fit(ms),
        rows.len() == ms.len(),
        forall|j: int| 0 <= j < ms.len() && pad(#[trigger] ms[j]) == s ==> rows[j] == ms[j].spec_row(p),
    ensures
        concat_for(dim_heights(dims_of(ms)), rows, s) == rows_at(group(ms, s), p),
    decreases ms.len(),
{
    if ms.len() > 0 {
        let rest = ms.drop_last();
        assert(dim_heights(dims_of(ms)).drop_last() =~= dim_heights(dims_of(rest)));
        assert forall|j: int| 0 <= j < rest.len() && pad(#[trigger] rest[j]) == s implies rows.drop_last()[j] == rest[j].spec_row(p) by {
            assert(rest[j] == ms[j]);
        }
        lemma_concat_for(rest, rows.drop_last(), s, p);
        if pad(ms.last()) == s {
            let g = group(rest, s);
            assert(g.push(ms.last()).drop_last() == g);
        }
    }
}

proof fn lemma_pow2_injective(a: nat, b: nat)
    requires
        pow2(a) == pow2(b),
    ensures
        a == b,
{
    if a < b {
        vstd::arithmetic::power2::lemma_pow2_strictly_increases(a, b);
    } else if b < a {
        vstd::arithmetic::power2::lemma_pow2_strictly_increases(b, a);
    }
}

/// The leaf digest rebuilt from an opening at position `pos(index, k)` of layer `k` is the
/// tree's.
proof fn lemma_opened_digest<H: LeafHasher>(h: H, ms: Seq<RowMajorMatrix>, index: nat, k: nat)
    requires
        all_wf(ms),
        heights_fit(ms),
        heights_consistent(ms),
        k <= max_log(ms),
    ensures
        opened_digest(h, dim_heights(dims_of(ms)), opened_rows(ms, index), pow2((max_log(ms) - k) as nat), pos(index, k))
            == leaf_digest(h, ms, pow2((max_log(ms) - k) as nat), pos(index, k) as int),
{
    let s = pow2((max_log(ms) - k) as nat);
    let p = pos(index, k);
    let hs = dim_heights(dims_of(ms));
    lemma_height_for(ms, s);
    if p < group_height(ms, s) {
        assert forall|j: int| 0 <= j < ms.len() && pad(#[trigger] ms[j]) == s implies opened_rows(ms, index)[j] == ms[j].spec_row(p as int) by {
            lemma_np2(ms[j].spec_height());
            lemma_pow2_injective(log_np2(ms[j].spec_height()), (max_log(ms) - k) as nat);
            lemma_group_members(ms, s);
            let g0 = group_source(ms, s, 0);
            assert(ms[g0].spec_height() == ms[j].spec_height());
        }
        lemma_concat_for(ms, opened_rows(ms, index), s, p as int);
    }
}

pub proof fn lemma_pos_step(index: nat, k: nat)
    requires
        k >= 1,
    ensures
        pos(index, k) == pos(index, (k - 1) as nat) / 2,
{
    lemma_pow2_unfold(k);
    vstd::arithmetic::power2::lemma_pow2_pos((k - 1) as nat);
    vstd::arithmetic::div_mod::lemma_div_denominator(index as int, pow2((k - 1) as nat) as int, 2);
}

pub proof fn lemma_pos_bound(index: nat, k: nat, top: nat)
    requires
        k <= top,
        index < pow2(top),
    ensures
        pos(index, k) < pow2((top - k) as nat),
{
    vstd::arithmetic::power2::lemma_pow2_adds(k, (top - k) as nat);
    vstd::arithmetic::power2::lemma_pow2_pos(k);
    vstd::arithmetic::div_mod::lemma_multiply_divide_lt(index as int, pow2(k) as int, pow2((top - k) as nat) as int);
}

/// Rebuilding the path up to layer `k` from an opening gives the tree's node above the leaf.
proof fn lemma_path_digest<H: LeafHasher, C: HybridPseudoCompressionFunction>(
    h: H,
    c: C,
    ms: Seq<RowMajorMatrix>,
    index: nat,
    k: nat,
)
    requires
        all_wf(ms),
        heights_fit(ms),
        heights_consistent(ms),
        index < pow2(max_log(ms)),
        k <= max_log(ms),
    ensures
        path_digest(
            h,
            c,
            dim_heights(dims_of(ms)),
            opened_rows(ms, index),
            siblings(tree_layers(h, c, ms), index, max_log(ms)),
            index,
            k,
        ) == layer(h, c, ms, k)[pos(index, k) as int],
    decreases k,
{
    let top = max_log(ms);
    let hs = dim_heights(dims_of(ms));
    lemma_max_log_h(ms);
    if k == 0 {
        lemma_opened_digest(h, ms, index, 0);
        vstd::arithmetic::power2::lemma2_to64();
        vstd::arithmetic::div_mod::lemma_div_basics(index as int);
    } else {
        let km = (k - 1) as nat;
        lemma_path_digest(h, c, ms, index, km);
        let p = pos(index, km);
        let q = pos(index, k);
        lemma_pos_step(index, k);
        lemma_pos_bound(index, km, top);
        lemma_pos_bound(index, k, top);
        lemma_layer_len(h, c, ms, km);
        lemma_layer_len(h, c, ms, k);
        let n = pow2((top - km) as nat);
        lemma_pow2_unfold((top - km) as nat);
        assert(n / 2 == pow2((top - k) as nat));
        lemma_has_size(ms, n / 2);
        lemma_opened_digest(h, ms, index, k);
        assert(sizes_of(hs) == tree_sizes(ms)) by {
            assert(Seq::new(hs.len(), |j: int| np2(hs[j] as nat) as usize) =~= pads(ms));
        }
        assert(tree_layers(h, c, ms)[km as int] == layer(h, c, ms, km));
    }
}

/// An opening at leaf `index` of a committed tree checks out: with one opened row per matrix
/// and one sibling per layer, rebuilding the path from them gives the root of the tree, which
/// is what `verify_batch` accepts.
pub proof fn lemma_opening_verifies<H: LeafHasher, C: HybridPseudoCompressionFunction>(
    h: H,
    c: C,
    ms: Seq<RowMajorMatrix>,
    index: nat,
)
    requires
        ms.len() > 0,
        all_wf(ms),
        heights_fit(ms),
        heights_consistent(ms),
        index < pow2(max_log(ms)),
    ensures
        checks_out(
            h,
            c,
            tree_root(h, c, ms),
            dim_heights(dims_of(ms)),
            opened_rows(ms, index),
            siblings(tree_layers(h, c, ms), index, max_log(ms)),
            index,
        ),
{
    lemma_max_log_h(ms);
    lemma_path_digest(h, c, ms, index, max_log(ms));
    vstd::arithmetic::div_mod::lemma_basic_div(index as int, pow2(max_log(ms)) as int);
}

/// The views of a list of rows.
pub open spec fn rows_view(v: Seq<Vec<u32>>) -> Seq<Seq<u32>> {
    v.map_values(|r: Vec<u32>| r@)
}

/// Why an opening does not check out.
#[derive(Copy, Clone, Debug, PartialEq, Eq)]
pub enum VerifyError {
    /// No dimensions, or not one opened row per dimension.
    WrongBatchSize,
    /// Not one sibling digest per layer below the root.
    WrongHeight,
    /// The rebuilt root differs from the committed one.
    RootMismatch,
}

/// `pos(index, k)`, by halving `k` times.
pub fn position(index: usize, k: usize) -> (r: usize)
    ensures
        r == pos(index as nat, k as nat),
{
    let mut p: usize = index;
    let mut t: usize = 0;
    proof {
        vstd::arithmetic::power2::lemma2_to64();
        vstd::arithmetic::div_mod::lemma_div_basics(index as int);
    }
    while t < k
        invariant
            t <= k,
            p == pos(index as nat, t as nat),
        decreases k - t,
    {
        proof {
            lemma_pos_step(index as nat, (t + 1) as nat);
        }
        p = p / 2;
        t = t + 1;
    }
    p
}

/// Whether two digests are equal.
fn digests_equal(a: &Digest, b: &Digest) -> (r: bool)
    ensures
        r == (a@ == b@),
{
    let mut k: usize = 0;
    while k < 32
        invariant
            k <= 32,
            forall|i: int| 0 <= i < k ==> a@[i] == b@[i],
        decreases 32 - k,
    {
        if a[k] != b[k] {
            return false;
        }
        k = k + 1;
    }
    assert(a@ =~= b@);
    true
}

/// The padded height of each height, the largest exponent among them and its power of two.
fn heights_padded(hs: &Vec<usize>) -> (r: (Vec<usize>, usize, usize))
    requires
        forall|j: int| 0 <= j < hs@.len() ==> #[trigger] hs@[j] <= usize::MAX / 2 + 1,
    ensures
        r.0@ == Seq::new(hs@.len(), |j: int| np2(hs@[j] as nat) as usize),
        forall|j: int| 0 <= j < hs@.len() ==> np2(#[trigger] hs@[j] as nat) <= usize::MAX,
        r.1 == max_log_h(hs@),
        r.2 == pow2(r.1 as nat),
{
    let mut out: Vec<usize> = Vec::new();
    let mut best: usize = 0;
    let mut best_pad: usize = 1;
    proof {
        vstd::arithmetic::power2::lemma2_to64();
    }
    let mut j: usize = 0;
    while j < hs.len()
        invariant
            forall|j: int| 0 <= j < hs@.len() ==> #[trigger] hs@[j] <= usize::MAX / 2 + 1,
            j <= hs@.len(),
            out@.len() == j,
            forall|k: int| 0 <= k < j ==> out@[k] == np2(#[trigger] hs@[k] as nat),
            forall|k: int| 0 <= k < j ==> np2(#[trigger] hs@[k] as nat) <= usize::MAX,
            best == max_log_h(hs@.subrange(0, j as int)),
            best_pad == pow2(best as nat),
        decreases hs.len() - j,
    {
        let (p, e) = next_power_of_two(hs[j]);
        out.push(p);
        assert(hs@.subrange(0, j + 1).drop_last() == hs@.subrange(0, j as int));
        if e > best {
            best = e;
            best_pad = p;
        }
        j = j + 1;
    }
    assert(hs@.subrange(0, hs@.len() as int) == hs@);
    assert(out@ =~= Seq::new(hs@.len(), |j: int| np2(hs@[j] as nat) as usize));
    (out, best, best_pad)
}

/// Whether some height rounds up to `s`, and the height of the first that does.
fn height_for_exec(hs: &Vec<usize>, pads_v: &Vec<usize>, s: usize) -> (r: (bool, usize))
    requires
        pads_v@ == Seq::new(hs@.len(), |j: int| np2(hs@[j] as nat) as usize),
        forall|j: int| 0 <= j < hs@.len() ==> np2(#[trigger] hs@[j] as nat) <= usize::MAX,
    ensures
        r.0 == has_size(hs@, s as nat),
        r.1 == height_for(hs@, s as nat),
{
    let mut found = false;
    let mut hv: usize = 0;
    let mut j: usize = 0;
    while j < hs.len()
        invariant
            pads_v@ == Seq::new(hs@.len(), |j: int| np2(hs@[j] as nat) as usize),
            forall|j: int| 0 <= j < hs@.len() ==> np2(#[trigger] hs@[j] as nat) <= usize::MAX,
            j <= hs@.len(),
            found == has_size(hs@.subrange(0, j as int), s as nat),
            hv == height_for(hs@.subrange(0, j as int), s as nat),
        decreases hs.len() - j,
    {
        assert(hs@.subrange(0, j + 1).drop_last() == hs@.subrange(0, j as int));
        assert(np2(hs@[j as int] as nat) <= usize::MAX);
        if !found && pads_v[j] == s {
            found = true;
            hv = hs[j];
        } else if pads_v[j] == s {
            found = true;
        }
        j = j + 1;
    }
    assert(hs@.subrange(0, hs@.len() as int) == hs@);
    (found, hv)
}

/// The opened rows of the entries whose height rounds up to `s`, concatenated.
fn concat_for_exec(hs: &Vec<usize>, pads_v: &Vec<usize>, opened: &Vec<Vec<u32>>, s: usize) -> (r: Vec<u32>)
    requires
        pads_v@ == Seq::new(hs@.len(), |j: int| np2(hs@[j] as nat) as usize),
        forall|j: int| 0 <= j < hs@.len() ==> np2(#[trigger] hs@[j] as nat) <= usize::MAX,
        opened@.len() == hs@.len(),
    ensures
        r@ == concat_for(hs@, rows_view(opened@), s as nat),
{
    let mut out: Vec<u32> = Vec::new();
    let mut j: usize = 0;
    while j < hs.len()
        invariant
            pads_v@ == Seq::new(hs@.len(), |j: int| np2(hs@[j] as nat) as usize),
            forall|j: int| 0 <= j < hs@.len() ==> np2(#[trigger] hs@[j] as nat) <= usize::MAX,
            opened@.len() == hs@.len(),
            j <= hs@.len(),
            out@ == concat_for(hs@.subrange(0, j as int), rows_view(opened@).subrange(0, j as int), s as nat),
        decreases hs.len() - j,
    {
        assert(hs@.subrange(0, j + 1).drop_last() == hs@.subrange(0, j as int));
        assert(rows_view(opened@).subrange(0, j + 1).drop_last() == rows_view(opened@).subrange(0, j as int));
        assert(np2(hs@[j as int] as nat) <= usize::MAX);
        if pads_v[j] == s {
            let mut row = opened[j].clone();
            out.append(&mut row);
        }
        j = j + 1;
    }
    assert(hs@.subrange(0, hs@.len() as int) == hs@);
    assert(rows_view(opened@).subrange(0, hs@.len() as int) == rows_view(opened@));
    out
}

/// The digest of the opened rows at position `p` of the layer of size `s`.
fn opened_digest_exec<H: LeafHasher>(
    h: &H,
    hs: &Vec<usize>,
    pads_v: &Vec<usize>,
    opened: &Vec<Vec<u32>>,
    s: usize,
    p: usize,
) -> (r: Digest)
    requires
        pads_v@ == Seq::new(hs@.len(), |j: int| np2(hs@[j] as nat) as usize),
        forall|j: int| 0 <= j < hs@.len() ==> np2(#[trigger] hs@[j] as nat) <= usize::MAX,
        opened@.len() == hs@.len(),
    ensures
        r@ == opened_digest(*h, hs@, rows_view(opened@), s as nat, p as nat),
{
    let (_, hv) = height_for_exec(hs, pads_v, s);
    if p < hv {
        let row = concat_for_exec(hs, pads_v, opened, s);
        h.hash_elems(&row)
    } else {
        let zero: Digest = [0u8; 32];
        assert(zero@ =~= zero_digest());
        zero
    }
}

/// Whether an opening at leaf `index` checks out against `root`: one opened row per
/// dimension, one sibling per layer below the root, and the rebuilt path ends in `root`.
pub open spec fn checks_out<H: LeafHasher, C: HybridPseudoCompressionFunction>(
    h: H,
    c: C,
    root: Seq<u8>,
    hs: Seq<usize>,
    rows: Seq<Seq<u32>>,
    sibs: Seq<Seq<u8>>,
    index: nat,
) -> bool {
    &&& hs.len() > 0
    &&& rows.len() == hs.len()
    &&& sibs.len() == max_log_h(hs)
    &&& path_digest(h, c, hs, rows, sibs, index, max_log_h(hs)) == root
}

/// Checks an opening at leaf `index` against `root`: rebuilds the path from the opened rows
/// (one per matrix of the given dimensions) and the sibling digests, hashing and compressing
/// as the tree was built.
pub fn verify_batch<H: LeafHasher, C: HybridPseudoCompressionFunction>(
    h: &H,
    c: &C,
    root: &Digest,
    dims: &Vec<Dimensions>,
    index: usize,
    opened: &Vec<Vec<u32>>,
    proof: &Vec<Digest>,
) -> (r: Result<(), VerifyError>)
    requires
        forall|j: int| 0 <= j < dims@.len() ==> (#[trigger] dims@[j]).height <= usize::MAX / 2 + 1,
    ensures
        match r {
            Ok(()) => checks_out(
                *h,
                *c,
                root@,
                dim_heights(dims@),
                rows_view(opened@),
                digests_view(proof@),
                index as nat,
            ),
            Err(e) => {
                &&& !checks_out(
                    *h,
                    *c,
                    root@,
                    dim_heights(dims@),
                    rows_view(opened@),
                    digests_view(proof@),
                    index as nat,
                )
                &&& e == (if dims@.len() == 0 || opened@.len() != dims@.len() {
                    VerifyError::WrongBatchSize
                } else if proof@.len() != max_log_h(dim_heights(dims@)) {
                    VerifyError::WrongHeight
                } else {
                    VerifyError::RootMismatch
                })
            },
        },
{
    let mut hs: Vec<usize> = Vec::new();
    let mut j: usize = 0;
    while j < dims.len()
        invariant
            j <= dims@.len(),
            hs@ == dim_heights(dims@).subrange(0, j as int),
        decreases dims.len() - j,
    {
        hs.push(dims[j].height);
        j = j + 1;
    }
    assert(hs@ =~= dim_heights(dims@));
    let ghost hsv = hs@;
    let ghost rows = rows_view(opened@);
    let ghost sibs = digests_view(proof@);
    let (pads_v, top, top_pad) = heights_padded(&hs);
    if dims.len() == 0 || opened.len() != dims.len() {
        return Err(VerifyError::WrongBatchSize);
    }
    if proof.len() != top {
        return Err(VerifyError::WrongHeight);
    }
    let sizes = sort_sizes(&pads_v);
    let mut n: usize = top_pad;
    let mut cur = opened_digest_exec(h, &hs, &pads_v, opened, n, index);
    let mut p: usize = index;
    let mut k: usize = 0;
    proof {
        vstd::arithmetic::power2::lemma2_to64();
        vstd::arithmetic::div_mod::lemma_div_basics(index as int);
    }
    while k < top
        invariant
            hs@ == hsv,
            hsv == dim_heights(dims@),
            hsv.len() > 0,
            rows == rows_view(opened@),
            sibs == digests_view(proof@),
            opened@.len() == hsv.len(),
            proof@.len() == top,
            pads_v@ == Seq::new(hsv.len(), |j: int| np2(hsv[j] as nat) as usize),
            forall|j: int| 0 <= j < hsv.len() ==> np2(#[trigger] hsv[j] as nat) <= usize::MAX,
            top == max_log_h(hsv),
            sizes@ == sizes_of(hsv),
            sizes@.len() > 0,
            k <= top,
            n == pow2((top - k) as nat),
            p == pos(index as nat, k as nat),
            cur@ == path_digest(*h, *c, hsv, rows, sibs, index as nat, k as nat),
        decreases top - k,
    {
        let sib = proof[k];
        let mut d: Digest = if p % 2 == 0 {
            c.compress([cur, sib], sizes.as_slice(), n)
        } else {
            c.compress([sib, cur], sizes.as_slice(), n)
        };
        proof {
            lemma_pow2_unfold((top - k) as nat);
            lemma_pos_step(index as nat, (k + 1) as nat);
        }
        let half = n / 2;
        let (has, _) = height_for_exec(&hs, &pads_v, half);
        if has {
            let od = opened_digest_exec(h, &hs, &pads_v, opened, half, p / 2);
            d = c.compress([d, od], sizes.as_slice(), n);
        }
        cur = d;
        p = p / 2;
        n = half;
        k = k + 1;
    }
    if digests_equal(&cur, root) {
        Ok(())
    } else {
        Err(VerifyError::RootMismatch)
    }
}

} // verus!
