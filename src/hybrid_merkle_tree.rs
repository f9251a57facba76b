//! A Merkle tree over matrices of possibly different heights, whose layers may be compressed
//! by different functions.
use crate::hybrid::{HybridPseudoCompressionFunction, LeafHasher};
use crate::matrix::RowMajorMatrix;
use crate::mmcs::{lemma_pos_bound, opened_row, opened_rows, position, rows_view, sibling, siblings};
use vstd::arithmetic::power2::{lemma_pow2_strictly_increases, lemma_pow2_unfold, pow2};
use vstd::prelude::*;
use vstd::relations::sorted_by;

verus! {

/// A digest: 32 bytes.
pub type Digest = [u8; 32];

/// The digest of all zero bytes, which pads a layer past the rows of its matrices.
pub open spec fn zero_digest() -> Seq<u8> {
    Seq::new(32, |i: int| 0u8)
}

/// The first power of two at or above `n`, found by doubling from `p`.
pub open spec fn np2_from(n: nat, p: nat) -> nat
    decreases (if p >= n { 0 } else { n - p }),
{
    if p >= n || p == 0 {
        p
    } else {
        np2_from(n, 2 * p)
    }
}

/// The exponent of `np2_from(n, p)`, where `p = 2^e`.
pub open spec fn np2_log_from(n: nat, p: nat, e: nat) -> nat
    decreases (if p >= n { 0 } else { n - p }),
{
    if p >= n || p == 0 {
        e
    } else {
        np2_log_from(n, 2 * p, e + 1)
    }
}

/// The least power of two at or above `n` (one for zero).
pub open spec fn np2(n: nat) -> nat {
    np2_from(n, 1)
}

/// The exponent of `np2(n)`.
pub open spec fn log_np2(n: nat) -> nat {
    np2_log_from(n, 1, 0)
}

proof fn lemma_np2_from(n: nat, p: nat, e: nat)
    requires
        p == pow2(e),
    ensures
        np2_from(n, p) == pow2(np2_log_from(n, p, e)),
        np2_from(n, p) >= n,
        np2_log_from(n, p, e) >= e,
    decreases (if p >= n { 0 } else { n - p }),
{
    vstd::arithmetic::power2::lemma_pow2_pos(e);
    if p < n {
        lemma_pow2_unfold(e + 1);
        lemma_np2_from(n, 2 * p, e + 1);
    }
}

pub proof fn lemma_np2(n: nat)
    ensures
        np2(n) == pow2(log_np2(n)),
        np2(n) >= n,
{
    vstd::arithmetic::power2::lemma2_to64();
    lemma_np2_from(n, 1, 0);
}

/// The padded height of a matrix: the power of two its rows are padded to.
pub open spec fn pad(m: RowMajorMatrix) -> nat {
    np2(m.spec_height())
}

/// Every matrix is well formed.
pub open spec fn all_wf(ms: Seq<RowMajorMatrix>) -> bool {
    forall|j: int| 0 <= j < ms.len() ==> (#[trigger] ms[j]).wf()
}

/// Matrices whose heights round up to the same power of two have equal heights.
pub open spec fn heights_consistent(ms: Seq<RowMajorMatrix>) -> bool {
    forall|a: int, b: int|
        0 <= a < ms.len() && 0 <= b < ms.len() && pad(#[trigger] ms[a]) == pad(#[trigger] ms[b])
            ==> ms[a].spec_height() == ms[b].spec_height()
}

/// The matrices, in order, whose padded height is `s`.
pub open spec fn group(ms: Seq<RowMajorMatrix>, s: nat) -> Seq<RowMajorMatrix>
    decreases ms.len(),
{
    if ms.len() == 0 {
        Seq::empty()
    } else if pad(ms.last()) == s {
        group(ms.drop_last(), s).push(ms.last())
    } else {
        group(ms.drop_last(), s)
    }
}

/// Row `i` of each matrix, concatenated.
pub open spec fn rows_at(ms: Seq<RowMajorMatrix>, i: int) -> Seq<u32>
    decreases ms.len(),
{
    if ms.len() == 0 {
        Seq::empty()
    } else {
        rows_at(ms.drop_last(), i) + ms.last().spec_row(i)
    }
}

/// The height shared by the matrices of padded height `s` (zero when there is none).
pub open spec fn group_height(ms: Seq<RowMajorMatrix>, s: nat) -> nat {
    if group(ms, s).len() == 0 {
        0
    } else {
        group(ms, s)[0].spec_height()
    }
}

/// The largest `log_np2` of a height.
pub open spec fn max_log(ms: Seq<RowMajorMatrix>) -> nat
    decreases ms.len(),
{
    if ms.len() == 0 {
        0
    } else {
        let rest = max_log(ms.drop_last());
        let here = log_np2(ms.last().spec_height());
        if here > rest {
            here
        } else {
            rest
        }
    }
}

/// Greater-or-equal, the order of the list of sizes.
pub open spec fn geq(a: usize, b: usize) -> bool {
    a >= b
}

/// The order `>=` on sizes.
pub open spec fn geq_rel() -> spec_fn(usize, usize) -> bool {
    |a: usize, b: usize| geq(a, b)
}

/// The padded heights of the matrices, in their order.
pub open spec fn pads(ms: Seq<RowMajorMatrix>) -> Seq<usize> {
    Seq::new(ms.len(), |j: int| pad(ms[j]) as usize)
}

/// The padded heights of the matrices, largest first.
pub open spec fn tree_sizes(ms: Seq<RowMajorMatrix>) -> Seq<usize> {
    pads(ms).sort_by(geq_rel())
}

/// The digest of row `i` of the matrices of padded height `s`, or the zero digest past
/// their height.
pub open spec fn leaf_digest<H: LeafHasher>(h: H, ms: Seq<RowMajorMatrix>, s: nat, i: int) -> Seq<u8> {
    if i < group_height(ms, s) {
        h.spec_hash(rows_at(group(ms, s), i))
    } else {
        zero_digest()
    }
}

/// The lowest layer: one digest per row of the tallest matrices, padded to a power of two.
pub open spec fn first_layer<H: LeafHasher>(h: H, ms: Seq<RowMajorMatrix>) -> Seq<Seq<u8>> {
    let s = pow2(max_log(ms));
    Seq::new(s, |i: int| leaf_digest(h, ms, s, i))
}

/// The layer above `prev`: digests compressed in pairs, each then compressed with the digest
/// of the rows injected at that layer, if matrices of that padded height exist.
pub open spec fn next_layer<H: LeafHasher, C: HybridPseudoCompressionFunction>(
    h: H,
    c: C,
    ms: Seq<RowMajorMatrix>,
    prev: Seq<Seq<u8>>,
) -> Seq<Seq<u8>> {
    let n = prev.len();
    let s = n / 2;
    let sizes = tree_sizes(ms);
    Seq::new(
        s,
        |i: int|
            {
                let d = c.spec_compress(prev[2 * i], prev[2 * i + 1], sizes, n as usize);
                if group(ms, s).len() == 0 {
                    d
                } else {
                    c.spec_compress(d, leaf_digest(h, ms, s, i), sizes, n as usize)
                }
            },
    )
}

/// Layer `k` of the tree, counted from the leaves.
pub open spec fn layer<H: LeafHasher, C: HybridPseudoCompressionFunction>(
    h: H,
    c: C,
    ms: Seq<RowMajorMatrix>,
    k: nat,
) -> Seq<Seq<u8>>
    decreases k,
{
    if k == 0 {
        first_layer(h, ms)
    } else {
        next_layer(h, c, ms, layer(h, c, ms, (k - 1) as nat))
    }
}

/// All layers of the tree, from the leaves to the root.
pub open spec fn tree_layers<H: LeafHasher, C: HybridPseudoCompressionFunction>(
    h: H,
    c: C,
    ms: Seq<RowMajorMatrix>,
) -> Seq<Seq<Seq<u8>>> {
    Seq::new(max_log(ms) + 1, |k: int| layer(h, c, ms, k as nat))
}

/// The root: the one digest of the top layer.
pub open spec fn tree_root<H: LeafHasher, C: HybridPseudoCompressionFunction>(
    h: H,
    c: C,
    ms: Seq<RowMajorMatrix>,
) -> Seq<u8> {
    layer(h, c, ms, max_log(ms))[0]
}

/// The views of a list of digests.
pub open spec fn digests_view(v: Seq<Digest>) -> Seq<Seq<u8>> {
    v.map_values(|d: Digest| d@)
}

/// The position in `ms` of member `k` of the group of padded height `s`.
pub open spec fn group_source(ms: Seq<RowMajorMatrix>, s: nat, k: int) -> int
    decreases ms.len(),
{
    if ms.len() == 0 {
        0
    } else if pad(ms.last()) == s && k == group(ms.drop_last(), s).len() {
        ms.len() - 1
    } else {
        group_source(ms.drop_last(), s, k)
    }
}

/// Members of a group are matrices of the list with that padded height.
pub proof fn lemma_group_members(ms: Seq<RowMajorMatrix>, s: nat)
    ensures
        forall|k: int|
            0 <= k < group(ms, s).len() ==> {
                let j = #[trigger] group_source(ms, s, k);
                0 <= j < ms.len() && group(ms, s)[k] == ms[j] && pad(ms[j]) == s
            },
        forall|j: int| 0 <= j < ms.len() && pad(#[trigger] ms[j]) == s ==> group(ms, s).len() > 0,
    decreases ms.len(),
{
    if ms.len() > 0 {
        let rest = ms.drop_last();
        let last = ms.len() - 1;
        lemma_group_members(rest, s);
        assert forall|k: int| 0 <= k < group(ms, s).len() implies {
            let j = #[trigger] group_source(ms, s, k);
            0 <= j < ms.len() && group(ms, s)[k] == ms[j] && pad(ms[j]) == s
        } by {
            if k < group(rest, s).len() {
                let j = group_source(rest, s, k);
                assert(ms[j] == rest[j]);
                assert(group(ms, s)[k] == group(rest, s)[k]);
            }
        }
        assert forall|j: int| 0 <= j < ms.len() && pad(#[trigger] ms[j]) == s implies group(ms, s).len() > 0 by {
            if j < last {
                assert(rest[j] == ms[j]);
            }
        }
    }
}

/// Under consistent heights, every matrix of padded height `s` has the group's height.
pub proof fn lemma_group_height(ms: Seq<RowMajorMatrix>, s: nat, j: int)
    requires
        heights_consistent(ms),
        0 <= j < ms.len(),
        pad(ms[j]) == s,
    ensures
        group_height(ms, s) == ms[j].spec_height(),
        forall|k: int| 0 <= k < group(ms, s).len() ==> (#[trigger] group(ms, s)[k]).spec_height() == ms[j].spec_height(),
{
    lemma_group_members(ms, s);
    assert forall|k: int| 0 <= k < group(ms, s).len() implies (#[trigger] group(ms, s)[k]).spec_height() == ms[j].spec_height() by {
        let jj = group_source(ms, s, k);
    }
}

/// The first power of two at or above `n`, with its exponent.
pub fn next_power_of_two(n: usize) -> (r: (usize, usize))
    requires
        n <= usize::MAX / 2 + 1,
    ensures
        r.0 == np2(n as nat),
        r.1 == log_np2(n as nat),
        r.0 == pow2(r.1 as nat),
{
    let mut p: usize = 1;
    let mut e: usize = 0;
    proof {
        vstd::arithmetic::power2::lemma2_to64();
    }
    while p < n
        invariant
            n <= usize::MAX / 2 + 1,
            p == pow2(e as nat),
            e <= p,
            p >= 1,
            np2_from(n as nat, p as nat) == np2(n as nat),
            np2_log_from(n as nat, p as nat, e as nat) == log_np2(n as nat),
        decreases usize::MAX - p,
    {
        proof {
            lemma_pow2_unfold((e + 1) as nat);
        }
        p = p * 2;
        e = e + 1;
    }
    (p, e)
}

/// Heights whose padded height fits in a `usize`.
pub open spec fn heights_fit(ms: Seq<RowMajorMatrix>) -> bool {
    forall|j: int| 0 <= j < ms.len() ==> (#[trigger] ms[j]).spec_height() <= usize::MAX / 2 + 1
}

/// The padded height of each matrix, the largest exponent among them and its power of two.
pub(crate) fn padded_heights(leaves: &Vec<RowMajorMatrix>) -> (r: (Vec<usize>, usize, usize))
    requires
        all_wf(leaves@),
        heights_fit(leaves@),
    ensures
        r.0@ == pads(leaves@),
        r.1 == max_log(leaves@),
        r.2 == pow2(r.1 as nat),
        forall|j: int| 0 <= j < leaves@.len() ==> pad(#[trigger] leaves@[j]) <= usize::MAX,
{
    let mut out: Vec<usize> = Vec::new();
    let mut best_log: usize = 0;
    let mut best: usize = 1;
    let mut j: usize = 0;
    proof {
        vstd::arithmetic::power2::lemma2_to64();
    }
    while j < leaves.len()
        invariant
            all_wf(leaves@),
            heights_fit(leaves@),
            j <= leaves@.len(),
            out@.len() == j,
            forall|k: int| 0 <= k < j ==> out@[k] == pad(#[trigger] leaves@[k]),
            forall|k: int| 0 <= k < j ==> pad(#[trigger] leaves@[k]) <= usize::MAX,
            best_log == max_log(leaves@.subrange(0, j as int)),
            best == pow2(best_log as nat),
        decreases leaves.len() - j,
    {
        let m = &leaves[j];
        assert(leaves@[j as int].wf());
        let (p, e) = next_power_of_two(m.height());
        out.push(p);
        assert(leaves@.subrange(0, j + 1).drop_last() == leaves@.subrange(0, j as int));
        if e > best_log {
            best_log = e;
            best = p;
        }
        j = j + 1;
    }
    assert(leaves@.subrange(0, leaves@.len() as int) == leaves@);
    assert(out@ =~= pads(leaves@));
    (out, best_log, best)
}

/// Whether matrices whose heights round up to the same power of two have equal heights.
fn heights_ok(leaves: &Vec<RowMajorMatrix>, pads_v: &Vec<usize>) -> (r: bool)
    requires
        all_wf(leaves@),
        pads_v@ == pads(leaves@),
        forall|j: int| 0 <= j < leaves@.len() ==> pad(#[trigger] leaves@[j]) <= usize::MAX,
    ensures
        r == heights_consistent(leaves@),
{
    let n = leaves.len();
    let mut a: usize = 0;
    while a < n
        invariant
            n == leaves@.len(),
            all_wf(leaves@),
            pads_v@ == pads(leaves@),
            forall|j: int| 0 <= j < leaves@.len() ==> pad(#[trigger] leaves@[j]) <= usize::MAX,
            a <= n,
            forall|x: int, y: int|
                0 <= x < a && 0 <= y < n && pad(#[trigger] leaves@[x]) == pad(#[trigger] leaves@[y])
                    ==> leaves@[x].spec_height() == leaves@[y].spec_height(),
        decreases n - a,
    {
        let mut b: usize = 0;
        while b < n
            invariant
                n == leaves@.len(),
                all_wf(leaves@),
                pads_v@ == pads(leaves@),
                forall|j: int| 0 <= j < leaves@.len() ==> pad(#[trigger] leaves@[j]) <= usize::MAX,
                a < n,
                b <= n,
                forall|x: int, y: int|
                    0 <= x < a && 0 <= y < n && pad(#[trigger] leaves@[x]) == pad(#[trigger] leaves@[y])
                        ==> leaves@[x].spec_height() == leaves@[y].spec_height(),
                forall|y: int|
                    0 <= y < b && pad(leaves@[a as int]) == pad(#[trigger] leaves@[y])
                        ==> leaves@[a as int].spec_height() == leaves@[y].spec_height(),
            decreases n - b,
        {
            assert(leaves@[a as int].wf() && leaves@[b as int].wf());
            assert(pads_v@[a as int] == pad(leaves@[a as int]) as usize);
            assert(pads_v@[b as int] == pad(leaves@[b as int]) as usize);
            if pads_v[a] == pads_v[b] && leaves[a].height() != leaves[b].height() {
                return false;
            }
            b = b + 1;
        }
        a = a + 1;
    }
    true
}

proof fn lemma_geq_total()
    ensures
        vstd::relations::total_ordering(geq_rel()),
{
}

/// The padded heights, largest first.
pub(crate) fn sort_sizes(pads_v: &Vec<usize>) -> (r: Vec<usize>)
    ensures
        r@ == pads_v@.sort_by(geq_rel()),
        r@.len() == pads_v@.len(),
{
    broadcast use vstd::seq_lib::to_multiset_insert, vstd::seq_lib::to_multiset_build;

    let mut out: Vec<usize> = Vec::new();
    let mut k: usize = 0;
    assert(out@ =~= pads_v@.subrange(0, 0));
    while k < pads_v.len()
        invariant
            k <= pads_v@.len(),
            sorted_by(out@, geq_rel()),
            out@.to_multiset() == pads_v@.subrange(0, k as int).to_multiset(),
        decreases pads_v.len() - k,
    {
        let x = pads_v[k];
        let mut pos: usize = 0;
        while pos < out.len() && out[pos] >= x
            invariant
                pos <= out@.len(),
                forall|i: int| 0 <= i < pos ==> out@[i] >= x,
            decreases out.len() - pos,
        {
            pos = pos + 1;
        }
        let ghost before = out@;
        out.insert(pos, x);
        assert(sorted_by(out@, geq_rel())) by {
            assert forall|i: int, j: int| 0 <= i < j < out@.len() implies #[trigger] geq_rel()(out@[i], out@[j]) by {
                if j < pos {
                    assert(geq_rel()(before[i], before[j]));
                } else if j == pos {
                } else if i < pos {
                    assert(geq_rel()(before[i], before[j - 1]));
                } else if i == pos {
                    assert(geq_rel()(before[pos as int], before[j - 1]) || j - 1 == pos);
                } else {
                    assert(geq_rel()(before[i - 1], before[j - 1]));
                }
            }
        }
        assert(pads_v@.subrange(0, k + 1) == pads_v@.subrange(0, k as int).push(x));
        proof {
            vstd::seq_lib::to_multiset_insert(before, pos as int, x);
            vstd::seq_lib::to_multiset_build(pads_v@.subrange(0, k as int), x);
        }
        k = k + 1;
    }
    proof {
        lemma_geq_total();
        assert(pads_v@.subrange(0, pads_v@.len() as int) == pads_v@);
        pads_v@.lemma_sort_by_ensures(geq_rel());
        vstd::seq_lib::lemma_sorted_unique(out@, pads_v@.sort_by(geq_rel()), geq_rel());
        vstd::seq_lib::to_multiset_len(out@);
        vstd::seq_lib::to_multiset_len(pads_v@);
    }
    out
}

/// Row `i` of every matrix of padded height `s`, concatenated.
fn rows_concat(leaves: &Vec<RowMajorMatrix>, pads_v: &Vec<usize>, s: usize, i: usize) -> (r: Vec<u32>)
    requires
        all_wf(leaves@),
        pads_v@ == pads(leaves@),
        forall|j: int| 0 <= j < leaves@.len() ==> pad(#[trigger] leaves@[j]) <= usize::MAX,
        forall|j: int| 0 <= j < leaves@.len() && pad(#[trigger] leaves@[j]) == s ==> i < leaves@[j].spec_height(),
    ensures
        r@ == rows_at(group(leaves@, s as nat), i as int),
{
    let mut out: Vec<u32> = Vec::new();
    let mut j: usize = 0;
    while j < leaves.len()
        invariant
            all_wf(leaves@),
            pads_v@ == pads(leaves@),
            forall|j: int| 0 <= j < leaves@.len() ==> pad(#[trigger] leaves@[j]) <= usize::MAX,
            forall|j: int| 0 <= j < leaves@.len() && pad(#[trigger] leaves@[j]) == s ==> i < leaves@[j].spec_height(),
            j <= leaves@.len(),
            out@ == rows_at(group(leaves@.subrange(0, j as int), s as nat), i as int),
        decreases leaves.len() - j,
    {
        let ghost sub = leaves@.subrange(0, j + 1);
        assert(sub.drop_last() == leaves@.subrange(0, j as int));
        assert(sub.last() == leaves@[j as int]);
        assert(pads_v@[j as int] == pad(leaves@[j as int]) as usize);
        if pads_v[j] == s {
            assert(leaves@[j as int].wf());
            leaves[j].append_row(i, &mut out);
            let ghost g = group(leaves@.subrange(0, j as int), s as nat);
            assert(g.push(leaves@[j as int]).drop_last() == g);
        }
        j = j + 1;
    }
    assert(leaves@.subrange(0, leaves@.len() as int) == leaves@);
    out
}

/// The height of the matrices of padded height `s`.
fn group_height_of(leaves: &Vec<RowMajorMatrix>, pads_v: &Vec<usize>, s: usize) -> (r: usize)
    requires
        all_wf(leaves@),
        heights_consistent(leaves@),
        pads_v@ == pads(leaves@),
        forall|j: int| 0 <= j < leaves@.len() ==> pad(#[trigger] leaves@[j]) <= usize::MAX,
    ensures
        r == group_height(leaves@, s as nat),
        forall|j: int| 0 <= j < leaves@.len() && pad(#[trigger] leaves@[j]) == s ==> r == leaves@[j].spec_height(),
{
    let mut j: usize = 0;
    while j < leaves.len()
        invariant
            all_wf(leaves@),
            heights_consistent(leaves@),
            pads_v@ == pads(leaves@),
            forall|j: int| 0 <= j < leaves@.len() ==> pad(#[trigger] leaves@[j]) <= usize::MAX,
            j <= leaves@.len(),
            forall|k: int| 0 <= k < j ==> pad(#[trigger] leaves@[k]) != s,
        decreases leaves.len() - j,
    {
        assert(pads_v@[j as int] == pad(leaves@[j as int]) as usize);
        if pads_v[j] == s {
            proof {
                lemma_group_height(leaves@, s as nat, j as int);
                assert forall|k: int| 0 <= k < leaves@.len() && pad(#[trigger] leaves@[k]) == s implies leaves@[j as int].spec_height() == leaves@[k].spec_height() by {
                }
            }
            assert(leaves@[j as int].wf());
            return leaves[j].height();
        }
        j = j + 1;
    }
    proof {
        lemma_group_members(leaves@, s as nat);
        if group(leaves@, s as nat).len() > 0 {
            let jj = group_source(leaves@, s as nat, 0);
            assert(pad(leaves@[jj]) == s);
        }
    }
    0
}

/// Layer `k` holds `2^(max_log - k)` digests.
pub proof fn lemma_layer_len<H: LeafHasher, C: HybridPseudoCompressionFunction>(
    h: H,
    c: C,
    ms: Seq<RowMajorMatrix>,
    k: nat,
)
    requires
        k <= max_log(ms),
    ensures
        layer(h, c, ms, k).len() == pow2((max_log(ms) - k) as nat),
    decreases k,
{
    if k > 0 {
        lemma_layer_len(h, c, ms, (k - 1) as nat);
        lemma_pow2_unfold((max_log(ms) - k + 1) as nat);
    }
}

/// Whether some matrix has padded height `s`.
fn has_pad(leaves: &Vec<RowMajorMatrix>, pads_v: &Vec<usize>, s: usize) -> (r: bool)
    requires
        pads_v@ == pads(leaves@),
        forall|j: int| 0 <= j < leaves@.len() ==> pad(#[trigger] leaves@[j]) <= usize::MAX,
    ensures
        r == (group(leaves@, s as nat).len() > 0),
{
    proof {
        lemma_group_members(leaves@, s as nat);
    }
    let mut j: usize = 0;
    while j < pads_v.len()
        invariant
            pads_v@ == pads(leaves@),
            forall|j: int| 0 <= j < leaves@.len() ==> pad(#[trigger] leaves@[j]) <= usize::MAX,
            j <= pads_v@.len(),
            forall|k: int| 0 <= k < j ==> pad(#[trigger] leaves@[k]) != s,
        decreases pads_v.len() - j,
    {
        assert(pads_v@[j as int] == pad(leaves@[j as int]) as usize);
        if pads_v[j] == s {
            assert(pad(leaves@[j as int]) <= usize::MAX);
            assert(pad(leaves@[j as int]) == s as nat);
            proof {
                lemma_group_members(leaves@, s as nat);
            }
            return true;
        }
        j = j + 1;
    }
    proof {
        if group(leaves@, s as nat).len() > 0 {
            let jj = group_source(leaves@, s as nat, 0);
            assert(pad(leaves@[jj]) == s);
        }
    }
    false
}

/// The lowest layer: the digest of each row of the tallest matrices, then zero digests up to
/// the padded height.
fn first_digest_layer<H: LeafHasher>(
    h: &H,
    leaves: &Vec<RowMajorMatrix>,
    pads_v: &Vec<usize>,
    max_height_padded: usize,
    max_height: usize,
) -> (r: Vec<Digest>)
    requires
        all_wf(leaves@),
        pads_v@ == pads(leaves@),
        forall|j: int| 0 <= j < leaves@.len() ==> pad(#[trigger] leaves@[j]) <= usize::MAX,
        max_height_padded == pow2(max_log(leaves@)),
        max_height == group_height(leaves@, max_height_padded as nat),
        forall|j: int| 0 <= j < leaves@.len() && pad(#[trigger] leaves@[j]) == max_height_padded ==> max_height == leaves@[j].spec_height(),
    ensures
        digests_view(r@) == first_layer(*h, leaves@),
{
    let mut digests: Vec<Digest> = Vec::new();
    let mut i: usize = 0;
    while i < max_height_padded
        invariant
            all_wf(leaves@),
            pads_v@ == pads(leaves@),
            forall|j: int| 0 <= j < leaves@.len() ==> pad(#[trigger] leaves@[j]) <= usize::MAX,
            max_height_padded == pow2(max_log(leaves@)),
            max_height == group_height(leaves@, max_height_padded as nat),
            forall|j: int| 0 <= j < leaves@.len() && pad(#[trigger] leaves@[j]) == max_height_padded ==> max_height == leaves@[j].spec_height(),
            i <= max_height_padded,
            digests@.len() == i,
            forall|k: int| 0 <= k < i ==> (#[trigger] digests@[k])@ == leaf_digest(*h, leaves@, max_height_padded as nat, k),
        decreases max_height_padded - i,
    {
        if i < max_height {
            let row = rows_concat(leaves, pads_v, max_height_padded, i);
            digests.push(h.hash_elems(&row));
        } else {
            let zero: Digest = [0u8; 32];
            assert(zero@ =~= zero_digest());
            digests.push(zero);
        }
        i = i + 1;
    }
    assert(digests_view(digests@) =~= first_layer(*h, leaves@));
    digests
}

/// Compresses the `n` digests of the previous layer in pairs into `n / 2` digests.
fn compress<C: HybridPseudoCompressionFunction>(
    prev_layer: &Vec<Digest>,
    c: &C,
    sizes: &Vec<usize>,
    current_size: usize,
) -> (r: Vec<Digest>)
    requires
        sizes@.len() > 0,
    ensures
        digests_view(r@) == Seq::new(
            prev_layer@.len() / 2,
            |i: int| c.spec_compress(prev_layer@[2 * i]@, prev_layer@[2 * i + 1]@, sizes@, current_size),
        ),
{
    let prev_len = prev_layer.len();
    let next_len = prev_len / 2;
    let mut next_digests: Vec<Digest> = Vec::new();
    let mut i: usize = 0;
    while i < next_len
        invariant
            sizes@.len() > 0,
            prev_len == prev_layer@.len(),
            next_len == prev_layer@.len() / 2,
            i <= next_len,
            next_digests@.len() == i,
            forall|k: int| 0 <= k < i ==> (#[trigger] next_digests@[k])@ == c.spec_compress(prev_layer@[2 * k]@, prev_layer@[2 * k + 1]@, sizes@, current_size),
        decreases next_len - i,
    {
        let left = prev_layer[2 * i];
        let right = prev_layer[2 * i + 1];
        next_digests.push(c.compress([left, right], sizes.as_slice(), current_size));
        i = i + 1;
    }
    assert(digests_view(next_digests@) =~= Seq::new(
        prev_layer@.len() / 2,
        |i: int| c.spec_compress(prev_layer@[2 * i]@, prev_layer@[2 * i + 1]@, sizes@, current_size),
    ));
    next_digests
}

/// Compresses the `n` digests of the previous layer in pairs into `n / 2` digests, and
/// compresses each with the digest of the rows of the matrices of padded height `n / 2`
/// (the zero digest past their height).
fn compress_and_inject<H: LeafHasher, C: HybridPseudoCompressionFunction>(
    prev_layer: &Vec<Digest>,
    leaves: &Vec<RowMajorMatrix>,
    pads_v: &Vec<usize>,
    h: &H,
    c: &C,
    sizes: &Vec<usize>,
    next_len: usize,
) -> (r: Vec<Digest>)
    requires
        all_wf(leaves@),
        heights_consistent(leaves@),
        pads_v@ == pads(leaves@),
        forall|j: int| 0 <= j < leaves@.len() ==> pad(#[trigger] leaves@[j]) <= usize::MAX,
        sizes@.len() > 0,
        next_len == prev_layer@.len() / 2,
    ensures
        digests_view(r@) == Seq::new(
            next_len as nat,
            |i: int| c.spec_compress(
                c.spec_compress(prev_layer@[2 * i]@, prev_layer@[2 * i + 1]@, sizes@, prev_layer@.len() as usize),
                leaf_digest(*h, leaves@, next_len as nat, i),
                sizes@,
                prev_layer@.len() as usize,
            ),
        ),
{
    let prev_len = prev_layer.len();
    let inject_height = group_height_of(leaves, pads_v, next_len);
    let mut next_digests: Vec<Digest> = Vec::new();
    let mut i: usize = 0;
    while i < next_len
        invariant
            all_wf(leaves@),
            pads_v@ == pads(leaves@),
            forall|j: int| 0 <= j < leaves@.len() ==> pad(#[trigger] leaves@[j]) <= usize::MAX,
            inject_height == group_height(leaves@, next_len as nat),
            forall|j: int| 0 <= j < leaves@.len() && pad(#[trigger] leaves@[j]) == next_len ==> inject_height == leaves@[j].spec_height(),
            sizes@.len() > 0,
            prev_len == prev_layer@.len(),
            next_len == prev_layer@.len() / 2,
            i <= next_len,
            next_digests@.len() == i,
            forall|k: int| 0 <= k < i ==> (#[trigger] next_digests@[k])@ == c.spec_compress(
                c.spec_compress(prev_layer@[2 * k]@, prev_layer@[2 * k + 1]@, sizes@, prev_len),
                leaf_digest(*h, leaves@, next_len as nat, k),
                sizes@,
                prev_len,
            ),
        decreases next_len - i,
    {
        let left = prev_layer[2 * i];
        let right = prev_layer[2 * i + 1];
        let digest = c.compress([left, right], sizes.as_slice(), prev_len);
        let rows_digest: Digest = if i < inject_height {
            let row = rows_concat(leaves, pads_v, next_len, i);
            h.hash_elems(&row)
        } else {
            let zero: Digest = [0u8; 32];
            assert(zero@ =~= zero_digest());
            zero
        };
        next_digests.push(c.compress([digest, rows_digest], sizes.as_slice(), prev_len));
        i = i + 1;
    }
    assert(digests_view(next_digests@) =~= Seq::new(
        next_len as nat,
        |i: int| c.spec_compress(
            c.spec_compress(prev_layer@[2 * i]@, prev_layer@[2 * i + 1]@, sizes@, prev_layer@.len() as usize),
            leaf_digest(*h, leaves@, next_len as nat, i),
            sizes@,
            prev_layer@.len() as usize,
        ),
    ));
    next_digests
}

/// Why a list of matrices cannot be committed.
#[derive(Copy, Clone, Debug, PartialEq, Eq)]
pub enum CommitError {
    /// No matrix was given.
    EmptyLeaves,
    /// Two matrices have heights that round up to the same power of two but differ.
    HeightMismatch,
}

/// A Merkle tree over matrices: the matrices, and the digest layers from the leaves up to the
/// root.
#[derive(Debug)]
pub struct HybridMerkleTree {
    pub(crate) leaves: Vec<RowMajorMatrix>,
    pub(crate) digest_layers: Vec<Vec<Digest>>,
}

impl HybridMerkleTree {
    /// The committed matrices.
    pub closed spec fn spec_leaves(&self) -> Seq<RowMajorMatrix> {
        self.leaves@
    }

    /// The digest layers, from the leaves up to the root.
    pub closed spec fn spec_layers(&self) -> Seq<Seq<Seq<u8>>> {
        self.digest_layers@.map_values(|l: Vec<Digest>| digests_view(l@))
    }

    /// The layers end in a single digest.
    pub open spec fn wf(&self) -> bool {
        &&& self.spec_layers().len() > 0
        &&& self.spec_layers().last().len() == 1
    }

    /// The shape that `new` leaves: well-formed matrices of consistent heights, and layer `k`
    /// of `2^(max_log - k)` digests.
    pub open spec fn committed(&self) -> bool {
        &&& self.spec_leaves().len() > 0
        &&& all_wf(self.spec_leaves())
        &&& heights_fit(self.spec_leaves())
        &&& heights_consistent(self.spec_leaves())
        &&& self.spec_layers().len() == max_log(self.spec_leaves()) + 1
        &&& forall|k: int|
            0 <= k <= max_log(self.spec_leaves()) ==> (#[trigger] self.spec_layers()[k]).len() == pow2(
                (max_log(self.spec_leaves()) - k) as nat,
            )
    }

    pub open spec fn spec_root(&self) -> Seq<u8> {
        self.spec_layers().last()[0]
    }

    /// Commits to `leaves`: hashes the rows of the tallest matrices into the first layer,
    /// then compresses layer by layer, injecting the rows of the matrices whose padded height
    /// is the size of the layer being built.
    pub fn new<H: LeafHasher, C: HybridPseudoCompressionFunction>(
        h: &H,
        c: &C,
        leaves: Vec<RowMajorMatrix>,
    ) -> (r: Result<HybridMerkleTree, CommitError>)
        requires
            all_wf(leaves@),
            heights_fit(leaves@),
        ensures
            match r {
                Ok(t) => {
                    &&& leaves@.len() > 0
                    &&& heights_consistent(leaves@)
                    &&& t.wf()
                    &&& t.committed()
                    &&& t.spec_leaves() == leaves@
                    &&& t.spec_layers() == tree_layers(*h, *c, leaves@)
                    &&& t.spec_root() == tree_root(*h, *c, leaves@)
                },
                Err(e) => {
                    &&& (leaves@.len() == 0 || !heights_consistent(leaves@))
                    &&& e == (if leaves@.len() == 0 {
                        CommitError::EmptyLeaves
                    } else {
                        CommitError::HeightMismatch
                    })
                },
            },
    {
        if leaves.len() == 0 {
            return Err(CommitError::EmptyLeaves);
        }
        let (pads_v, log_max, max_height_padded) = padded_heights(&leaves);
        if !heights_ok(&leaves, &pads_v) {
            return Err(CommitError::HeightMismatch);
        }
        let sizes = sort_sizes(&pads_v);
        let max_height = group_height_of(&leaves, &pads_v, max_height_padded);
        let mut prev = first_digest_layer(h, &leaves, &pads_v, max_height_padded, max_height);
        let mut layers: Vec<Vec<Digest>> = Vec::new();
        let mut k: usize = 0;
        proof {
            lemma_layer_len(*h, *c, leaves@, 0);
        }
        while k < log_max
            invariant
                all_wf(leaves@),
                heights_consistent(leaves@),
                pads_v@ == pads(leaves@),
                forall|j: int| 0 <= j < leaves@.len() ==> pad(#[trigger] leaves@[j]) <= usize::MAX,
                sizes@ == tree_sizes(leaves@),
                sizes@.len() > 0,
                log_max == max_log(leaves@),
                k <= log_max,
                layers@.len() == k,
                forall|j: int| 0 <= j < k ==> digests_view((#[trigger] layers@[j])@) == layer(*h, *c, leaves@, j as nat),
                digests_view(prev@) == layer(*h, *c, leaves@, k as nat),
                prev@.len() == pow2((log_max - k) as nat),
            decreases log_max - k,
        {
            let prev_len = prev.len();
            let next_len = prev_len / 2;
            let ghost prev_view = digests_view(prev@);
            let next = if has_pad(&leaves, &pads_v, next_len) {
                compress_and_inject(&prev, &leaves, &pads_v, h, c, &sizes, next_len)
            } else {
                compress(&prev, c, &sizes, prev_len)
            };
            assert(digests_view(next@) =~= next_layer(*h, *c, leaves@, prev_view));
            proof {
                lemma_pow2_unfold((log_max - k) as nat);
                lemma_layer_len(*h, *c, leaves@, (k + 1) as nat);
            }
            layers.push(prev);
            prev = next;
            k = k + 1;
        }
        layers.push(prev);
        let tree = HybridMerkleTree { leaves, digest_layers: layers };
        assert(tree.spec_layers() =~= tree_layers(*h, *c, tree.leaves@));
        proof {
            vstd::arithmetic::power2::lemma2_to64();
            assert forall|k: int| 0 <= k <= max_log(leaves@) implies (#[trigger] tree.spec_layers()[k]).len() == pow2(
                (max_log(leaves@) - k) as nat,
            ) by {
                lemma_layer_len(*h, *c, leaves@, k as nat);
            }
        }
        Ok(tree)
    }

    /// The root digest.
    pub fn root(&self) -> (r: Digest)
        requires
            self.wf(),
        ensures
            r@ == self.spec_root(),
    {
        let last = self.digest_layers.len() - 1;
        self.digest_layers[last][0]
    }

    /// The committed matrices.
    pub fn leaves(&self) -> (r: &Vec<RowMajorMatrix>)
        ensures
            r@ == self.spec_leaves(),
    {
        &self.leaves
    }
}

/// `log_np2` of each height is at most `max_log`.
proof fn lemma_log_le_max(ms: Seq<RowMajorMatrix>, j: int)
    requires
        0 <= j < ms.len(),
    ensures
        log_np2(ms[j].spec_height()) <= max_log(ms),
    decreases ms.len(),
{
    if j < ms.len() - 1 {
        lemma_log_le_max(ms.drop_last(), j);
        assert(ms.drop_last()[j] == ms[j]);
    }
}

impl HybridMerkleTree {
    /// Opens leaf `index`: the row of each matrix at the position of `index` in the layer
    /// where that matrix is injected (nothing past its height), and the sibling digest of the
    /// path in every layer below the root.
    pub fn open_batch(&self, index: usize) -> (r: (Vec<Vec<u32>>, Vec<Digest>))
        requires
            self.committed(),
            index < pow2(max_log(self.spec_leaves())),
        ensures
            rows_view(r.0@) == opened_rows(self.spec_leaves(), index as nat),
            digests_view(r.1@) == siblings(self.spec_layers(), index as nat, max_log(self.spec_leaves())),
    {
        let ghost ms = self.spec_leaves();
        let (pads_v, top, _) = padded_heights(&self.leaves);
        let mut rows: Vec<Vec<u32>> = Vec::new();
        let mut j: usize = 0;
        while j < self.leaves.len()
            invariant
                ms == self.leaves@,
                self.committed(),
                top == max_log(ms),
                j <= ms.len(),
                rows@.len() == j,
                forall|k: int| 0 <= k < j ==> (#[trigger] rows@[k])@ == opened_row(ms, index as nat, k),
            decreases self.leaves.len() - j,
        {
            let m = &self.leaves[j];
            assert(ms[j as int].wf());
            let height = m.height();
            let (_, lg) = next_power_of_two(height);
            proof {
                lemma_log_le_max(ms, j as int);
            }
            let p = position(index, top - lg);
            if p < height {
                rows.push(m.row(p));
            } else {
                let empty: Vec<u32> = Vec::new();
                assert(empty@ =~= Seq::<u32>::empty());
                rows.push(empty);
            }
            j = j + 1;
        }
        assert(rows_view(rows@) =~= opened_rows(ms, index as nat));
        let mut sibs: Vec<Digest> = Vec::new();
        let mut k: usize = 0;
        while k < top
            invariant
                ms == self.leaves@,
                self.committed(),
                top == max_log(ms),
                index < pow2(top as nat),
                k <= top,
                sibs@.len() == k,
                forall|i: int| 0 <= i < k ==> (#[trigger] sibs@[i])@ == sibling(self.spec_layers(), index as nat, i),
            decreases top - k,
        {
            let p = position(index, k);
            proof {
                lemma_pos_bound(index as nat, k as nat, top as nat);
                lemma_pow2_unfold((top - k) as nat);
                assert(self.spec_layers()[k as int].len() == pow2((top - k) as nat));
            }
            assert(self.spec_layers()[k as int] == digests_view(self.digest_layers@[k as int]@));
            let layer = &self.digest_layers[k];
            let sib = if p % 2 == 0 {
                layer[p + 1]
            } else {
                layer[p - 1]
            };
            sibs.push(sib);
            k = k + 1;
        }
        assert(digests_view(sibs@) =~= siblings(self.spec_layers(), index as nat, top as nat));
        (rows, sibs)
    }
}

/// Some matrix has the largest exponent.
proof fn lemma_max_log_attained(ms: Seq<RowMajorMatrix>) -> (j: int)
    requires
        ms.len() > 0,
    ensures
        0 <= j < ms.len(),
        log_np2(ms[j].spec_height()) == max_log(ms),
    decreases ms.len(),
{
    let last = ms.len() - 1;
    if ms.len() == 1 {
        assert(ms.drop_last().len() == 0);
        assert(max_log(ms.drop_last()) == 0);
        last
    } else {
        let jr = lemma_max_log_attained(ms.drop_last());
        assert(ms.drop_last()[jr] == ms[jr]);
        if log_np2(ms.last().spec_height()) > max_log(ms.drop_last()) {
            last
        } else {
            jr
        }
    }
}

/// The first of the sizes handed to the compressor is the size of the lowest layer.
pub proof fn lemma_first_size(ms: Seq<RowMajorMatrix>)
    requires
        ms.len() > 0,
        pow2(max_log(ms)) <= usize::MAX,
    ensures
        tree_sizes(ms).len() == ms.len(),
        tree_sizes(ms)[0] == pow2(max_log(ms)),
{
    broadcast use vstd::seq_lib::to_multiset_contains, vstd::seq_lib::to_multiset_len;

    let p = pads(ms);
    let sorted = tree_sizes(ms);
    let top = pow2(max_log(ms));
    lemma_geq_total();
    p.lemma_sort_by_ensures(geq_rel());
    assert(sorted.to_multiset().len() == p.to_multiset().len());
    let jm = lemma_max_log_attained(ms);
    lemma_np2(ms[jm].spec_height());
    assert(p[jm] == top as usize);
    assert(p.contains(top as usize));
    assert(p.to_multiset().count(top as usize) > 0);
    assert(sorted.contains(top as usize));
    let i = choose|i: int| 0 <= i < sorted.len() && sorted[i] == top as usize;
    if i > 0 {
        assert(geq_rel()(sorted[0], sorted[i]));
    }
    assert(sorted.contains(sorted[0]));
    assert(sorted.to_multiset().count(sorted[0]) > 0);
    assert(p.contains(sorted[0]));
    let j = choose|j: int| 0 <= j < p.len() && p[j] == sorted[0];
    lemma_log_le_max(ms, j);
    lemma_np2(ms[j].spec_height());
    if log_np2(ms[j].spec_height()) < max_log(ms) {
        vstd::arithmetic::power2::lemma_pow2_strictly_increases(log_np2(ms[j].spec_height()), max_log(ms));
    }
}

} // verus!
