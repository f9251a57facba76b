//! Two-to-one compression that switches between two compressors by tree layer.
use core::marker::PhantomData;
use crate::hybrid_merkle_tree::{lemma_first_size, max_log, tree_sizes};
use crate::matrix::RowMajorMatrix;
use vstd::arithmetic::power2::pow2;
use vstd::prelude::*;

verus! {

/// Hashes a row of field elements to a 32-byte digest.
pub trait LeafHasher {
    spec fn spec_hash(&self, input: Seq<u32>) -> Seq<u8>;

    fn hash_elems(&self, input: &Vec<u32>) -> (r: [u8; 32])
        ensures
            r@ == self.spec_hash(input@),
    ;
}

/// Compresses two 32-byte digests into one.
pub trait PseudoCompressionFunction {
    spec fn spec_compress(&self, left: Seq<u8>, right: Seq<u8>) -> Seq<u8>;

    fn compress(&self, input: [[u8; 32]; 2]) -> (r: [u8; 32])
        ensures
            r@ == self.spec_compress(input[0]@, input[1]@),
    ;
}

/// Converts a digest into the representation of a second compressor and back, losslessly.
pub trait NodeConverter {
    spec fn spec_to_n2(node: Seq<u8>) -> Seq<u8>;

    spec fn spec_to_n1(node: Seq<u8>) -> Seq<u8>;

    fn to_n2(node: [u8; 32]) -> (r: [u8; 32])
        ensures
            r@ == Self::spec_to_n2(node@),
    ;

    fn to_n1(node: [u8; 32]) -> (r: [u8; 32])
        ensures
            r@ == Self::spec_to_n1(node@),
    ;

    /// Converting there and back gives the digest unchanged.
    proof fn lemma_round_trip(node: Seq<u8>)
        requires
            node.len() == 32,
        ensures
            Self::spec_to_n1(Self::spec_to_n2(node)) == node,
    ;
}

/// The converter between two compressors that share one digest representation.
#[derive(Copy, Clone, Debug)]
pub struct IdentityConverter;

impl NodeConverter for IdentityConverter {
    open spec fn spec_to_n2(node: Seq<u8>) -> Seq<u8> {
        node
    }

    open spec fn spec_to_n1(node: Seq<u8>) -> Seq<u8> {
        node
    }

    fn to_n2(node: [u8; 32]) -> (r: [u8; 32]) {
        node
    }

    fn to_n1(node: [u8; 32]) -> (r: [u8; 32]) {
        node
    }

    proof fn lemma_round_trip(node: Seq<u8>) {
    }
}

/// A two-to-one compression that may depend on the size of the layer being compressed
/// (`current_size`) and on the list of layer sizes of the tree (`sizes`, largest first).
pub trait HybridPseudoCompressionFunction {
    spec fn spec_compress(&self, left: Seq<u8>, right: Seq<u8>, sizes: Seq<usize>, current_size: usize) -> Seq<u8>;

    fn compress(&self, input: [[u8; 32]; 2], sizes: &[usize], current_size: usize) -> (r: [u8; 32])
        requires
            sizes@.len() > 0,
        ensures
            r@ == self.spec_compress(input[0]@, input[1]@, sizes@, current_size),
    ;
}

/// Compresses with `c1` on the layer whose size is the first entry of `sizes` (the tallest
/// one), and with `c2` on every other layer, converting the digests into `c2`'s representation
/// and back.
#[derive(Debug)]
pub struct SimpleHybridCompressor<C1, C2, NC> {
    pub c1: C1,
    pub c2: C2,
    pub converter: PhantomData<NC>,
}

impl<C1, C2, NC> SimpleHybridCompressor<C1, C2, NC> {
    pub fn new(c1: C1, c2: C2) -> (r: Self)
        ensures
            r.c1 == c1,
            r.c2 == c2,
    {
        SimpleHybridCompressor { c1, c2, converter: PhantomData }
    }
}

/// Whether the first compressor serves the layer of size `current_size`.
pub open spec fn uses_first(sizes: Seq<usize>, current_size: usize) -> bool {
    current_size == sizes[0]
}

impl<C1: PseudoCompressionFunction, C2: PseudoCompressionFunction, NC: NodeConverter> HybridPseudoCompressionFunction for SimpleHybridCompressor<C1, C2, NC> {
    open spec fn spec_compress(&self, left: Seq<u8>, right: Seq<u8>, sizes: Seq<usize>, current_size: usize) -> Seq<u8> {
        if uses_first(sizes, current_size) {
            self.c1.spec_compress(left, right)
        } else {
            NC::spec_to_n1(self.c2.spec_compress(NC::spec_to_n2(left), NC::spec_to_n2(right)))
        }
    }

    fn compress(&self, input: [[u8; 32]; 2], sizes: &[usize], current_size: usize) -> (r: [u8; 32]) {
        if current_size == sizes[0] {
            self.c1.compress(input)
        } else {
            let input_w2 = [NC::to_n2(input[0]), NC::to_n2(input[1])];
            NC::to_n1(self.c2.compress(input_w2))
        }
    }
}

/// In a tree committed with a simple hybrid compressor, the layer of the tallest matrices
/// (size `2^max_log`) is compressed with the first compressor, and every layer above it, of
/// size at most half that, with the second: the crossover lies between the lowest layer and
/// the one above it.
pub proof fn lemma_hybrid_crossover<C1: PseudoCompressionFunction, C2: PseudoCompressionFunction, NC: NodeConverter>(
    c: SimpleHybridCompressor<C1, C2, NC>,
    ms: Seq<RowMajorMatrix>,
    left: Seq<u8>,
    right: Seq<u8>,
    k: nat,
)
    requires
        ms.len() > 0,
        k < max_log(ms),
        pow2(max_log(ms)) <= usize::MAX,
    ensures
        k == 0 ==> c.spec_compress(left, right, tree_sizes(ms), pow2((max_log(ms) - k) as nat) as usize)
            == c.c1.spec_compress(left, right),
        k > 0 ==> c.spec_compress(left, right, tree_sizes(ms), pow2((max_log(ms) - k) as nat) as usize)
            == NC::spec_to_n1(c.c2.spec_compress(NC::spec_to_n2(left), NC::spec_to_n2(right))),
{
    lemma_first_size(ms);
    if k > 0 {
        vstd::arithmetic::power2::lemma_pow2_strictly_increases((max_log(ms) - k) as nat, max_log(ms));
    }
}

} // verus!
