use hybrid_stir::hash::{Blake3, Keccak256};
use hybrid_stir::hybrid::{
    HybridPseudoCompressionFunction, IdentityConverter, LeafHasher, PseudoCompressionFunction,
    SimpleHybridCompressor,
};
use hybrid_stir::hybrid_merkle_tree::{CommitError, HybridMerkleTree};
use hybrid_stir::matrix::RowMajorMatrix;
use hybrid_stir::mmcs::{verify_batch, VerifyError};

type Hybrid = SimpleHybridCompressor<Blake3, Keccak256, IdentityConverter>;

fn hybrid() -> Hybrid {
    SimpleHybridCompressor::new(Blake3, Keccak256)
}

fn matrix(height: usize, width: usize, seed: u32) -> RowMajorMatrix {
    let values = (0..height * width)
        .map(|i| (i as u32).wrapping_mul(2_654_435_761).wrapping_add(seed) % 2_013_265_921)
        .collect();
    RowMajorMatrix::new(values, width)
}

fn open_and_verify(leaves: Vec<RowMajorMatrix>) {
    let c = hybrid();
    let dims: Vec<_> = leaves.iter().map(|m| m.dimensions()).collect();
    let tree = HybridMerkleTree::new(&Blake3, &c, leaves).unwrap();
    let root = tree.root();
    let max_height = dims.iter().map(|d| d.height).max().unwrap();
    for index in 0..max_height.next_power_of_two() {
        let (opened, proof) = tree.open_batch(index);
        assert_eq!(verify_batch(&Blake3, &c, &root, &dims, index, &opened, &proof), Ok(()));
    }
}

#[test]
fn empty_leaves_are_refused() {
    let r = HybridMerkleTree::new(&Blake3, &hybrid(), vec![]);
    assert_eq!(r.err(), Some(CommitError::EmptyLeaves));
}

#[test]
fn heights_rounding_to_the_same_power_must_match() {
    let r = HybridMerkleTree::new(&Blake3, &hybrid(), vec![matrix(5, 2, 1), matrix(7, 3, 2)]);
    assert_eq!(r.err(), Some(CommitError::HeightMismatch));
    let ok = HybridMerkleTree::new(&Blake3, &hybrid(), vec![matrix(8, 2, 1), matrix(3, 3, 2)]);
    assert!(ok.is_ok());
}

#[test]
fn single_row_tree_root_is_the_row_digest() {
    let m = matrix(1, 4, 9);
    let expected = Blake3.hash_elems(&m.row(0));
    let tree = HybridMerkleTree::new(&Blake3, &hybrid(), vec![m]).unwrap();
    assert_eq!(tree.root(), expected);
}

#[test]
fn hybrid_crossover_uses_first_compressor_at_the_bottom() {
    // Four rows: the bottom layer of four digests is compressed with BLAKE3, the layer of two
    // with Keccak-256.
    let m = matrix(4, 2, 3);
    let leaves: Vec<[u8; 32]> = (0..4).map(|i| Blake3.hash_elems(&m.row(i))).collect();
    let l1 = [
        PseudoCompressionFunction::compress(&Blake3, [leaves[0], leaves[1]]),
        PseudoCompressionFunction::compress(&Blake3, [leaves[2], leaves[3]]),
    ];
    let root = PseudoCompressionFunction::compress(&Keccak256, [l1[0], l1[1]]);
    let tree = HybridMerkleTree::new(&Blake3, &hybrid(), vec![m]).unwrap();
    assert_eq!(tree.root(), root);

    let sizes = [4usize, 2];
    let c = hybrid();
    assert_eq!(
        HybridPseudoCompressionFunction::compress(&c, [leaves[0], leaves[1]], &sizes, 4),
        l1[0]
    );
    assert_eq!(
        HybridPseudoCompressionFunction::compress(&c, [l1[0], l1[1]], &sizes, 2),
        root
    );
    open_and_verify(vec![matrix(4, 2, 3)]);
}

#[test]
fn injected_matrices_change_the_root() {
    let tall = matrix(8, 2, 1);
    let alone = HybridMerkleTree::new(&Blake3, &hybrid(), vec![tall.clone()]).unwrap();
    let with_short =
        HybridMerkleTree::new(&Blake3, &hybrid(), vec![tall.clone(), matrix(2, 3, 5)]).unwrap();
    assert_ne!(alone.root(), with_short.root());
}

#[test]
fn openings_verify_against_their_root() {
    open_and_verify(vec![matrix(8, 2, 1)]);
    open_and_verify(vec![matrix(5, 3, 1), matrix(2, 1, 7), matrix(1, 4, 2)]);
    open_and_verify(vec![matrix(3, 2, 4), matrix(16, 1, 8), matrix(7, 2, 1), matrix(16, 3, 5)]);
    open_and_verify(vec![matrix(1, 1, 0)]);
}

#[test]
fn flipping_one_element_changes_the_root_and_breaks_openings() {
    let leaves = vec![matrix(8, 4, 1), matrix(4, 2, 2)];
    let dims: Vec<_> = leaves.iter().map(|m| m.dimensions()).collect();
    let c = hybrid();
    let tree = HybridMerkleTree::new(&Blake3, &c, leaves.clone()).unwrap();

    let mut changed = leaves.clone();
    changed[1].values[3] = (changed[1].values[3] + 1) % 2_013_265_921;
    let changed_tree = HybridMerkleTree::new(&Blake3, &c, changed).unwrap();
    assert_ne!(tree.root(), changed_tree.root());

    let (opened, proof) = tree.open_batch(5);
    assert_eq!(verify_batch(&Blake3, &c, &tree.root(), &dims, 5, &opened, &proof), Ok(()));
    assert_eq!(
        verify_batch(&Blake3, &c, &changed_tree.root(), &dims, 5, &opened, &proof),
        Err(VerifyError::RootMismatch)
    );
}

#[test]
fn malformed_openings_are_refused() {
    let leaves = vec![matrix(4, 2, 1)];
    let dims: Vec<_> = leaves.iter().map(|m| m.dimensions()).collect();
    let c = hybrid();
    let tree = HybridMerkleTree::new(&Blake3, &c, leaves).unwrap();
    let root = tree.root();
    let (opened, proof) = tree.open_batch(1);
    assert_eq!(
        verify_batch(&Blake3, &c, &root, &vec![], 1, &opened, &proof),
        Err(VerifyError::WrongBatchSize)
    );
    assert_eq!(
        verify_batch(&Blake3, &c, &root, &dims, 1, &opened, &proof[..1].to_vec()),
        Err(VerifyError::WrongHeight)
    );
    let mut bad_row = opened.clone();
    bad_row[0][0] += 1;
    assert_eq!(
        verify_batch(&Blake3, &c, &root, &dims, 1, &bad_row, &proof),
        Err(VerifyError::RootMismatch)
    );
    assert_eq!(
        verify_batch(&Blake3, &c, &root, &dims, 2, &opened, &proof),
        Err(VerifyError::RootMismatch)
    );
}
