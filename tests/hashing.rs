use hybrid_stir::hash::{serialize_u32s, Blake3, Keccak256};
use hybrid_stir::hybrid::{LeafHasher, PseudoCompressionFunction};

fn hex(d: &[u8; 32]) -> String {
    d.iter().map(|b| format!("{:02x}", b)).collect()
}

#[test]
fn blake3_of_empty_input() {
    assert_eq!(
        hex(&Blake3.hash_iter(&vec![])),
        "af1349b9f5f9a1a6a0404dea36dcc9499bcb25c9adc112b7cc9a93cae41f3262"
    );
}

#[test]
fn keccak256_of_empty_input() {
    assert_eq!(
        hex(&Keccak256.hash_elems(&vec![])),
        "c5d2460186f7233c927e7db2dcc703c0e500b653ca82273b7bfad8045d85a470"
    );
}

#[test]
fn hash_iter_slices_hashes_the_concatenation() {
    let whole = Blake3.hash_iter(&b"hello world".to_vec());
    let parts = Blake3.hash_iter_slices(&vec![b"hello".to_vec(), b" ".to_vec(), b"world".to_vec()]);
    assert_eq!(whole, parts);
    assert_ne!(whole, Blake3.hash_iter(&b"hello".to_vec()));
}

#[test]
fn field_elements_are_hashed_little_endian() {
    assert_eq!(serialize_u32s(&vec![0x04030201, 7]), vec![1, 2, 3, 4, 7, 0, 0, 0]);
    assert_eq!(
        Blake3.hash_elems(&vec![0x04030201]),
        Blake3.hash_iter(&vec![1, 2, 3, 4])
    );
}

#[test]
fn compression_hashes_both_digests() {
    let a = Blake3.hash_iter(&b"a".to_vec());
    let b = Blake3.hash_iter(&b"b".to_vec());
    let mut ab = a.to_vec();
    ab.extend_from_slice(&b);
    assert_eq!(Blake3.compress([a, b]), Blake3.hash_iter(&ab));
    assert_ne!(Blake3.compress([a, b]), Blake3.compress([b, a]));
    assert_ne!(Keccak256.compress([a, b]), Blake3.compress([a, b]));
}
