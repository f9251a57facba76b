use hybrid_stir::estimate::{
    estimate_commitment_time, estimate_commitment_time_capped, estimate_commitment_time_mixed,
    estimate_commitment_time_mixed_capped, estimate_recursive_path_proving_time,
    estimate_recursive_path_proving_time_capped, estimate_recursive_path_proving_time_mixed,
    estimate_verification_time, estimate_verification_time_capped, estimate_verification_time_mixed,
    get_compression_time, get_digest_time, get_or_estimate_rec_hash_proving_time,
    get_or_estimate_rec_hash_verification_time, FieldKind, HashKind,
};

#[test]
fn test_estimator() {
    assert_eq!(
        estimate_commitment_time_capped(28, 4, HashKind::Poseidon2, HashKind::Poseidon2, FieldKind::Goldilocks),
        estimate_commitment_time_mixed_capped(
            28,
            28,
            4,
            HashKind::Poseidon2,
            HashKind::Poseidon2,
            HashKind::Poseidon2,
            FieldKind::Goldilocks
        ),
    );
}

#[test]
fn table_lookups() {
    assert_eq!(get_digest_time(HashKind::Blake3, FieldKind::Goldilocks), Some(3100));
    assert_eq!(get_compression_time(HashKind::Rescue, FieldKind::Mersenne31), Some(137400));
    assert_eq!(get_digest_time(HashKind::Poseidon2, FieldKind::KoalaBear), None);
    assert_eq!(
        get_or_estimate_rec_hash_proving_time(HashKind::Keccak, HashKind::Blake3, FieldKind::Mersenne31),
        Some(354300)
    );
    // BLAKE3 from Keccak, scaled by 2300 / 14600 (the Mersenne31 digest times).
    assert_eq!(
        get_or_estimate_rec_hash_proving_time(HashKind::Blake3, HashKind::Poseidon2, FieldKind::KoalaBear),
        Some(960700 * 2300 / 14600)
    );
    assert_eq!(
        get_or_estimate_rec_hash_verification_time(HashKind::Poseidon2, HashKind::Poseidon2, FieldKind::KoalaBear),
        Some(699100000)
    );
    assert_eq!(
        get_or_estimate_rec_hash_verification_time(HashKind::Rescue, HashKind::Poseidon2, FieldKind::KoalaBear),
        None
    );
}

#[test]
fn commitment_estimates() {
    // 8 leaves: 8 digests and 7 compressions.
    assert_eq!(
        estimate_commitment_time(3, HashKind::Blake3, HashKind::Blake3, FieldKind::Goldilocks),
        Some(8 * 3100 + 7 * 3800)
    );
    // Keccak below level 1, BLAKE3 above.
    assert_eq!(
        estimate_commitment_time_mixed(3, 1, HashKind::Blake3, HashKind::Keccak, HashKind::Blake3, FieldKind::Goldilocks),
        Some(8 * 3100 + 6 * 16800 + 3800)
    );
    assert_eq!(
        estimate_commitment_time_mixed_capped(3, 1, 2, HashKind::Blake3, HashKind::Keccak, HashKind::Blake3, FieldKind::Goldilocks),
        None
    );
    assert_eq!(
        estimate_commitment_time(64, HashKind::Blake3, HashKind::Blake3, FieldKind::Goldilocks),
        None
    );
}

#[test]
fn path_estimates() {
    assert_eq!(
        estimate_verification_time(3, HashKind::Blake3, HashKind::Blake3, FieldKind::Goldilocks),
        Some(3100 + 3 * 3800)
    );
    assert_eq!(
        estimate_verification_time_mixed(5, 2, HashKind::Blake3, HashKind::Keccak, HashKind::Poseidon2, FieldKind::Mersenne31),
        Some(2300 + 3 * 16900 + 2 * 28200)
    );
    assert_eq!(
        estimate_verification_time_capped(5, 2, HashKind::Blake3, HashKind::Keccak, FieldKind::Mersenne31),
        Some(2300 + 3 * 16900)
    );
    assert_eq!(
        estimate_recursive_path_proving_time(4, HashKind::Poseidon2, HashKind::Poseidon2, HashKind::Poseidon2, FieldKind::KoalaBear),
        Some(238000 + 4 * 238000)
    );
    assert_eq!(
        estimate_recursive_path_proving_time_mixed(4, 1, HashKind::Keccak, HashKind::Keccak, HashKind::Poseidon2, HashKind::Poseidon2, FieldKind::KoalaBear),
        Some(960700 + 3 * 960700 + 238000)
    );
    assert_eq!(
        estimate_recursive_path_proving_time_capped(4, 1, HashKind::Keccak, HashKind::Rescue, HashKind::Poseidon2, FieldKind::KoalaBear),
        None
    );
}
