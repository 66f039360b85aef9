use sha2::Digest;
use sonic_pc::basis_map::BasisMap;
use sonic_pc::committer_key::CommitterKey;
use sonic_pc::fp::Fp;
use sonic_pc::key_format::KeyDecodeError;

fn points(values: &[u64]) -> Vec<Fp> {
    values.iter().map(|v| Fp::new(*v)).collect()
}

/// A key with Lagrange bases and degree-bound support: bounds 2 and 5.
fn full_key() -> CommitterKey<Fp> {
    let mut lagrange = BasisMap::new();
    lagrange.insert(4, points(&[41, 42, 43, 44]));
    lagrange.insert(2, points(&[21, 22]));
    let mut hiding = BasisMap::new();
    hiding.insert(5, points(&[501, 502]));
    hiding.insert(2, points(&[201]));
    CommitterKey {
        powers_of_beta_g: points(&[1, 2, 3, 4, 5, 6]),
        lagrange_bases_at_beta_g: lagrange,
        powers_of_beta_times_gamma_g: points(&[7, 8]),
        shifted_powers_of_beta_g: Some(points(&[100, 101, 102, 103, 104, 105])),
        shifted_powers_of_beta_times_gamma_g: Some(hiding),
        enforced_degree_bounds: Some(vec![2, 5]),
        max_degree: 5,
    }
}

/// A key with neither Lagrange bases nor degree-bound support.
fn plain_key() -> CommitterKey<Fp> {
    CommitterKey {
        powers_of_beta_g: points(&[9, 10, 11]),
        lagrange_bases_at_beta_g: BasisMap::new(),
        powers_of_beta_times_gamma_g: points(&[12]),
        shifted_powers_of_beta_g: None,
        shifted_powers_of_beta_times_gamma_g: None,
        enforced_degree_bounds: None,
        max_degree: 2,
    }
}

fn encode(key: &CommitterKey<Fp>) -> Vec<u8> {
    let mut out = Vec::new();
    key.write_le(&mut out);
    out
}

#[test]
fn round_trip_with_degree_bounds_and_lagrange() {
    let key = full_key();
    let bytes = encode(&key);
    let back = CommitterKey::<Fp>::read_le(&bytes).unwrap();
    assert_eq!(back, key);
}

#[test]
fn round_trip_without_degree_bounds() {
    let key = plain_key();
    let bytes = encode(&key);
    let back = CommitterKey::<Fp>::read_le(&bytes).unwrap();
    assert_eq!(back, key);
}

#[test]
fn round_trip_ignores_trailing_bytes() {
    let key = full_key();
    let mut bytes = encode(&key);
    bytes.extend_from_slice(&[1, 2, 3]);
    assert_eq!(CommitterKey::<Fp>::read_le(&bytes).unwrap(), key);
}

#[test]
fn lagrange_bases_are_written_in_ascending_order() {
    let key = full_key();
    assert_eq!(key.lagrange_bases_at_beta_g.key_at(0), 2);
    assert_eq!(key.lagrange_bases_at_beta_g.key_at(1), 4);
}

#[test]
fn plain_key_bytes_are_exact() {
    let key = plain_key();
    let bytes = encode(&key);
    let mut expected: Vec<u8> = vec![3, 0, 0, 0, 9, 0, 0, 0, 10, 0, 0, 0, 11, 0, 0, 0];
    expected.extend_from_slice(&[0, 0, 0, 0]);
    expected.extend_from_slice(&[1, 0, 0, 0, 12, 0, 0, 0]);
    expected.extend_from_slice(&[0, 0, 0]);
    expected.extend_from_slice(&[2, 0, 0, 0]);
    let digest_input: Vec<u8> = vec![9, 0, 0, 0, 10, 0, 0, 0, 11, 0, 0, 0, 12, 0, 0, 0];
    expected.extend_from_slice(&sha2::Sha256::digest(&digest_input));
    assert_eq!(bytes, expected);
    assert_eq!(key.digest_input(), digest_input);
}

#[test]
fn digest_of_empty_key_is_sha256_of_nothing() {
    let key = CommitterKey::<Fp> {
        powers_of_beta_g: vec![],
        lagrange_bases_at_beta_g: BasisMap::new(),
        powers_of_beta_times_gamma_g: vec![],
        shifted_powers_of_beta_g: None,
        shifted_powers_of_beta_times_gamma_g: None,
        enforced_degree_bounds: None,
        max_degree: 0,
    };
    let bytes = encode(&key);
    let empty_digest: [u8; 32] = [
        0xe3, 0xb0, 0xc4, 0x42, 0x98, 0xfc, 0x1c, 0x14, 0x9a, 0xfb, 0xf4, 0xc8, 0x99, 0x6f, 0xb9,
        0x24, 0x27, 0xae, 0x41, 0xe4, 0x64, 0x9b, 0x93, 0x4c, 0xa4, 0x95, 0x99, 0x1b, 0x78, 0x52,
        0xb8, 0x55,
    ];
    assert_eq!(bytes.len(), 4 + 4 + 4 + 3 + 4 + 32);
    assert_eq!(&bytes[bytes.len() - 32..], &empty_digest[..]);
}

#[test]
fn digest_covers_shifted_bases() {
    let key = full_key();
    let mut expected: Vec<u8> = Vec::new();
    for v in [1u8, 2, 3, 4, 5, 6, 7, 8] {
        expected.extend_from_slice(&[v, 0, 0, 0]);
    }
    for v in [100u8, 101, 102, 103, 104, 105] {
        expected.extend_from_slice(&[v, 0, 0, 0]);
    }
    // Shifted hiding bases in ascending order of bound: 2, then 5.
    expected.extend_from_slice(&[201, 0, 0, 0]);
    expected.extend_from_slice(&[0xf5, 0x01, 0, 0, 0xf6, 0x01, 0, 0]);
    assert_eq!(key.digest_input(), expected);
    let bytes = encode(&key);
    assert_eq!(&bytes[bytes.len() - 32..], &sha2::Sha256::digest(&expected)[..]);
}

#[test]
fn flipped_group_element_byte_fails_integrity_check() {
    let key = full_key();
    let bytes = encode(&key);
    // Every byte of the plain basis: a flip of the lowest bit keeps a small residue valid.
    for at in [4usize, 8, 12, 16, 20, 24] {
        let mut corrupt = bytes.clone();
        corrupt[at] ^= 1;
        assert_eq!(
            CommitterKey::<Fp>::read_le(&corrupt),
            Err(KeyDecodeError::IntegrityMismatch)
        );
    }
    // A byte of the hiding basis.
    let hiding_at = 4 + 24 + 4 + (4 + 8) + (4 + 16);
    let mut corrupt = bytes.clone();
    corrupt[hiding_at + 4] ^= 0x10;
    assert_eq!(CommitterKey::<Fp>::read_le(&corrupt), Err(KeyDecodeError::IntegrityMismatch));
}

#[test]
fn flipped_digest_byte_fails_integrity_check() {
    let key = plain_key();
    let mut bytes = encode(&key);
    let last = bytes.len() - 1;
    bytes[last] ^= 0x80;
    assert_eq!(CommitterKey::<Fp>::read_le(&bytes), Err(KeyDecodeError::IntegrityMismatch));
}

#[test]
fn truncated_key_is_malformed() {
    let key = full_key();
    let bytes = encode(&key);
    for len in [0usize, 3, 10, bytes.len() - 33, bytes.len() - 1] {
        assert_eq!(CommitterKey::<Fp>::read_le(&bytes[..len]), Err(KeyDecodeError::Malformed));
    }
}

#[test]
fn bad_flag_is_malformed() {
    let key = plain_key();
    let mut bytes = encode(&key);
    // The presence flag of the shifted basis follows the three bases.
    let flag_at = 4 + 12 + 4 + 4 + 4;
    assert_eq!(bytes[flag_at], 0);
    bytes[flag_at] = 2;
    assert_eq!(CommitterKey::<Fp>::read_le(&bytes), Err(KeyDecodeError::Malformed));
}

#[test]
fn invalid_group_element_is_malformed() {
    let key = plain_key();
    let mut bytes = encode(&key);
    bytes[4..8].copy_from_slice(&[0xff, 0xff, 0xff, 0xff]);
    assert_eq!(CommitterKey::<Fp>::read_le(&bytes), Err(KeyDecodeError::Malformed));
}

#[test]
fn shifted_powers_start_at_offset_of_bound() {
    let key = full_key();
    let p = key.shifted_powers_of_beta_g(Some(2)).unwrap();
    // max bound 5, bound 2: offset 3.
    assert_eq!(p.powers_of_beta_g, &points(&[103, 104, 105])[..]);
    assert_eq!(p.powers_of_beta_g[0], Fp::new(103));
    assert_eq!(p.powers_of_beta_times_gamma_g, &points(&[201])[..]);
    let top = key.shifted_powers_of_beta_g(Some(5)).unwrap();
    assert_eq!(top.powers_of_beta_g.len(), 6);
    assert_eq!(top.powers_of_beta_g[0], Fp::new(100));
    assert_eq!(top.powers_of_beta_times_gamma_g, &points(&[501, 502])[..]);
}

#[test]
fn shifted_powers_default_to_largest_bound() {
    let key = full_key();
    let p = key.shifted_powers_of_beta_g(None).unwrap();
    assert_eq!(p.powers_of_beta_g, &points(&[100, 101, 102, 103, 104, 105])[..]);
    assert_eq!(p.powers_of_beta_times_gamma_g, &points(&[501, 502])[..]);
}

#[test]
fn shifted_powers_of_unsupported_bound_is_none() {
    let key = full_key();
    assert!(key.shifted_powers_of_beta_g(Some(3)).is_none());
    assert!(key.shifted_powers_of_beta_g(Some(6)).is_none());
    assert!(plain_key().shifted_powers_of_beta_g(Some(2)).is_none());
    assert!(plain_key().shifted_powers_of_beta_g(None).is_none());
}

#[test]
fn powers_are_the_plain_and_hiding_bases() {
    let key = full_key();
    let p = key.powers();
    assert_eq!(p.powers_of_beta_g, &points(&[1, 2, 3, 4, 5, 6])[..]);
    assert_eq!(p.powers_of_beta_times_gamma_g, &points(&[7, 8])[..]);
}

#[test]
fn lagrange_basis_by_domain_size() {
    let key = full_key();
    let l = key.lagrange_basis(4).unwrap();
    assert_eq!(l.lagrange_basis_at_beta_g, &points(&[41, 42, 43, 44])[..]);
    assert_eq!(l.powers_of_beta_times_gamma_g, &points(&[7, 8])[..]);
    assert_eq!(l.domain_size, 4);
    assert!(key.lagrange_basis(8).is_none());
    assert!(plain_key().lagrange_basis(4).is_none());
}

#[test]
fn committer_key_degrees() {
    let key = full_key();
    assert_eq!(key.max_degree(), 5);
    assert_eq!(key.supported_degree(), 5);
    assert_eq!(plain_key().supported_degree(), 2);
}

#[test]
fn basis_map_insert_replaces_and_orders() {
    let mut m = BasisMap::new();
    m.insert(7, points(&[1]));
    m.insert(3, points(&[2]));
    m.insert(7, points(&[3, 4]));
    assert_eq!(m.len(), 2);
    assert_eq!(m.key_at(0), 3);
    assert_eq!(m.key_at(1), 7);
    assert_eq!(m.get(7).unwrap(), &points(&[3, 4]));
    assert!(m.get(5).is_none());
}
