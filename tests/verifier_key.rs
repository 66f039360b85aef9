use sonic_pc::commitment::Commitment;
use sonic_pc::fp::Fp;
use sonic_pc::verifier_key::VerifierKey;

/// A key whose inner part is a group element, prepared by its doubling ladder.
fn key(pairs: Option<Vec<(usize, u64)>>) -> VerifierKey<Commitment<Fp>, u64, String> {
    let prepared = pairs
        .as_ref()
        .map(|v| v.iter().map(|(d, h)| (*d, format!("prepared {h}"))).collect());
    VerifierKey {
        vk: Commitment(Fp::new(21)),
        degree_bounds_and_neg_powers_of_h: pairs,
        degree_bounds_and_prepared_neg_powers_of_h: prepared,
        supported_degree: 10,
        max_degree: 16,
    }
}

#[test]
fn shift_power_without_degree_bounds() {
    let k = key(None);
    assert_eq!(k.get_shift_power(0), None);
    assert_eq!(k.get_shift_power(4), None);
    assert_eq!(k.get_prepared_shift_power(4), None);
    let empty = key(Some(vec![]));
    assert_eq!(empty.get_shift_power(4), None);
}

#[test]
fn shift_power_with_one_bound() {
    let k = key(Some(vec![(4, 40)]));
    assert_eq!(k.get_shift_power(4), Some(40));
    assert_eq!(k.get_shift_power(3), None);
    assert_eq!(k.get_shift_power(5), None);
    assert_eq!(k.get_prepared_shift_power(4), Some("prepared 40".to_string()));
}

#[test]
fn shift_power_with_many_bounds() {
    let pairs: Vec<(usize, u64)> = (0..50).map(|i| (3 * i + 1, 1000 + i as u64)).collect();
    let k = key(Some(pairs.clone()));
    for (d, h) in &pairs {
        assert_eq!(k.get_shift_power(*d), Some(*h));
        assert_eq!(k.get_prepared_shift_power(*d), Some(format!("prepared {h}")));
    }
    for d in [0usize, 2, 3, 5, 149, 150, 1000] {
        assert_eq!(k.get_shift_power(d), None);
        assert_eq!(k.get_prepared_shift_power(d), None);
    }
}

#[test]
fn prepared_verifier_key_keeps_degrees_and_bounds() {
    let k = key(Some(vec![(2, 20), (7, 70)]));
    let p = k.prepare();
    assert_eq!(p.prepared_vk.0[0], Fp::new(21));
    assert_eq!(p.prepared_vk.0[1], Fp::new(42));
    assert_eq!(p.max_degree, 16);
    assert_eq!(p.supported_degree, 10);
    assert_eq!(p.get_prepared_shift_power(7), Some("prepared 70".to_string()));
    assert_eq!(p.get_prepared_shift_power(3), None);
    assert_eq!(k.max_degree(), 16);
    assert_eq!(k.supported_degree(), 10);
}
