use sonic_pc::algebra::{CanonicalBytes, Prepare};
use sonic_pc::batch_proof::{BatchLCProof, BatchProof, KZGProof};
use sonic_pc::commitment::{Commitment, LabeledCommitment, PREPARED_LADDER_LEN};
use sonic_pc::fp::{Fp, MODULUS};
use sonic_pc::polynomial::{LabeledPolynomial, PolynomialInfo};
use sonic_pc::query::{evaluate_query_set, Evaluations, QuerySet};

fn f(n: u64) -> Fp {
    Fp::new(n)
}

fn poly(label: &str, coeffs: &[u64]) -> LabeledPolynomial<Fp> {
    LabeledPolynomial::new(label.to_string(), coeffs.iter().map(|c| f(*c)).collect(), None)
}

#[test]
fn evaluates_x_squared_plus_one_at_three() {
    let polys = vec![poly("p", &[1, 0, 1])];
    let mut qs = QuerySet::new();
    qs.insert("p".to_string(), "z".to_string(), f(3));
    let evals = evaluate_query_set(&polys, &qs);
    assert_eq!(evals.len(), 1);
    assert_eq!(evals.get(&"p".to_string(), &f(3)), Some(f(10)));
}

#[test]
fn evaluates_each_query_with_its_polynomial() {
    let polys = vec![poly("a", &[2, 3]), poly("b", &[0, 0, 0, 1]), poly("c", &[])];
    let mut qs = QuerySet::new();
    qs.insert("a".to_string(), "z".to_string(), f(5));
    qs.insert("b".to_string(), "z".to_string(), f(5));
    qs.insert("b".to_string(), "w".to_string(), f(2));
    qs.insert("c".to_string(), "w".to_string(), f(2));
    let evals = evaluate_query_set(&polys, &qs);
    assert_eq!(evals.len(), 4);
    assert_eq!(evals.get(&"a".to_string(), &f(5)), Some(f(17)));
    assert_eq!(evals.get(&"b".to_string(), &f(5)), Some(f(125)));
    assert_eq!(evals.get(&"b".to_string(), &f(2)), Some(f(8)));
    assert_eq!(evals.get(&"c".to_string(), &f(2)), Some(f(0)));
    assert_eq!(evals.get(&"a".to_string(), &f(2)), None);
}

#[test]
fn named_points_that_coincide_share_one_evaluation() {
    let polys = vec![poly("p", &[1, 1])];
    let mut qs = QuerySet::new();
    assert!(qs.insert("p".to_string(), "z".to_string(), f(4)));
    assert!(qs.insert("p".to_string(), "w".to_string(), f(4)));
    assert!(!qs.insert("p".to_string(), "z".to_string(), f(4)));
    assert_eq!(qs.len(), 2);
    let evals = evaluate_query_set(&polys, &qs);
    assert_eq!(evals.len(), 1);
    assert_eq!(evals.get(&"p".to_string(), &f(4)), Some(f(5)));
}

#[test]
fn a_repeated_label_uses_the_last_polynomial() {
    let polys = vec![poly("p", &[1]), poly("q", &[2]), poly("p", &[7])];
    let mut qs = QuerySet::new();
    qs.insert("p".to_string(), "z".to_string(), f(9));
    qs.insert("q".to_string(), "z".to_string(), f(9));
    let evals = evaluate_query_set(&polys, &qs);
    assert_eq!(evals.get(&"p".to_string(), &f(9)), Some(f(7)));
    assert_eq!(evals.get(&"q".to_string(), &f(9)), Some(f(2)));
}

#[test]
fn evaluations_insert_replaces() {
    let mut e = Evaluations::new();
    e.insert("p".to_string(), f(1), f(2));
    e.insert("p".to_string(), f(1), f(3));
    e.insert("q".to_string(), f(1), f(4));
    assert_eq!(e.len(), 2);
    assert_eq!(e.get(&"p".to_string(), &f(1)), Some(f(3)));
}

#[test]
fn polynomial_evaluation_wraps_modulo_the_prime() {
    let p = poly("p", &[MODULUS - 1, 1]);
    assert_eq!(p.evaluate(f(2)), f(1));
    assert_eq!(p.label(), "p");
    assert_eq!(p.degree_bound(), None);
}

#[test]
fn labeled_commitment_bytes_are_the_bare_commitment() {
    let c = Commitment(f(0x01020304));
    let labeled = LabeledCommitment::new("p".to_string(), c, Some(4));
    let mut a = Vec::new();
    labeled.write_le(&mut a);
    let mut b = Vec::new();
    c.write_le(&mut b);
    assert_eq!(a, b);
    assert_eq!(a, vec![4, 3, 2, 1]);
    assert_eq!(labeled.label(), "p");
    assert_eq!(labeled.degree_bound(), Some(4));
    assert_eq!(*labeled.commitment(), c);
}

#[test]
fn labeled_commitment_from_info() {
    let info = PolynomialInfo::new("q".to_string(), Some(7));
    let labeled = LabeledCommitment::new_with_info(&info, Commitment(f(1)));
    assert_eq!(labeled.label(), "q");
    assert_eq!(labeled.degree_bound(), Some(7));
    assert_eq!(info.label(), "q");
    assert_eq!(info.degree_bound(), Some(7));
}

fn mul_mod(a: u64, b: u64) -> u64 {
    ((a as u128 * b as u128) % MODULUS as u128) as u64
}

#[test]
fn prepared_commitment_is_the_doubling_ladder() {
    let c = 123_456_789u64;
    let prepared = Commitment(f(c)).prepare();
    assert_eq!(prepared.0.len(), PREPARED_LADDER_LEN);
    assert_eq!(prepared.0.len(), 128);
    let mut two_to_i = 1u64;
    for i in 0..128 {
        assert_eq!(prepared.0[i].to_u64(), mul_mod(c, two_to_i), "rung {i}");
        two_to_i = mul_mod(two_to_i, 2);
    }
}

fn opening(hiding: bool) -> KZGProof<Fp, Fp> {
    KZGProof { w: f(1), random_v: if hiding { Some(f(2)) } else { None } }
}

#[test]
fn batch_hides_when_any_proof_hides() {
    assert!(BatchProof(vec![opening(false), opening(true)]).is_hiding());
    assert!(!BatchProof(vec![opening(false), opening(false)]).is_hiding());
    assert!(!BatchProof::<Fp, Fp>(vec![]).is_hiding());
    let lc = BatchLCProof { proof: BatchProof(vec![opening(true)]), evaluations: Some(vec![f(3)]) };
    assert!(lc.is_hiding());
    let lc = BatchLCProof { proof: BatchProof(vec![opening(false)]), evaluations: None };
    assert!(!lc.is_hiding());
}
