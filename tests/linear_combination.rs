use sonic_pc::algebra::Field;
use sonic_pc::fp::Fp;
use sonic_pc::linear_combination::{LCTerm, LinearCombination};

fn f(n: u64) -> Fp {
    Fp::new(n)
}

fn terms_of(lc: &LinearCombination<Fp>) -> Vec<(u64, String)> {
    lc.iter().into_iter().map(|(c, t)| (c.to_u64(), t.to_string())).collect()
}

#[test]
fn adding_the_inverse_removes_the_term() {
    let (a, b) = (f(5), f(9));
    let mut lc = LinearCombination::new(
        "l".to_string(),
        vec![(a, LCTerm::from("x")), (b, LCTerm::from("y"))],
    );
    lc.add(a.negate(), LCTerm::from("x"));
    assert_eq!(lc.len(), 1);
    assert_eq!(terms_of(&lc), vec![(9, "y".to_string())]);
}

#[test]
fn new_merges_duplicate_terms_and_keeps_zero() {
    let lc = LinearCombination::new(
        "l".to_string(),
        vec![
            (f(3), LCTerm::from("x")),
            (f(4), LCTerm::from("x")),
            (f(2), LCTerm::from("y")),
            (f(2).negate(), LCTerm::from("y")),
        ],
    );
    assert_eq!(terms_of(&lc), vec![(7, "x".to_string()), (0, "y".to_string())]);
    assert_eq!(lc.label(), "l");
}

#[test]
fn terms_are_ordered_one_first_then_labels() {
    let lc = LinearCombination::new(
        "l".to_string(),
        vec![
            (f(1), LCTerm::from("b")),
            (f(2), LCTerm::One),
            (f(3), LCTerm::from("ab")),
            (f(4), LCTerm::from("a")),
        ],
    );
    let names: Vec<String> = terms_of(&lc).into_iter().map(|(_, t)| t).collect();
    assert_eq!(names, vec!["1", "a", "ab", "b"]);
}

#[test]
fn add_of_zero_to_absent_term_changes_nothing() {
    let mut lc = LinearCombination::empty("e".to_string());
    assert!(lc.is_empty());
    lc.add(Fp::zero(), LCTerm::from("x"));
    assert!(lc.is_empty());
    lc.add(f(6), LCTerm::from("x"));
    assert!(!lc.is_empty());
    assert_eq!(terms_of(&lc), vec![(6, "x".to_string())]);
}

#[test]
fn scaled_add_and_sub_of_combinations() {
    let mut lc = LinearCombination::new(
        "l".to_string(),
        vec![(f(1), LCTerm::from("x")), (f(2), LCTerm::from("y"))],
    );
    let other = LinearCombination::new(
        "o".to_string(),
        vec![(f(3), LCTerm::from("y")), (f(4), LCTerm::from("z"))],
    );
    lc.add_assign_scaled(f(10), &other);
    assert_eq!(
        terms_of(&lc),
        vec![(1, "x".to_string()), (32, "y".to_string()), (40, "z".to_string())]
    );
    lc.sub_assign_scaled(f(10), &other);
    assert_eq!(terms_of(&lc), vec![(1, "x".to_string()), (2, "y".to_string())]);
    assert_eq!(lc.label, "l");
}

#[test]
fn unscaled_add_and_sub_of_combinations() {
    let mut lc = LinearCombination::new("l".to_string(), vec![(f(5), LCTerm::from("x"))]);
    let other = LinearCombination::new("o".to_string(), vec![(f(5), LCTerm::from("x"))]);
    lc.add_assign(&other);
    assert_eq!(terms_of(&lc), vec![(10, "x".to_string())]);
    lc.sub_assign(&other);
    lc.sub_assign(&other);
    assert!(lc.is_empty());
}

#[test]
fn constants_go_to_the_one_term() {
    let mut lc = LinearCombination::empty("c".to_string());
    lc.add_constant(f(7));
    assert_eq!(terms_of(&lc), vec![(7, "1".to_string())]);
    lc.sub_constant(f(7));
    assert!(lc.is_empty());
}

#[test]
fn mul_assign_scales_and_keeps_zero_coefficients() {
    let mut lc = LinearCombination::new(
        "l".to_string(),
        vec![(f(3), LCTerm::from("x")), (f(4), LCTerm::One)],
    );
    lc.mul_assign(f(5));
    assert_eq!(terms_of(&lc), vec![(20, "1".to_string()), (15, "x".to_string())]);
    lc.mul_assign(Fp::zero());
    assert_eq!(lc.len(), 2);
    assert_eq!(terms_of(&lc), vec![(0, "1".to_string()), (0, "x".to_string())]);
}

#[test]
fn lc_term_helpers() {
    assert!(LCTerm::One.is_one());
    assert!(!LCTerm::from("p").is_one());
    assert_eq!(LCTerm::from("p".to_string()), LCTerm::PolyLabel("p".to_string()));
    assert_eq!(LCTerm::from("p").try_into_label(), Ok("p".to_string()));
    assert_eq!(LCTerm::One.try_into_label(), Err(()));
    assert!(LCTerm::from("p").eq_label(&"p".to_string()));
    assert!(!LCTerm::from("p").eq_label(&"q".to_string()));
    assert!(!LCTerm::One.eq_label(&"1".to_string()));
    assert_eq!(LCTerm::One.to_string(), "1");
    assert_eq!(LCTerm::from("poly").to_string(), "poly");
    assert_eq!(LCTerm::One.compare(&LCTerm::from("a")), -1);
    assert_eq!(LCTerm::from("b").compare(&LCTerm::from("a")), 1);
    assert_eq!(LCTerm::from("a").compare(&LCTerm::from("a")), 0);
    assert_eq!(LCTerm::from("a").compare(&LCTerm::from("ab")), -1);
}

#[test]
fn prime_field_arithmetic() {
    let p = sonic_pc::fp::MODULUS;
    assert_eq!(Fp::new(p).to_u64(), 0);
    assert_eq!(Fp::new(p + 3).to_u64(), 3);
    assert_eq!(f(p - 1).plus(&f(2)).to_u64(), 1);
    assert_eq!(f(3).negate().to_u64(), p - 3);
    assert_eq!(Fp::zero().negate().to_u64(), 0);
    assert_eq!(f(1 << 20).times(&f(1 << 20)).to_u64(), (1u64 << 40) % p);
    assert!(f(3).plus(&f(3).negate()).is_zero());
    assert!(f(4).equals(&f(p + 4)));
}
