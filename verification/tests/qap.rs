use zk_circuit::error::ZkError;
use zk_circuit::field::FieldElement;
use zk_circuit::integer::Integer;
use zk_circuit::qap::{Polynomial, QAP};

fn num(x: i64) -> Integer {
    Integer::from_signed_bytes_le(x.to_le_bytes().to_vec())
}

fn fe(x: i64) -> FieldElement {
    FieldElement::new(num(x))
}

fn fem(x: i64, m: i64) -> FieldElement {
    FieldElement::with_modulus(num(x), num(m)).unwrap()
}

#[test]
fn new_polynomial_has_no_terms() {
    let p = Polynomial::new();
    assert!(p.coefficient(0).is_none());
    assert_eq!(p.evaluate(&vec![fe(5)]), Ok(fe(0)));
}

#[test]
fn add_term_overwrites_the_coefficient() {
    let mut p = Polynomial::new();
    p.add_term(2, fe(5));
    p.add_term(2, fe(9));
    assert_eq!(p.coefficient(2), Some(&fe(9)));
    assert!(p.coefficient(1).is_none());
}

#[test]
fn evaluate_sums_coefficient_times_assignment() {
    let mut p = Polynomial::new();
    p.add_term(0, fe(2));
    p.add_term(2, fe(3));
    let assignment = vec![fe(10), fe(100), fe(1000)];
    assert_eq!(p.evaluate(&assignment), Ok(fe(3020)));
}

#[test]
fn evaluate_reduces_in_the_default_field() {
    let mut p = Polynomial::new();
    p.add_term(0, fe(1_000_000_006));
    p.add_term(1, fe(1_000_000_006));
    let assignment = vec![fe(2), fe(3)];
    assert_eq!(p.evaluate(&assignment), Ok(fe(1_000_000_002)));
}

#[test]
fn evaluate_rejects_factors_of_two_fields() {
    let mut p = Polynomial::new();
    p.add_term(0, fem(2, 11));
    assert_eq!(p.evaluate(&vec![fe(3)]), Err(ZkError::ModulusMismatch));
}

#[test]
fn evaluate_stays_in_the_field_of_its_terms() {
    let mut p = Polynomial::new();
    p.add_term(0, fem(5, 11));
    assert_eq!(p.evaluate(&vec![fem(7, 11)]), Ok(fem(2, 11)));
}

#[test]
fn evaluate_reduces_the_sum_by_the_shared_modulus() {
    let mut p = Polynomial::new();
    p.add_term(0, fem(3, 7));
    p.add_term(1, fem(4, 7));
    assert_eq!(p.evaluate(&vec![fem(5, 7), fem(5, 7)]), Ok(fem(0, 7)));
}

#[test]
fn evaluate_ignores_values_at_absent_indices() {
    let mut p = Polynomial::new();
    p.add_term(1, fem(3, 7));
    assert_eq!(p.evaluate(&vec![fe(9), fem(4, 7), fem(1, 13)]), Ok(fem(5, 7)));
}

#[test]
fn evaluate_rejects_terms_of_two_fields() {
    let mut p = Polynomial::new();
    p.add_term(0, fem(3, 7));
    p.add_term(1, fem(3, 11));
    assert_eq!(p.evaluate(&vec![fem(1, 7), fem(1, 11)]), Err(ZkError::ModulusMismatch));
}

#[test]
fn qap_evaluates_in_the_field_of_its_terms() {
    let m = num(13);
    let one = fem(1, 13);
    let mut qap = QAP::new();
    qap.add_constraint(
        &[(0usize, one.clone())],
        &[(1usize, one.clone())],
        &[(2usize, one.clone())],
        &m,
    )
    .unwrap();
    assert_eq!(qap.evaluate(&vec![fem(5, 13), fem(7, 13), fem(9, 13)]), Ok(fem(0, 13)));
    assert_eq!(qap.evaluate(&vec![fem(5, 13), fem(7, 13), fem(8, 13)]), Ok(fem(1, 13)));
}

#[test]
fn qap_with_an_empty_form_still_evaluates() {
    let mut qap = QAP::new();
    qap.add_constraint(&[(0usize, fem(2, 13))], &[(1usize, fem(3, 13))], &[], &num(13)).unwrap();
    assert_eq!(qap.evaluate(&vec![fem(4, 13), fem(5, 13)]), Ok(fem(3, 13)));
    let mut qap = QAP::new();
    qap.add_constraint(&[], &[], &[(0usize, fem(2, 13))], &num(13)).unwrap();
    assert_eq!(qap.evaluate(&vec![fem(4, 13)]), Ok(fem(5, 13)));
    assert_eq!(QAP::new().evaluate(&vec![fem(4, 13)]), Ok(fe(0)));
}

#[test]
fn accumulation_shows_in_the_value() {
    let m = num(1_000_000_007);
    let mut qap = QAP::new();
    qap.add_constraint(&[(0usize, fe(1))], &[(1usize, fe(1))], &[(2usize, fe(1))], &m).unwrap();
    qap.add_constraint(&[(3usize, fe(1))], &[(4usize, fe(1))], &[(5usize, fe(1))], &m).unwrap();
    let w = vec![fe(10), fe(20), fe(30), fe(1), fe(2), fe(3)];
    assert_eq!(qap.left.evaluate(&w), Ok(fe(11)));
    assert_eq!(qap.right.evaluate(&w), Ok(fe(22)));
    assert_eq!(qap.output.evaluate(&w), Ok(fe(33)));
}

#[test]
fn accumulate_adds_repeated_indices() {
    let mut p = Polynomial::new();
    let terms = vec![(1usize, fe(4)), (3usize, fe(5)), (1usize, fe(6))];
    assert_eq!(p.accumulate(&terms, &num(1_000_000_007)), Ok(()));
    assert_eq!(p.coefficient(1), Some(&fe(10)));
    assert_eq!(p.coefficient(3), Some(&fe(5)));
    assert!(p.coefficient(0).is_none());
}

#[test]
fn accumulate_wraps_around_the_modulus() {
    let mut p = Polynomial::new();
    p.add_term(0, fe(1_000_000_000));
    assert_eq!(p.accumulate(&[(0usize, fe(10))], &num(1_000_000_007)), Ok(()));
    assert_eq!(p.coefficient(0), Some(&fe(3)));
}

#[test]
fn accumulate_leaves_the_polynomial_alone_on_a_mismatch() {
    let mut p = Polynomial::new();
    p.add_term(0, fe(1));
    let terms = vec![(0usize, fe(4)), (1usize, fem(1, 5))];
    assert_eq!(p.accumulate(&terms, &num(1_000_000_007)), Err(ZkError::ModulusMismatch));
    assert_eq!(p.coefficient(0), Some(&fe(1)));
    assert!(p.coefficient(1).is_none());
    assert_eq!(p.accumulate(&[(0usize, fe(4))], &num(5)), Err(ZkError::ModulusMismatch));
}

#[test]
fn accumulate_in_another_field() {
    let mut p = Polynomial::new();
    let terms = vec![(0usize, fem(4, 5)), (0usize, fem(3, 5))];
    assert_eq!(p.accumulate(&terms, &num(5)), Ok(()));
    assert_eq!(p.coefficient(0), Some(&fem(2, 5)));
}

#[test]
fn qap_keeps_the_contributions_of_two_constraints() {
    let m = num(1_000_000_007);
    let mut qap = QAP::new();
    assert_eq!(
        qap.add_constraint(&[(0usize, fe(1))], &[(1usize, fe(1))], &[(2usize, fe(1))], &m),
        Ok(())
    );
    assert_eq!(
        qap.add_constraint(&[(3usize, fe(2))], &[(4usize, fe(3))], &[(5usize, fe(4))], &m),
        Ok(())
    );
    assert_eq!(qap.left.coefficient(0), Some(&fe(1)));
    assert_eq!(qap.left.coefficient(3), Some(&fe(2)));
    assert_eq!(qap.right.coefficient(1), Some(&fe(1)));
    assert_eq!(qap.right.coefficient(4), Some(&fe(3)));
    assert_eq!(qap.output.coefficient(2), Some(&fe(1)));
    assert_eq!(qap.output.coefficient(5), Some(&fe(4)));
}

#[test]
fn qap_adds_up_constraints_over_one_index() {
    let m = num(1_000_000_007);
    let mut qap = QAP::new();
    for _ in 0..3 {
        assert_eq!(
            qap.add_constraint(&[(0usize, fe(1))], &[(0usize, fe(2))], &[(1usize, fe(5))], &m),
            Ok(())
        );
    }
    assert_eq!(qap.left.coefficient(0), Some(&fe(3)));
    assert_eq!(qap.right.coefficient(0), Some(&fe(6)));
    assert_eq!(qap.output.coefficient(1), Some(&fe(15)));
}

#[test]
fn qap_changes_nothing_when_one_side_does_not_fit() {
    let m = num(1_000_000_007);
    let mut qap = QAP::new();
    assert_eq!(
        qap.add_constraint(&[(0usize, fe(1))], &[(1usize, fe(1))], &[(2usize, fem(1, 5))], &m),
        Err(ZkError::ModulusMismatch)
    );
    assert!(qap.left.coefficient(0).is_none());
    assert!(qap.right.coefficient(1).is_none());
    assert!(qap.output.coefficient(2).is_none());
}

#[test]
fn qap_evaluates_to_zero_on_a_satisfying_assignment() {
    let m = num(1_000_000_007);
    let mut qap = QAP::new();
    qap.add_constraint(&[(0usize, fe(1))], &[(1usize, fe(1))], &[(2usize, fe(1))], &m).unwrap();
    assert_eq!(qap.evaluate(&vec![fe(3), fe(4), fe(12)]), Ok(fe(0)));
    assert_eq!(qap.evaluate(&vec![fe(3), fe(4), fe(13)]), Ok(fe(1_000_000_006)));
}

#[test]
fn qap_evaluate_is_left_times_right_less_output() {
    let m = num(1_000_000_007);
    let mut qap = QAP::new();
    qap.add_constraint(
        &[(0usize, fe(2)), (1usize, fe(1))],
        &[(1usize, fe(3))],
        &[(2usize, fe(1))],
        &m,
    )
    .unwrap();
    // (2*5 + 7) * (3*7) - 11 = 346
    assert_eq!(qap.evaluate(&vec![fe(5), fe(7), fe(11)]), Ok(fe(346)));
}

#[test]
fn qap_evaluate_rejects_factors_of_two_fields() {
    let mut qap = QAP::new();
    qap.add_constraint(&[(0usize, fem(1, 5))], &[], &[], &num(5)).unwrap();
    assert_eq!(qap.evaluate(&vec![fe(3)]), Err(ZkError::ModulusMismatch));
}

#[test]
fn indices_lists_each_term_once() {
    let mut p = Polynomial::new();
    assert!(p.indices().is_empty());
    p.add_term(7, fe(1));
    p.add_term(2, fe(1));
    p.add_term(7, fe(3));
    let mut indices = p.indices();
    indices.sort();
    assert_eq!(indices, vec![2, 7]);
    assert!(p.indices_within(8));
    assert!(!p.indices_within(7));
}
