use zk_circuit::error::ZkError;
use zk_circuit::field::FieldElement;
use zk_circuit::integer::Integer;
use zk_circuit::r1cs::{Constraint, Operation, Variable, R1CS};

fn num(x: i64) -> Integer {
    Integer::from_signed_bytes_le(x.to_le_bytes().to_vec())
}

fn fe(x: i64) -> FieldElement {
    FieldElement::new(num(x))
}

fn fem(x: i64, m: i64) -> FieldElement {
    FieldElement::with_modulus(num(x), num(m)).unwrap()
}

fn system(values: &[i64]) -> R1CS {
    let mut r1cs = R1CS::new();
    for v in values {
        r1cs.add_variable(fe(*v));
    }
    r1cs
}

fn prime() -> Integer {
    num(1_000_000_007)
}

#[test]
fn new_system_is_empty() {
    let r1cs = R1CS::new();
    assert!(r1cs.variables.is_empty());
    assert!(r1cs.constraints.is_empty());
    assert!(r1cs.qap.left.coefficient(0).is_none());
    assert!(r1cs.generate_witness().is_empty());
}

#[test]
fn add_variable_gives_sequential_indices() {
    let mut r1cs = R1CS::new();
    assert_eq!(r1cs.add_variable(fe(3)), 0);
    assert_eq!(r1cs.add_variable(fe(4)), 1);
    assert_eq!(r1cs.add_variable(fe(12)), 2);
    assert_eq!(r1cs.variables[1].index, 1);
    assert_eq!(r1cs.variables[1].value, fe(4));
    assert_eq!(r1cs.variables[0].index, 0);
}

#[test]
fn generate_witness_lists_values_in_index_order() {
    let r1cs = system(&[3, 4, 12]);
    assert_eq!(r1cs.generate_witness(), vec![fe(3), fe(4), fe(12)]);
}

#[test]
fn add_constraint_updates_list_and_polynomial_form_together() {
    let mut r1cs = system(&[3, 4, 12]);
    let one = fe(1);
    assert_eq!(
        r1cs.add_constraint(
            &[(0usize, one.clone())],
            &[(1usize, one.clone())],
            &[(2usize, one.clone())],
            &prime()
        ),
        Ok(())
    );
    assert_eq!(r1cs.constraints.len(), 1);
    let c = &r1cs.constraints[0];
    assert_eq!(c.left.len(), 1);
    assert_eq!(c.left[0].0.index, 0);
    assert_eq!(c.left[0].0.value, fe(3));
    assert_eq!(c.left[0].1, num(1));
    assert_eq!(c.right[0].0.index, 1);
    assert_eq!(c.right[0].0.value, fe(4));
    assert_eq!(c.output[0].0.index, 2);
    assert_eq!(c.output[0].0.value, fe(12));
    assert_eq!(r1cs.qap.left.coefficient(0), Some(&one));
    assert_eq!(r1cs.qap.right.coefficient(1), Some(&one));
    assert_eq!(r1cs.qap.output.coefficient(2), Some(&one));
    assert_eq!(r1cs.variables.len(), 3);
}

#[test]
fn add_constraint_reads_a_product_off_the_values() {
    let mut r1cs = system(&[3, 4, 12]);
    r1cs.add_constraint(&[(0usize, fe(1))], &[(1usize, fe(1))], &[(2usize, fe(1))], &prime())
        .unwrap();
    assert_eq!(r1cs.constraints[0].operation, Operation::Mul);
}

#[test]
fn add_constraint_reads_a_sum_off_the_values() {
    let mut r1cs = system(&[3, 4, 7]);
    r1cs.add_constraint(&[(0usize, fe(1))], &[(1usize, fe(1))], &[(2usize, fe(1))], &prime())
        .unwrap();
    assert_eq!(r1cs.constraints[0].operation, Operation::Add);
}

#[test]
fn add_constraint_falls_back_to_a_product() {
    let mut r1cs = system(&[3, 4, 5]);
    r1cs.add_constraint(&[(0usize, fe(1))], &[(1usize, fe(1))], &[(2usize, fe(1))], &prime())
        .unwrap();
    assert_eq!(r1cs.constraints[0].operation, Operation::Mul);
}

#[test]
fn add_constraint_prefers_the_product_where_both_hold() {
    let mut r1cs = system(&[2, 2, 4]);
    r1cs.add_constraint(&[(0usize, fe(1))], &[(1usize, fe(1))], &[(2usize, fe(1))], &prime())
        .unwrap();
    assert_eq!(r1cs.constraints[0].operation, Operation::Mul);
}

#[test]
fn add_constraint_with_operation_keeps_the_tag() {
    let mut r1cs = system(&[3, 4, 12]);
    r1cs.add_constraint_with_operation(
        &[(0usize, fe(1))],
        &[(1usize, fe(1))],
        &[(2usize, fe(1))],
        &prime(),
        Operation::Add,
    )
    .unwrap();
    assert_eq!(r1cs.constraints[0].operation, Operation::Add);
}

#[test]
fn add_constraint_changes_nothing_on_a_mismatch() {
    let mut r1cs = system(&[3, 4, 12]);
    assert_eq!(
        r1cs.add_constraint(
            &[(0usize, fe(1))],
            &[(1usize, fem(1, 5))],
            &[(2usize, fe(1))],
            &prime()
        ),
        Err(ZkError::ModulusMismatch)
    );
    assert!(r1cs.constraints.is_empty());
    assert!(r1cs.qap.left.coefficient(0).is_none());
    assert!(r1cs.qap.output.coefficient(2).is_none());
}

#[test]
fn second_constraint_does_not_overwrite_the_first() {
    let mut r1cs = system(&[1, 2, 3, 4, 5, 6]);
    r1cs.add_constraint(&[(0usize, fe(7))], &[(1usize, fe(8))], &[(2usize, fe(9))], &prime())
        .unwrap();
    r1cs.add_constraint(&[(3usize, fe(1))], &[(4usize, fe(2))], &[(5usize, fe(3))], &prime())
        .unwrap();
    assert_eq!(r1cs.constraints.len(), 2);
    assert_eq!(r1cs.qap.left.coefficient(0), Some(&fe(7)));
    assert_eq!(r1cs.qap.left.coefficient(3), Some(&fe(1)));
    assert_eq!(r1cs.qap.right.coefficient(1), Some(&fe(8)));
    assert_eq!(r1cs.qap.right.coefficient(4), Some(&fe(2)));
    assert_eq!(r1cs.qap.output.coefficient(2), Some(&fe(9)));
    assert_eq!(r1cs.qap.output.coefficient(5), Some(&fe(3)));
}

#[test]
fn verify_witness_of_an_empty_list_is_true() {
    let r1cs = system(&[3, 4, 12]);
    assert!(r1cs.verify_witness(&r1cs.generate_witness()));
    assert!(r1cs.verify_witness(&[]));
}

#[test]
fn verify_witness_wants_the_three_sides_equal() {
    let mut r1cs = system(&[2, 3, 6]);
    r1cs.add_constraint(&[(0usize, fe(3))], &[(1usize, fe(2))], &[(2usize, fe(1))], &prime())
        .unwrap();
    assert!(r1cs.verify_witness(&[fe(2), fe(3), fe(6)]));
    assert!(!r1cs.verify_witness(&[fe(2), fe(3), fe(7)]));
    assert!(!r1cs.verify_witness(&[fe(2), fe(4), fe(6)]));
    assert!(!r1cs.verify_witness(&[fe(1), fe(3), fe(6)]));
}

#[test]
fn verify_witness_sums_the_terms_of_a_side() {
    let mut r1cs = system(&[1, 2, 5]);
    r1cs.add_constraint(
        &[(0usize, fe(1)), (1usize, fe(2))],
        &[(2usize, fe(1))],
        &[(0usize, fe(3)), (1usize, fe(1))],
        &prime(),
    )
    .unwrap();
    assert!(r1cs.verify_witness(&[fe(1), fe(2), fe(5)]));
    assert!(!r1cs.verify_witness(&[fe(1), fe(2), fe(6)]));
}

#[test]
fn verify_witness_stops_at_a_failing_constraint_among_many() {
    let mut r1cs = system(&[5, 5, 5, 1]);
    r1cs.add_constraint(&[(0usize, fe(1))], &[(1usize, fe(1))], &[(2usize, fe(1))], &prime())
        .unwrap();
    r1cs.add_constraint(&[(0usize, fe(1))], &[(1usize, fe(1))], &[(3usize, fe(1))], &prime())
        .unwrap();
    assert!(!r1cs.verify_witness(&r1cs.generate_witness()));
    assert!(r1cs.verify_witness(&[fe(5), fe(5), fe(5), fe(5)]));
}

#[test]
fn verify_witness_works_in_the_default_field() {
    let mut r1cs = system(&[0, 0, 0]);
    r1cs.add_constraint(&[(0usize, fe(2))], &[(1usize, fe(1))], &[(2usize, fe(1))], &prime())
        .unwrap();
    // 2 * 500000004 = 1000000008 = 1 modulo the prime
    assert!(r1cs.verify_witness(&[fe(500_000_004), fe(1), fe(1)]));
}

#[test]
fn tampered_variable_fails_the_witness_check() {
    let mut r1cs = system(&[3, 4, 12]);
    r1cs.add_constraint_with_operation(
        &[(0usize, fe(1))],
        &[(1usize, fe(1))],
        &[(2usize, fe(1))],
        &prime(),
        Operation::Mul,
    )
    .unwrap();
    r1cs.variables[2].value = fe(13);
    let witness = r1cs.generate_witness();
    assert_eq!(witness[2], fe(13));
    assert!(!r1cs.verify_witness(&witness));
}

#[test]
fn evaluate_qap_is_zero_on_satisfying_values() {
    let mut r1cs = system(&[3, 4, 12]);
    r1cs.add_constraint(&[(0usize, fe(1))], &[(1usize, fe(1))], &[(2usize, fe(1))], &prime())
        .unwrap();
    assert_eq!(r1cs.evaluate_qap(), Ok(num(0)));
    r1cs.variables[2].value = fe(10);
    assert_eq!(r1cs.evaluate_qap(), Ok(num(2)));
}

#[test]
fn evaluate_qap_rejects_values_of_another_field() {
    let mut r1cs = R1CS::new();
    r1cs.add_variable(fem(3, 11));
    r1cs.add_constraint(&[(0usize, fe(1))], &[], &[], &prime()).unwrap();
    assert_eq!(r1cs.evaluate_qap(), Err(ZkError::ModulusMismatch));
}

#[test]
fn constraint_keeps_the_variable_as_it_stood() {
    let mut r1cs = system(&[3, 4, 12]);
    r1cs.add_constraint(&[(0usize, fe(1))], &[(1usize, fe(1))], &[(2usize, fe(1))], &prime())
        .unwrap();
    r1cs.variables[2].value = fe(99);
    assert_eq!(r1cs.constraints[0].output[0].0.value, fe(12));
}

#[test]
fn constraint_can_be_written_by_hand() {
    let v = Variable { index: 0, value: fe(2) };
    let c = Constraint {
        left: vec![(v.clone(), num(3))],
        right: vec![(v.clone(), num(3))],
        output: vec![(v, num(3))],
        operation: Operation::Hash,
    };
    let r1cs = R1CS { variables: vec![], constraints: vec![c], qap: zk_circuit::qap::QAP::new() };
    assert!(!r1cs.verify_witness(&[fe(1)]));
}

#[test]
fn verify_witness_rejects_a_hash_constraint() {
    let mut r1cs = system(&[5, 5, 5]);
    r1cs.add_constraint_with_operation(
        &[(0usize, fe(1))],
        &[(1usize, fe(1))],
        &[(2usize, fe(1))],
        &prime(),
        Operation::Add,
    )
    .unwrap();
    assert!(r1cs.verify_witness(&r1cs.generate_witness()));
    r1cs.constraints[0].operation = Operation::Hash;
    assert!(!r1cs.verify_witness(&r1cs.generate_witness()));
}

#[test]
fn well_formedness_can_be_checked() {
    let mut r1cs = system(&[3, 4, 12]);
    r1cs.add_constraint(&[(0usize, fe(1))], &[(1usize, fe(1))], &[(2usize, fe(1))], &prime())
        .unwrap();
    assert!(r1cs.is_well_formed());
    assert!(r1cs.constraints_within(3));
    assert!(!r1cs.constraints_within(2));
    r1cs.qap.left.add_term(3, fe(1));
    assert!(!r1cs.is_well_formed());
    let mut r1cs = system(&[3, 4]);
    r1cs.variables[1].index = 5;
    assert!(!r1cs.is_well_formed());
    let mut r1cs = system(&[3, 4, 12]);
    r1cs.add_constraint(&[(0usize, fe(1))], &[(1usize, fe(1))], &[(2usize, fe(1))], &prime())
        .unwrap();
    r1cs.variables.pop();
    assert!(!r1cs.is_well_formed());
}

#[test]
fn verify_witness_works_in_the_field_of_the_witness() {
    let mut r1cs = R1CS::new();
    for v in [4, 4, 1] {
        r1cs.add_variable(fem(v, 7));
    }
    r1cs.add_constraint(
        &[(0usize, fem(1, 7)), (1usize, fem(1, 7))],
        &[(2usize, fem(1, 7))],
        &[(2usize, fem(1, 7))],
        &num(7),
    )
    .unwrap();
    assert!(r1cs.verify_witness(&r1cs.generate_witness()));
    assert!(!r1cs.verify_witness(&[fem(4, 7), fem(5, 7), fem(1, 7)]));
}

#[test]
fn verify_witness_rejects_values_of_two_fields() {
    let mut r1cs = system(&[0, 0, 0]);
    r1cs.add_constraint(&[(0usize, fe(1))], &[(1usize, fe(1))], &[(2usize, fe(1))], &prime())
        .unwrap();
    assert!(r1cs.verify_witness(&[fem(0, 7), fem(0, 7), fem(0, 7)]));
    assert!(!r1cs.verify_witness(&[fem(0, 7), fem(0, 7), fem(0, 11)]));
    assert!(!r1cs.verify_witness(&[fe(0), fem(0, 7), fem(0, 7)]));
}

#[test]
fn constraint_without_terms_is_satisfied() {
    let mut r1cs = system(&[1]);
    r1cs.add_constraint_with_operation(&[], &[], &[], &prime(), Operation::Add).unwrap();
    assert!(r1cs.verify_witness(&[fem(3, 7)]));
    r1cs.add_constraint_with_operation(&[], &[(0usize, fe(1))], &[], &prime(), Operation::Add)
        .unwrap();
    assert!(!r1cs.verify_witness(&[fem(3, 7)]));
    assert!(r1cs.verify_witness(&[fem(0, 7)]));
}

#[test]
fn evaluate_qap_in_another_field() {
    let mut r1cs = R1CS::new();
    for v in [5, 7, 9] {
        r1cs.add_variable(fem(v, 13));
    }
    r1cs.add_constraint(
        &[(0usize, fem(1, 13))],
        &[(1usize, fem(1, 13))],
        &[(2usize, fem(1, 13))],
        &num(13),
    )
    .unwrap();
    assert_eq!(r1cs.evaluate_qap(), Ok(num(0)));
}
