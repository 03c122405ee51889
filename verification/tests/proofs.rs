use zk_circuit::error::ZkError;
use zk_circuit::field::FieldElement;
use zk_circuit::integer::Integer;
use zk_circuit::proofs::Proof;
use zk_circuit::r1cs::{Operation, R1CS};

fn num(x: i64) -> Integer {
    Integer::from_signed_bytes_le(x.to_le_bytes().to_vec())
}

fn fe(x: i64) -> FieldElement {
    FieldElement::new(num(x))
}

fn prime() -> Integer {
    num(1_000_000_007)
}

fn system(values: &[i64], gates: &[(usize, usize, usize, Operation)]) -> R1CS {
    let mut r1cs = R1CS::new();
    for v in values {
        r1cs.add_variable(fe(*v));
    }
    for (a, b, out, operation) in gates {
        r1cs.add_constraint_with_operation(
            &[(*a, fe(1))],
            &[(*b, fe(1))],
            &[(*out, fe(1))],
            &prime(),
            *operation,
        )
        .unwrap();
    }
    r1cs
}

#[test]
fn generate_proof_stores_witness_and_sum() {
    let r1cs = system(&[3, 4, 12], &[]);
    let proof = Proof::generate_proof(&r1cs, &r1cs.generate_witness());
    assert_eq!(proof.witness, vec![num(3), num(4), num(12)]);
    assert_eq!(proof.commitment, num(19));
}

#[test]
fn commitment_is_reduced_by_the_prime() {
    let r1cs = R1CS::new();
    let proof = Proof::generate_proof(&r1cs, &vec![fe(1_000_000_006), fe(1_000_000_006), fe(5)]);
    assert_eq!(proof.commitment, num(3));
}

#[test]
fn commitment_of_an_empty_witness_is_zero() {
    let r1cs = R1CS::new();
    let proof = r1cs.generate_proof(&vec![]);
    assert!(proof.witness.is_empty());
    assert_eq!(proof.commitment, num(0));
    assert_eq!(Proof::verify_proof(&proof, &r1cs), Ok(true));
}

#[test]
fn proof_round_trip_verifies() {
    let r1cs = system(&[3, 4, 12], &[(0, 1, 2, Operation::Mul)]);
    let proof = r1cs.generate_proof(&r1cs.generate_witness());
    assert_eq!(Proof::verify_proof(&proof, &r1cs), Ok(true));
}

#[test]
fn mutated_witness_byte_fails_the_commitment() {
    let r1cs = system(&[3, 4, 12], &[(0, 1, 2, Operation::Mul)]);
    let mut proof = r1cs.generate_proof(&r1cs.generate_witness());
    let mut bytes = proof.witness[1].to_signed_bytes_le();
    bytes[0] ^= 0x10;
    proof.witness[1] = Integer::from_signed_bytes_le(bytes);
    assert_eq!(Proof::verify_proof(&proof, &r1cs), Ok(false));
}

#[test]
fn wrong_commitment_fails() {
    let r1cs = system(&[3, 4, 12], &[(0, 1, 2, Operation::Mul)]);
    let mut proof = r1cs.generate_proof(&r1cs.generate_witness());
    proof.commitment = num(20);
    assert_eq!(Proof::verify_proof(&proof, &r1cs), Ok(false));
}

#[test]
fn witnesses_of_one_sum_share_a_commitment() {
    let r1cs = system(&[3, 4, 12], &[(0, 1, 2, Operation::Mul)]);
    let mut proof = r1cs.generate_proof(&r1cs.generate_witness());
    proof.witness = vec![num(12), num(4), num(3)];
    assert_eq!(Proof::verify_proof(&proof, &r1cs), Ok(true));
    proof.witness = vec![num(19 + 1_000_000_007)];
    assert_eq!(Proof::verify_proof(&proof, &r1cs), Ok(true));
}

#[test]
fn sum_constraint_wants_left_plus_right() {
    let good = system(&[3, 4, 7], &[(0, 1, 2, Operation::Add)]);
    let proof = good.generate_proof(&good.generate_witness());
    assert_eq!(Proof::verify_proof(&proof, &good), Ok(true));
    let bad = system(&[3, 4, 12], &[(0, 1, 2, Operation::Add)]);
    let proof = bad.generate_proof(&bad.generate_witness());
    assert_eq!(Proof::verify_proof(&proof, &bad), Ok(false));
}

#[test]
fn product_constraint_wants_left_times_right() {
    let bad = system(&[3, 4, 7], &[(0, 1, 2, Operation::Mul)]);
    let proof = bad.generate_proof(&bad.generate_witness());
    assert_eq!(Proof::verify_proof(&proof, &bad), Ok(false));
}

#[test]
fn sides_are_compared_as_integers() {
    // 100000 * 100000 is 999999937 in the field, but the check multiplies
    // the stored residues as plain integers.
    let r1cs = system(&[100_000, 100_000, 999_999_937], &[(0, 1, 2, Operation::Mul)]);
    let proof = r1cs.generate_proof(&r1cs.generate_witness());
    assert_eq!(Proof::verify_proof(&proof, &r1cs), Ok(false));
}

#[test]
fn hash_constraint_is_not_supported() {
    let r1cs = system(&[3, 4, 12], &[(0, 1, 2, Operation::Hash)]);
    let proof = r1cs.generate_proof(&r1cs.generate_witness());
    assert_eq!(Proof::verify_proof(&proof, &r1cs), Err(ZkError::UnsupportedOperation));
}

#[test]
fn first_constraint_that_fails_decides() {
    let r1cs = system(
        &[3, 4, 12],
        &[(0, 1, 2, Operation::Add), (0, 1, 2, Operation::Hash)],
    );
    let proof = r1cs.generate_proof(&r1cs.generate_witness());
    assert_eq!(Proof::verify_proof(&proof, &r1cs), Ok(false));
    let r1cs = system(
        &[3, 4, 12],
        &[(0, 1, 2, Operation::Mul), (0, 1, 2, Operation::Hash), (0, 1, 2, Operation::Add)],
    );
    let proof = r1cs.generate_proof(&r1cs.generate_witness());
    assert_eq!(Proof::verify_proof(&proof, &r1cs), Err(ZkError::UnsupportedOperation));
}

#[test]
fn commitment_is_checked_before_the_constraints() {
    let r1cs = system(&[3, 4, 12], &[(0, 1, 2, Operation::Hash)]);
    let mut proof = r1cs.generate_proof(&r1cs.generate_witness());
    proof.commitment = num(0);
    assert_eq!(Proof::verify_proof(&proof, &r1cs), Ok(false));
}

#[test]
fn constraints_use_the_stored_values() {
    let mut r1cs = system(&[3, 4, 12], &[(0, 1, 2, Operation::Mul)]);
    r1cs.variables[2].value = fe(13);
    let proof = r1cs.generate_proof(&r1cs.generate_witness());
    assert_eq!(proof.witness[2], num(13));
    assert_eq!(Proof::verify_proof(&proof, &r1cs), Ok(true));
}

#[test]
fn coefficients_weigh_the_stored_values() {
    let mut r1cs = R1CS::new();
    for v in [2, 3, 30] {
        r1cs.add_variable(fe(v));
    }
    r1cs.add_constraint_with_operation(
        &[(0usize, fe(2)), (1usize, fe(2))],
        &[(1usize, fe(1))],
        &[(2usize, fe(1))],
        &prime(),
        Operation::Mul,
    )
    .unwrap();
    let proof = r1cs.generate_proof(&r1cs.generate_witness());
    assert_eq!(Proof::verify_proof(&proof, &r1cs), Ok(true));
}

#[test]
fn require_valid_reports_a_failed_check_as_an_error() {
    let good = system(&[3, 4, 12], &[(0, 1, 2, Operation::Mul)]);
    let proof = good.generate_proof(&good.generate_witness());
    assert_eq!(Proof::require_valid(&proof, &good), Ok(()));
    let bad = system(&[3, 4, 13], &[(0, 1, 2, Operation::Mul)]);
    let proof = bad.generate_proof(&bad.generate_witness());
    assert_eq!(Proof::require_valid(&proof, &bad), Err(ZkError::ConstraintUnsatisfied));
    let reserved = system(&[3, 4, 12], &[(0, 1, 2, Operation::Hash)]);
    let proof = reserved.generate_proof(&reserved.generate_witness());
    assert_eq!(Proof::require_valid(&proof, &reserved), Err(ZkError::UnsupportedOperation));
}

#[test]
fn stored_products_stay_in_the_field_of_the_variable() {
    let m = num(10_000_000_000);
    let v = |x: i64| FieldElement::with_modulus(num(x), num(10_000_000_000)).unwrap();
    let mut r1cs = R1CS::new();
    for x in [3_000_000_000, 2, 6_000_000_000] {
        r1cs.add_variable(v(x));
    }
    r1cs.add_constraint(&[(0usize, v(1))], &[(1usize, v(1))], &[(2usize, v(1))], &m).unwrap();
    assert_eq!(r1cs.constraints[0].operation, Operation::Mul);
    let proof = r1cs.generate_proof(&r1cs.generate_witness());
    assert_eq!(Proof::verify_proof(&proof, &r1cs), Ok(true));
}
