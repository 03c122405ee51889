use num_bigint::BigInt;
use zk_circuit::error::ZkError;
use zk_circuit::field::FieldElement;
use zk_circuit::integer::Integer;

fn num(x: i64) -> Integer {
    Integer::from_signed_bytes_le(x.to_le_bytes().to_vec())
}

fn big(x: &Integer) -> BigInt {
    BigInt::from_signed_bytes_le(&x.to_signed_bytes_le())
}

fn fe(x: i64) -> FieldElement {
    FieldElement::new(num(x))
}

fn fem(x: i64, m: i64) -> FieldElement {
    FieldElement::with_modulus(num(x), num(m)).unwrap()
}

#[test]
fn new_reduces_into_the_default_field() {
    let a = fe(1_000_000_010);
    assert_eq!(big(&a.get_value()), BigInt::from(3));
    assert_eq!(big(a.get_modulus()), BigInt::from(1_000_000_007));
}

#[test]
fn new_reduces_a_negative_value_into_range() {
    let a = fe(-1);
    assert_eq!(big(&a.get_value()), BigInt::from(1_000_000_006));
}

#[test]
fn add_wraps_around_the_modulus() {
    let a = fe(1_000_000_006);
    let b = fe(5);
    assert_eq!(a.add(&b), Ok(fe(4)));
}

#[test]
fn sub_wraps_below_zero() {
    assert_eq!(fe(3).sub(&fe(5)), Ok(fe(1_000_000_005)));
}

#[test]
fn mul_reduces_the_product() {
    let a = fe(100_000);
    assert_eq!(a.mul(&a), Ok(fe(999_999_937)));
}

#[test]
fn negate_of_zero_is_zero() {
    assert_eq!(fe(0).negate(), fe(0));
    assert_eq!(fe(5).negate(), fe(1_000_000_002));
}

#[test]
fn add_of_negation_is_zero() {
    let a = fe(123_456_789);
    assert_eq!(a.add(&a.negate()), Ok(fe(0)));
}

#[test]
fn inverse_times_element_is_one() {
    let a = fe(3);
    let i = a.inv().unwrap();
    assert_eq!(i, fe(333_333_336));
    assert_eq!(a.mul(&i), Ok(fe(1)));
}

#[test]
fn zero_has_no_inverse() {
    assert_eq!(fe(0).inv(), Err(ZkError::NonInvertibleElement));
}

#[test]
fn shared_factor_has_no_inverse() {
    assert_eq!(fem(4, 6).inv(), Err(ZkError::NonInvertibleElement));
    assert_eq!(fem(5, 6).inv(), Ok(fem(5, 6)));
}

#[test]
fn different_moduli_do_not_mix() {
    let a = fem(1, 5);
    let b = fem(1, 7);
    assert_eq!(a.add(&b), Err(ZkError::ModulusMismatch));
    assert_eq!(a.sub(&b), Err(ZkError::ModulusMismatch));
    assert_eq!(a.mul(&b), Err(ZkError::ModulusMismatch));
    assert_ne!(a, b);
}

#[test]
fn modulus_must_be_positive() {
    assert!(FieldElement::with_modulus(num(1), num(0)).is_none());
    assert!(FieldElement::with_modulus(num(1), num(-7)).is_none());
    assert!(FieldElement::with_modulus(num(1), num(1)).is_some());
}

#[test]
fn extended_gcd_gives_bezout_coefficients() {
    let (g, x, y) = FieldElement::extended_gcd(&num(240), &num(46));
    assert_eq!(big(&g), BigInt::from(2));
    assert_eq!(BigInt::from(240) * big(&x) + BigInt::from(46) * big(&y), BigInt::from(2));
    let (g, x, y) = FieldElement::extended_gcd(&num(-240), &num(46));
    assert_eq!(big(&g), BigInt::from(2));
    assert_eq!(BigInt::from(-240) * big(&x) + BigInt::from(46) * big(&y), BigInt::from(2));
    let (g, _, _) = FieldElement::extended_gcd(&num(0), &num(0));
    assert_eq!(big(&g), BigInt::from(0));
}

#[test]
fn scale_multiplies_by_an_integer() {
    assert_eq!(fe(7).scale(&num(-1)), fe(1_000_000_000));
    assert_eq!(fe(7).scale(&num(3)), fe(21));
}

#[test]
fn integers_compare_by_value() {
    let a = Integer::from_signed_bytes_le(vec![5]);
    let b = Integer::from_signed_bytes_le(vec![5, 0, 0]);
    assert_eq!(a, b);
    assert_ne!(a, num(6));
    assert!(Integer::zero().is_zero());
    assert!(num(-3).is_negative());
    assert!(!num(3).is_negative());
    assert_eq!(Integer::default_modulus(), num(1_000_000_007));
    assert_eq!(Integer::one(), num(1));
}

#[test]
fn integers_from_machine_integers() {
    assert_eq!(big(&Integer::from_u64(0)), BigInt::from(0));
    assert_eq!(big(&Integer::from_u64(255)), BigInt::from(255));
    assert_eq!(big(&Integer::from_u64(u64::MAX)), BigInt::from(u64::MAX));
    assert_eq!(
        big(&Integer::from_u64(0x0123_4567_89ab_cdef)),
        BigInt::from(0x0123_4567_89ab_cdefu64)
    );
    assert_eq!(big(&Integer::from_i64(-1)), BigInt::from(-1));
    assert_eq!(big(&Integer::from_i64(i64::MIN)), BigInt::from(i64::MIN));
    assert_eq!(big(&Integer::from_i64(i64::MAX)), BigInt::from(i64::MAX));
    assert_eq!(Integer::from_i64(-1_000_000), num(-1_000_000));
}

#[test]
fn integers_round_trip_through_bytes() {
    let huge = BigInt::parse_bytes(b"-123456789012345678901234567890123456789", 10).unwrap();
    let held = Integer::from_signed_bytes_le(huge.to_signed_bytes_le());
    assert_eq!(big(&held), huge);
    assert!(held.is_negative());
    assert_eq!(big(&Integer::from_signed_bytes_le(vec![])), BigInt::from(0));
    assert_eq!(big(&Integer::from_signed_bytes_le(vec![0x80])), BigInt::from(-128));
    assert_eq!(big(&Integer::from_signed_bytes_le(vec![0x00, 0x80])), BigInt::from(-32768));
    assert_eq!(big(&Integer::from_signed_bytes_le(vec![0xff, 0x00])), BigInt::from(255));
}

#[test]
fn arithmetic_goes_beyond_machine_words() {
    let big_modulus = BigInt::parse_bytes(b"340282366920938463463374607431768211507", 10).unwrap();
    let m = Integer::from_signed_bytes_le(big_modulus.to_signed_bytes_le());
    let a = FieldElement::with_modulus(Integer::from_u64(u64::MAX), m.clone()).unwrap();
    let square = a.mul(&a).unwrap();
    let expected = (BigInt::from(u64::MAX) * BigInt::from(u64::MAX)) % &big_modulus;
    assert_eq!(big(&square.get_value()), expected);
    let inverse = a.inv().unwrap();
    let product = a.mul(&inverse).unwrap();
    assert_eq!(big(&product.get_value()), BigInt::from(1));
}

#[test]
fn add_and_mul_are_commutative_and_associative() {
    let values = [0i64, 1, 2, 999_999_999, 1_000_000_006, 123_456_789, 500_000_004];
    for a in values {
        for b in values {
            assert_eq!(fe(a).add(&fe(b)), fe(b).add(&fe(a)));
            assert_eq!(fe(a).mul(&fe(b)), fe(b).mul(&fe(a)));
            for c in values {
                let left = fe(a).add(&fe(b)).unwrap().add(&fe(c));
                let right = fe(a).add(&fe(b).add(&fe(c)).unwrap());
                assert_eq!(left, right);
                let left = fe(a).mul(&fe(b)).unwrap().mul(&fe(c));
                let right = fe(a).mul(&fe(b).mul(&fe(c)).unwrap());
                assert_eq!(left, right);
            }
        }
    }
}

#[test]
fn every_unit_of_a_small_ring_has_its_inverse() {
    for m in [1i64, 2, 7, 12, 30] {
        for a in 0..m {
            let element = fem(a, m);
            let shares_factor = (2..=m).any(|d| a % d == 0 && m % d == 0);
            match element.inv() {
                Ok(inverse) => {
                    assert!(!shares_factor);
                    assert_eq!(element.mul(&inverse), Ok(fem(1, m)));
                }
                Err(e) => {
                    assert!(shares_factor);
                    assert_eq!(e, ZkError::NonInvertibleElement);
                }
            }
        }
    }
}

#[test]
fn same_field_compares_moduli() {
    assert!(fe(1).same_field(&fe(2)));
    assert!(!fe(1).same_field(&fem(1, 5)));
}

#[test]
fn from_residue_takes_residues_only() {
    assert_eq!(FieldElement::from_residue(num(5), num(7)), Some(fem(5, 7)));
    assert_eq!(FieldElement::from_residue(num(0), num(1)), Some(fem(0, 1)));
    assert!(FieldElement::from_residue(num(7), num(7)).is_none());
    assert!(FieldElement::from_residue(num(-1), num(7)).is_none());
    assert!(FieldElement::from_residue(num(0), num(0)).is_none());
    assert!(FieldElement::from_residue(num(0), num(-3)).is_none());
}

#[test]
fn of_same_field_reduces_into_the_field() {
    assert_eq!(fem(1, 7).of_same_field(&num(23)), fem(2, 7));
    assert_eq!(fe(1).of_same_field(&num(-1)), fe(1_000_000_006));
}
