//! Elements of the integers modulo `m`.
//!
//! Every element carries its modulus. An operation on two elements asks that
//! both carry the same one, and its result is always the residue in
//! `[0, m)`.

use crate::error::ZkError;
use crate::integer::{Integer, DEFAULT_MODULUS};
use crate::number_theory::{
    abs, common_divisor, coprime, divides, is_gcd, lemma_bezout_gcd, lemma_bezout_inverse,
    lemma_bezout_step, lemma_divides_combination, lemma_divides_multiple, lemma_gcd_unique,
    lemma_trunc_rem_bound, lemma_trunc_rem_residue,
};
use vstd::arithmetic::div_mod::{
    lemma_add_mod_noop_right, lemma_mod_bound, lemma_mod_self_0, lemma_mul_mod_noop_left,
    lemma_mul_mod_noop_right, lemma_small_mod,
};
use vstd::prelude::*;

verus! {

/// What a field element stands for: a residue and the modulus of its field.
pub struct FieldModel {
    pub value: int,
    pub modulus: int,
}

impl FieldModel {
    /// The residue lies in `[0, modulus)`.
    pub open spec fn wf(self) -> bool {
        0 <= self.value < self.modulus
    }
}

/// The element of the integers modulo `m` that `x` falls on.
pub open spec fn residue(x: int, m: int) -> FieldModel {
    FieldModel { value: x % m, modulus: m }
}

/// Sum of two elements of one field.
pub open spec fn field_add(a: FieldModel, b: FieldModel) -> FieldModel {
    residue(a.value + b.value, a.modulus)
}

/// Difference of two elements of one field.
pub open spec fn field_sub(a: FieldModel, b: FieldModel) -> FieldModel {
    residue(a.value - b.value, a.modulus)
}

/// Product of two elements of one field.
pub open spec fn field_mul(a: FieldModel, b: FieldModel) -> FieldModel {
    residue(a.value * b.value, a.modulus)
}

/// The element that added to `a` gives zero.
pub open spec fn field_neg(a: FieldModel) -> FieldModel {
    residue(a.modulus - a.value, a.modulus)
}

/// The element `a` taken `k` times, for any integer `k`.
pub open spec fn field_scale(a: FieldModel, k: int) -> FieldModel {
    residue(a.value * k, a.modulus)
}

/// `e` is the inverse of `a`: an element of the same field whose product
/// with `a` is one.
pub open spec fn is_inverse(a: FieldModel, e: FieldModel) -> bool {
    &&& e.modulus == a.modulus
    &&& e.wf()
    &&& (a.value * e.value) % a.modulus == 1int % a.modulus
}

/// What a sequence of field elements stands for, element by element.
pub open spec fn models(elements: Seq<FieldElement>) -> Seq<FieldModel> {
    elements.map_values(|e: FieldElement| e@)
}

/// An element of the integers modulo `m`.
#[derive(Debug)]
pub struct FieldElement {
    value: Integer,
    modulus: Integer,
}

impl View for FieldElement {
    type V = FieldModel;

    closed spec fn view(&self) -> FieldModel {
        FieldModel { value: self.value@, modulus: self.modulus@ }
    }
}

impl Clone for FieldElement {
    fn clone(&self) -> (r: Self)
        ensures
            r@ == self@,
    {
        proof {
            use_type_invariant(self);
        }
        FieldElement { value: self.value.clone(), modulus: self.modulus.clone() }
    }
}

/// The residue of `value` in `[0, modulus)`.
pub(crate) fn reduce(value: &Integer, modulus: &Integer) -> (r: Integer)
    requires
        modulus@ > 0,
    ensures
        r@ == value@ % modulus@,
{
    let r = value.remainder(modulus);
    proof {
        lemma_trunc_rem_residue(value@, modulus@);
    }
    if r.is_negative() {
        r.plus(modulus)
    } else {
        r
    }
}

impl FieldElement {
    /// The residue lies in `[0, modulus)`. This holds of every element.
    #[verifier::type_invariant]
    pub open spec fn well_formed(&self) -> bool {
        self@.wf()
    }

    /// The element of the default field, of modulus 1,000,000,007, that
    /// `value` falls on.
    pub fn new(value: Integer) -> (r: FieldElement)
        ensures
            r@ == residue(value@, DEFAULT_MODULUS as int),
    {
        let modulus = Integer::default_modulus();
        let reduced = reduce(&value, &modulus);
        proof {
            lemma_mod_bound(value@, modulus@);
        }
        FieldElement { value: reduced, modulus }
    }

    /// The element of the integers modulo `modulus` that `value` falls on.
    /// There is none for a modulus that is not positive.
    pub fn with_modulus(value: Integer, modulus: Integer) -> (r: Option<FieldElement>)
        ensures
            r is Some <==> modulus@ > 0,
            r is Some ==> r->0@ == residue(value@, modulus@),
    {
        let zero = Integer::zero();
        if zero.less_than(&modulus) {
            let reduced = reduce(&value, &modulus);
            proof {
                lemma_mod_bound(value@, modulus@);
            }
            Some(FieldElement { value: reduced, modulus })
        } else {
            None
        }
    }

    /// The element of residue `value` in the integers modulo `modulus`,
    /// where `value` is such a residue: nothing is reduced. There is none
    /// for a value outside `[0, modulus)`.
    pub fn from_residue(value: Integer, modulus: Integer) -> (r: Option<FieldElement>)
        ensures
            r is Some <==> 0 <= value@ < modulus@,
            r is Some ==> r->0@ == (FieldModel { value: value@, modulus: modulus@ }),
    {
        if value.is_negative() || !value.less_than(&modulus) {
            None
        } else {
            Some(FieldElement { value, modulus })
        }
    }

    /// The element of this element's field that `value` falls on.
    pub fn of_same_field(&self, value: &Integer) -> (r: FieldElement)
        ensures
            r@ == residue(value@, self@.modulus),
    {
        proof {
            use_type_invariant(self);
        }
        let reduced = reduce(value, &self.modulus);
        proof {
            lemma_mod_bound(value@, self.modulus@);
        }
        FieldElement { value: reduced, modulus: self.modulus.clone() }
    }

    /// The residue, in `[0, modulus)`.
    pub fn get_value(&self) -> (r: Integer)
        ensures
            r@ == self@.value,
            self@.wf(),
    {
        proof {
            use_type_invariant(self);
        }
        self.value.clone()
    }

    /// The modulus, which is positive.
    pub fn get_modulus(&self) -> (r: &Integer)
        ensures
            r@ == self@.modulus,
            self@.wf(),
    {
        proof {
            use_type_invariant(self);
        }
        &self.modulus
    }

    /// Whether both elements belong to one field.
    pub fn same_field(&self, other: &FieldElement) -> (r: bool)
        ensures
            r == (self@.modulus == other@.modulus),
    {
        self.modulus.same_value(&other.modulus)
    }

    /// The sum of two elements of one field.
    pub fn add(&self, other: &FieldElement) -> (r: Result<FieldElement, ZkError>)
        ensures
            match r {
                Ok(e) => self@.modulus == other@.modulus && e@ == field_add(self@, other@),
                Err(e) => self@.modulus != other@.modulus && e == ZkError::ModulusMismatch,
            },
    {
        proof {
            use_type_invariant(self);
        }
        if !self.same_field(other) {
            return Err(ZkError::ModulusMismatch);
        }
        let sum = self.value.plus(&other.value);
        let reduced = reduce(&sum, &self.modulus);
        proof {
            lemma_mod_bound(sum@, self.modulus@);
        }
        Ok(FieldElement { value: reduced, modulus: self.modulus.clone() })
    }

    /// The difference of two elements of one field.
    pub fn sub(&self, other: &FieldElement) -> (r: Result<FieldElement, ZkError>)
        ensures
            match r {
                Ok(e) => self@.modulus == other@.modulus && e@ == field_sub(self@, other@),
                Err(e) => self@.modulus != other@.modulus && e == ZkError::ModulusMismatch,
            },
    {
        proof {
            use_type_invariant(self);
        }
        if !self.same_field(other) {
            return Err(ZkError::ModulusMismatch);
        }
        let difference = self.value.minus(&other.value);
        let reduced = reduce(&difference, &self.modulus);
        proof {
            lemma_mod_bound(difference@, self.modulus@);
        }
        Ok(FieldElement { value: reduced, modulus: self.modulus.clone() })
    }

    /// The product of two elements of one field.
    pub fn mul(&self, other: &FieldElement) -> (r: Result<FieldElement, ZkError>)
        ensures
            match r {
                Ok(e) => self@.modulus == other@.modulus && e@ == field_mul(self@, other@),
                Err(e) => self@.modulus != other@.modulus && e == ZkError::ModulusMismatch,
            },
    {
        proof {
            use_type_invariant(self);
        }
        if !self.same_field(other) {
            return Err(ZkError::ModulusMismatch);
        }
        let product = self.value.times(&other.value);
        let reduced = reduce(&product, &self.modulus);
        proof {
            lemma_mod_bound(product@, self.modulus@);
        }
        Ok(FieldElement { value: reduced, modulus: self.modulus.clone() })
    }

    /// The element taken `factor` times, for any integer `factor`.
    pub fn scale(&self, factor: &Integer) -> (r: FieldElement)
        ensures
            r@ == field_scale(self@, factor@),
    {
        proof {
            use_type_invariant(self);
        }
        let product = self.value.times(factor);
        let reduced = reduce(&product, &self.modulus);
        proof {
            lemma_mod_bound(product@, self.modulus@);
        }
        FieldElement { value: reduced, modulus: self.modulus.clone() }
    }

    /// The element that added to this one gives zero.
    pub fn negate(&self) -> (r: FieldElement)
        ensures
            r@ == field_neg(self@),
    {
        proof {
            use_type_invariant(self);
        }
        let difference = self.modulus.minus(&self.value);
        let reduced = reduce(&difference, &self.modulus);
        proof {
            lemma_mod_bound(difference@, self.modulus@);
        }
        FieldElement { value: reduced, modulus: self.modulus.clone() }
    }
}

impl FieldElement {
    /// The greatest common divisor of `a` and `b`, which is not negative,
    /// with two coefficients that combine `a` and `b` to it. The remainders
    /// are taken step by step in a loop, so the depth of the stack does not
    /// grow with the size of the numbers.
    pub fn extended_gcd(a: &Integer, b: &Integer) -> (r: (Integer, Integer, Integer))
        ensures
            is_gcd(r.0@, a@, b@),
            r.0@ == a@ * r.1@ + b@ * r.2@,
    {
        let mut old_r = a.clone();
        let mut r = b.clone();
        let mut old_s = Integer::one();
        let mut s = Integer::zero();
        let mut old_t = Integer::zero();
        let mut t = Integer::one();
        proof {
            assert(a@ == a@ * 1 + b@ * 0) by (nonlinear_arith);
            assert(b@ == a@ * 0 + b@ * 1) by (nonlinear_arith);
        }
        while !r.is_zero()
            invariant
                old_r@ == a@ * old_s@ + b@ * old_t@,
                r@ == a@ * s@ + b@ * t@,
                forall|d: int| #[trigger]
                    common_divisor(d, old_r@, r@) ==> common_divisor(d, a@, b@),
            decreases abs(r@),
        {
            let q = old_r.quotient(&r);
            let new_r = old_r.remainder(&r);
            let new_s = old_s.minus(&q.times(&s));
            let new_t = old_t.minus(&q.times(&t));
            proof {
                lemma_trunc_rem_bound(old_r@, r@);
                lemma_bezout_step(a@, b@, old_r@, old_s@, old_t@, r@, s@, t@, q@);
                assert forall|d: int| #[trigger]
                    common_divisor(d, r@, new_r@) implies common_divisor(d, a@, b@) by {
                    lemma_divides_combination(d, new_r@, r@, 1, q@);
                    assert(1 * new_r@ + q@ * r@ == old_r@) by (nonlinear_arith)
                        requires
                            new_r@ == old_r@ - r@ * q@,
                    ;
                    assert(common_divisor(d, old_r@, r@));
                }
            }
            old_r = r;
            r = new_r;
            old_s = s;
            s = new_s;
            old_t = t;
            t = new_t;
        }
        proof {
            lemma_divides_multiple(old_r@, 1);
            assert(1 * old_r@ == old_r@);
            assert(common_divisor(old_r@, old_r@, r@));
        }
        if old_r.is_negative() {
            let zero = Integer::zero();
            let g = zero.minus(&old_r);
            let x = zero.minus(&old_s);
            let y = zero.minus(&old_t);
            proof {
                assert(g@ == x@ * a@ + y@ * b@) by (nonlinear_arith)
                    requires
                        g@ == -old_r@,
                        x@ == -old_s@,
                        y@ == -old_t@,
                        old_r@ == a@ * old_s@ + b@ * old_t@,
                ;
                assert(g@ == a@ * x@ + b@ * y@) by (nonlinear_arith)
                    requires
                        g@ == x@ * a@ + y@ * b@,
                ;
                assert(abs(g@) == abs(old_r@));
                lemma_bezout_gcd(g@, a@, b@, x@, y@);
            }
            (g, x, y)
        } else {
            proof {
                assert(old_r@ == old_s@ * a@ + old_t@ * b@) by (nonlinear_arith)
                    requires
                        old_r@ == a@ * old_s@ + b@ * old_t@,
                ;
                lemma_bezout_gcd(old_r@, a@, b@, old_s@, old_t@);
            }
            (old_r, old_s, old_t)
        }
    }

    /// The inverse of the element, which exists when the residue and the
    /// modulus have no common factor, and only then: zero has none in a field
    /// of more than one element.
    pub fn inv(&self) -> (r: Result<FieldElement, ZkError>)
        ensures
            match r {
                Ok(e) => coprime(self@.value, self@.modulus) && is_inverse(self@, e@),
                Err(e) => !coprime(self@.value, self@.modulus) && e
                    == ZkError::NonInvertibleElement,
            },
    {
        proof {
            use_type_invariant(self);
        }
        let (g, x, y) = FieldElement::extended_gcd(&self.value, &self.modulus);
        let one = Integer::one();
        if !g.same_value(&one) {
            proof {
                if coprime(self@.value, self@.modulus) {
                    lemma_gcd_unique(g@, 1, self@.value, self@.modulus);
                }
            }
            return Err(ZkError::NonInvertibleElement);
        }
        let reduced = reduce(&x, &self.modulus);
        proof {
            lemma_mod_bound(x@, self.modulus@);
            lemma_bezout_inverse(self.value@, self.modulus@, x@, y@);
        }
        Ok(FieldElement { value: reduced, modulus: self.modulus.clone() })
    }
}

/// A field to compute in: the integers modulo a positive modulus. A value of
/// this type is handed to what builds elements, so that the modulus is chosen
/// once, by the caller.
#[derive(Debug)]
pub struct FieldContext {
    modulus: Integer,
}

impl Clone for FieldContext {
    fn clone(&self) -> (r: Self)
        ensures
            r.modulus() == self.modulus(),
    {
        proof {
            use_type_invariant(self);
        }
        FieldContext { modulus: self.modulus.clone() }
    }
}

impl FieldContext {
    /// The modulus of the field.
    pub closed spec fn modulus(&self) -> int {
        self.modulus@
    }

    /// The modulus is positive. This holds of every field.
    #[verifier::type_invariant]
    pub open spec fn well_formed(&self) -> bool {
        self.modulus() > 0
    }

    /// The integers modulo `modulus`. There is no such field for a modulus
    /// that is not positive.
    pub fn new(modulus: Integer) -> (r: Option<FieldContext>)
        ensures
            r is Some <==> modulus@ > 0,
            r is Some ==> r->0.modulus() == modulus@,
    {
        if Integer::zero().less_than(&modulus) {
            Some(FieldContext { modulus })
        } else {
            None
        }
    }

    /// The default field, of modulus 1,000,000,007.
    pub fn default_field() -> (r: FieldContext)
        ensures
            r.modulus() == DEFAULT_MODULUS,
    {
        FieldContext { modulus: Integer::default_modulus() }
    }

    /// The modulus, which is positive.
    pub fn get_modulus(&self) -> (r: &Integer)
        ensures
            r@ == self.modulus(),
            r@ > 0,
    {
        proof {
            use_type_invariant(self);
        }
        &self.modulus
    }

    /// The element of this field that `value` falls on.
    pub fn element(&self, value: Integer) -> (r: FieldElement)
        ensures
            r@ == residue(value@, self.modulus()),
    {
        proof {
            use_type_invariant(self);
        }
        let reduced = reduce(&value, &self.modulus);
        proof {
            lemma_mod_bound(value@, self.modulus@);
        }
        FieldElement { value: reduced, modulus: self.modulus.clone() }
    }
}

impl PartialEq for FieldElement {
    /// Two elements are equal when residue and modulus both agree.
    fn eq(&self, other: &FieldElement) -> (r: bool) {
        self.value.same_value(&other.value) && self.modulus.same_value(&other.modulus)
    }
}

impl Eq for FieldElement {

}

impl vstd::std_specs::cmp::PartialEqSpecImpl for FieldElement {
    open spec fn obeys_eq_spec() -> bool {
        true
    }

    open spec fn eq_spec(&self, other: &FieldElement) -> bool {
        self@ == other@
    }
}

/// An element added to its negation gives the zero of its field.
pub proof fn lemma_add_negate(a: FieldModel)
    requires
        a.wf(),
    ensures
        field_add(a, field_neg(a)) == residue(0, a.modulus),
{
    let m = a.modulus;
    lemma_add_mod_noop_right(a.value, m - a.value, m);
    lemma_mod_self_0(m);
    lemma_small_mod(0, m as nat);
}

/// An element multiplied by its inverse gives the one of its field.
pub proof fn lemma_mul_inverse(a: FieldModel, e: FieldModel)
    requires
        a.wf(),
        is_inverse(a, e),
    ensures
        field_mul(a, e) == residue(1, a.modulus),
{
}

/// An element has one inverse at most.
pub proof fn lemma_inverse_unique(a: FieldModel, e: FieldModel, f: FieldModel)
    requires
        a.wf(),
        is_inverse(a, e),
        is_inverse(a, f),
    ensures
        e == f,
{
    let m = a.modulus;
    // e == e * (a * f) == (e * a) * f == f, all modulo m
    lemma_mul_mod_noop_right(e.value, a.value * f.value, m);
    lemma_mul_mod_noop_left(a.value * e.value, f.value, m);
    assert(e.value * (a.value * f.value) == (a.value * e.value) * f.value) by (nonlinear_arith);
    lemma_mul_mod_noop_right(e.value, 1, m);
    lemma_mul_mod_noop_left(1, f.value, m);
    assert(e.value * 1 == e.value);
    assert(1 * f.value == f.value);
    lemma_small_mod(e.value as nat, m as nat);
    lemma_small_mod(f.value as nat, m as nat);
}

/// Zero has no inverse in a field of more than one element.
pub proof fn lemma_zero_not_invertible(m: int)
    requires
        m > 1,
    ensures
        !coprime(0, m),
{
    lemma_mod_self_0(m);
    lemma_small_mod(0, m as nat);
    lemma_small_mod(1, m as nat);
    assert(divides(m, 0) && divides(m, m));
    assert(!divides(m, 1));
}

/// An element that shares a factor above one with the modulus has no
/// inverse.
pub proof fn lemma_common_factor_not_invertible(a: int, m: int, d: int)
    requires
        d > 1,
        a % d == 0,
        m % d == 0,
    ensures
        !coprime(a, m),
{
    lemma_small_mod(1, d as nat);
    assert(divides(d, a) && divides(d, m));
    assert(!divides(d, 1));
}

/// The sum of two elements of one field does not depend on their order.
pub proof fn lemma_add_commutative(a: FieldModel, b: FieldModel)
    requires
        a.modulus == b.modulus,
    ensures
        field_add(a, b) == field_add(b, a),
{
}

/// The product of two elements of one field does not depend on their order.
pub proof fn lemma_mul_commutative(a: FieldModel, b: FieldModel)
    requires
        a.modulus == b.modulus,
    ensures
        field_mul(a, b) == field_mul(b, a),
{
    assert(a.value * b.value == b.value * a.value) by (nonlinear_arith);
}

/// The sum of three elements of one field does not depend on the grouping.
pub proof fn lemma_add_associative(a: FieldModel, b: FieldModel, c: FieldModel)
    requires
        a.modulus > 0,
        a.modulus == b.modulus,
        b.modulus == c.modulus,
    ensures
        field_add(field_add(a, b), c) == field_add(a, field_add(b, c)),
{
    let m = a.modulus;
    lemma_add_mod_noop_right(c.value, a.value + b.value, m);
    lemma_add_mod_noop_right(a.value, b.value + c.value, m);
}

/// The product of three elements of one field does not depend on the
/// grouping.
pub proof fn lemma_mul_associative(a: FieldModel, b: FieldModel, c: FieldModel)
    requires
        a.modulus > 0,
        a.modulus == b.modulus,
        b.modulus == c.modulus,
    ensures
        field_mul(field_mul(a, b), c) == field_mul(a, field_mul(b, c)),
{
    let m = a.modulus;
    lemma_mul_mod_noop_left(a.value * b.value, c.value, m);
    lemma_mul_mod_noop_right(a.value, b.value * c.value, m);
    assert((a.value * b.value) * c.value == a.value * (b.value * c.value)) by (nonlinear_arith);
}

} // verus!
