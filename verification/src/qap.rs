//! The polynomial form of a constraint system.
//!
//! A [`Polynomial`] here is a sparse map from variable index to coefficient,
//! and it is evaluated against a whole assignment: it is the sum of
//! `coefficient * assignment[index]` over its entries, not the value of a
//! polynomial in one unknown at one point. A [`QAP`] holds three of them.

use crate::error::ZkError;
use crate::field::{field_mul, field_sub, models, residue, FieldElement, FieldModel};
use crate::integer::{Integer, DEFAULT_MODULUS};
use std::collections::HashMap;
use vstd::arithmetic::div_mod::{
    lemma_add_mod_noop, lemma_add_mod_noop_right, lemma_fundamental_div_mod,
    lemma_mod_multiples_vanish, lemma_small_mod,
};
use vstd::prelude::*;
use vstd::std_specs::iter::IteratorSpec;

verus! {

broadcast use vstd::std_specs::hash::group_hash_axioms;

/// The sum of `coefficient * assignment[index]` over the entries of
/// `coefficients` whose index is below `n`, as an integer.
pub open spec fn weighted_sum(
    coefficients: Map<usize, FieldModel>,
    assignment: Seq<FieldModel>,
    n: int,
) -> int
    decreases n,
{
    if n <= 0 {
        0
    } else {
        let k = (n - 1) as usize;
        weighted_sum(coefficients, assignment, n - 1) + if coefficients.contains_key(k) {
            coefficients[k].value * assignment[n - 1].value
        } else {
            0
        }
    }
}

/// `coefficients` has a term whose index is below `n`.
pub open spec fn has_term(coefficients: Map<usize, FieldModel>, n: int) -> bool {
    exists|k: usize| k < n && #[trigger] coefficients.contains_key(k)
}

/// The modulus of the term of the highest index below `n`, and the default
/// modulus where there is no such term. Where all terms lie in one field,
/// this is its modulus.
pub open spec fn leading_modulus(coefficients: Map<usize, FieldModel>, n: int) -> int
    decreases n,
{
    if n <= 0 {
        DEFAULT_MODULUS as int
    } else if coefficients.contains_key((n - 1) as usize) {
        coefficients[(n - 1) as usize].modulus
    } else {
        leading_modulus(coefficients, n - 1)
    }
}

/// Every coefficient whose index is below `n`, and the value assigned to its
/// index, lie in the field of modulus `m`.
pub open spec fn in_field(
    coefficients: Map<usize, FieldModel>,
    assignment: Seq<FieldModel>,
    n: int,
    m: int,
) -> bool {
    forall|k: usize|
        k < n && #[trigger] coefficients.contains_key(k) ==> coefficients[k].modulus == m
            && assignment[k as int].modulus == m
}

/// All coefficients whose index is below `n`, and the values assigned to
/// their indices, lie in one field.
pub open spec fn fields_agree(
    coefficients: Map<usize, FieldModel>,
    assignment: Seq<FieldModel>,
    n: int,
) -> bool {
    in_field(coefficients, assignment, n, leading_modulus(coefficients, n))
}

/// The value of the linear form `coefficients` on `assignment`: an element
/// of the field of its terms, and the zero of the default field where it has
/// no term.
pub open spec fn polynomial_value(
    coefficients: Map<usize, FieldModel>,
    assignment: Seq<FieldModel>,
) -> FieldModel {
    residue(
        weighted_sum(coefficients, assignment, assignment.len() as int),
        leading_modulus(coefficients, assignment.len() as int),
    )
}

/// A linear form without a term below `n` sums to zero there, and its
/// leading modulus is the default one.
pub proof fn lemma_no_term(
    coefficients: Map<usize, FieldModel>,
    assignment: Seq<FieldModel>,
    n: int,
)
    requires
        !has_term(coefficients, n),
    ensures
        weighted_sum(coefficients, assignment, n) == 0,
        leading_modulus(coefficients, n) == DEFAULT_MODULUS,
    decreases n,
{
    if n > 0 {
        assert(!coefficients.contains_key((n - 1) as usize));
        assert forall|k: usize| k < n - 1 implies !#[trigger] coefficients.contains_key(k) by {
        }
        lemma_no_term(coefficients, assignment, n - 1);
    }
}

/// Every index of `coefficients` is below `n`.
pub open spec fn indices_below(coefficients: Map<usize, FieldModel>, n: int) -> bool {
    forall|k: usize| #[trigger] coefficients.contains_key(k) ==> k < n
}

/// What a run of terms stands for: each index with the element that is its
/// coefficient.
pub open spec fn term_models(terms: Seq<(usize, FieldElement)>) -> Seq<(usize, FieldModel)> {
    terms.map_values(|t: (usize, FieldElement)| (t.0, t.1@))
}

/// Some term of `terms` names index `k`.
pub open spec fn mentions(terms: Seq<(usize, FieldModel)>, k: usize) -> bool {
    exists|j: int| 0 <= j < terms.len() && (#[trigger] terms[j]).0 == k
}

/// The sum of the coefficients that the terms of `terms` give to index `k`.
pub open spec fn coefficient_sum(terms: Seq<(usize, FieldModel)>, k: usize) -> int
    decreases terms.len(),
{
    if terms.len() == 0 {
        0
    } else {
        coefficient_sum(terms.drop_last(), k) + if terms.last().0 == k {
            terms.last().1.value
        } else {
            0
        }
    }
}

/// The residue that `coefficients` holds for index `k`, zero where it holds
/// none.
pub open spec fn coefficient_or_zero(coefficients: Map<usize, FieldModel>, k: usize) -> int {
    if coefficients.contains_key(k) {
        coefficients[k].value
    } else {
        0
    }
}

/// `coefficients` after `terms` were added to it in the field of modulus
/// `m`: an index that the terms name holds what it held before, or zero,
/// plus every coefficient that the terms give it; the others are unchanged.
pub open spec fn accumulated(
    coefficients: Map<usize, FieldModel>,
    terms: Seq<(usize, FieldModel)>,
    m: int,
) -> Map<usize, FieldModel> {
    Map::new(
        |k: usize| coefficients.contains_key(k) || mentions(terms, k),
        |k: usize|
            if mentions(terms, k) {
                residue(coefficient_or_zero(coefficients, k) + coefficient_sum(terms, k), m)
            } else {
                coefficients[k]
            },
    )
}

/// Every coefficient of `terms`, and every coefficient that `coefficients`
/// holds for an index that the terms name, lies in the field of modulus `m`.
pub open spec fn terms_fit(
    coefficients: Map<usize, FieldModel>,
    terms: Seq<(usize, FieldModel)>,
    m: int,
) -> bool {
    forall|j: int|
        0 <= j < terms.len() ==> (#[trigger] terms[j]).1.modulus == m && (
        coefficients.contains_key(terms[j].0) ==> coefficients[terms[j].0].modulus == m)
}

/// Terms that do not name `k` give it nothing.
pub proof fn lemma_unmentioned_sum(terms: Seq<(usize, FieldModel)>, k: usize)
    requires
        !mentions(terms, k),
    ensures
        coefficient_sum(terms, k) == 0,
    decreases terms.len(),
{
    if terms.len() > 0 {
        let front = terms.drop_last();
        assert(terms[terms.len() - 1].0 != k);
        assert forall|j: int| 0 <= j < front.len() implies (#[trigger] front[j]).0 != k by {
            assert(terms[j].0 != k);
        }
        lemma_unmentioned_sum(front, k);
    }
}

/// One more term adds its coefficient to the index it names and leaves the
/// other indices as they are.
pub proof fn lemma_accumulated_step(
    coefficients: Map<usize, FieldModel>,
    terms: Seq<(usize, FieldModel)>,
    i: int,
    m: int,
)
    requires
        0 <= i < terms.len(),
        m > 0,
    ensures
        ({
            let before = accumulated(coefficients, terms.take(i), m);
            let k = terms[i].0;
            accumulated(coefficients, terms.take(i + 1), m) == before.insert(
                k,
                residue(coefficient_or_zero(before, k) + terms[i].1.value, m),
            )
        }),
{
    let shorter = terms.take(i);
    let longer = terms.take(i + 1);
    let before = accumulated(coefficients, shorter, m);
    let after = accumulated(coefficients, longer, m);
    let k = terms[i].0;
    let c = terms[i].1.value;
    let expected = before.insert(k, residue(coefficient_or_zero(before, k) + c, m));
    assert(longer.drop_last() =~= shorter);
    assert(longer.last() == terms[i]);
    assert(longer[i].0 == k);
    assert forall|x: usize| mentions(longer, x) <==> (mentions(shorter, x) || x == k) by {
        if mentions(shorter, x) {
            let j = choose|j: int| 0 <= j < shorter.len() && (#[trigger] shorter[j]).0 == x;
            assert(longer[j].0 == x);
        }
        if mentions(longer, x) && x != k {
            let j = choose|j: int| 0 <= j < longer.len() && (#[trigger] longer[j]).0 == x;
            assert(shorter[j].0 == x);
        }
    }
    assert forall|x: usize| #[trigger] after.contains_key(x) implies after[x] == expected[x] by {
        if x == k {
            let z = coefficient_or_zero(coefficients, k);
            let s = coefficient_sum(shorter, k);
            if mentions(shorter, k) {
                lemma_add_mod_noop_right(c, z + s, m);
            } else {
                lemma_unmentioned_sum(shorter, k);
            }
        }
    }
    assert(after =~= expected);
}

/// What two runs of terms give to an index, one after the other, is the sum
/// of what each gives.
pub proof fn lemma_coefficient_sum_concat(
    first: Seq<(usize, FieldModel)>,
    second: Seq<(usize, FieldModel)>,
    k: usize,
)
    ensures
        coefficient_sum(first + second, k) == coefficient_sum(first, k) + coefficient_sum(
            second,
            k,
        ),
    decreases second.len(),
{
    if second.len() == 0 {
        assert(first + second =~= first);
    } else {
        assert((first + second).drop_last() =~= first + second.drop_last());
        assert((first + second).last() == second.last());
        lemma_coefficient_sum_concat(first, second.drop_last(), k);
    }
}

/// Two runs of terms, one after the other, name an index when one of them
/// does.
pub proof fn lemma_mentions_concat(
    first: Seq<(usize, FieldModel)>,
    second: Seq<(usize, FieldModel)>,
    k: usize,
)
    ensures
        mentions(first + second, k) <==> mentions(first, k) || mentions(second, k),
{
    let both = first + second;
    if mentions(first, k) {
        let j = choose|j: int| 0 <= j < first.len() && (#[trigger] first[j]).0 == k;
        assert(both[j].0 == k);
    }
    if mentions(second, k) {
        let j = choose|j: int| 0 <= j < second.len() && (#[trigger] second[j]).0 == k;
        assert(both[first.len() + j].0 == k);
    }
    if mentions(both, k) {
        let j = choose|j: int| 0 <= j < both.len() && (#[trigger] both[j]).0 == k;
        if j < first.len() {
            assert(first[j].0 == k);
        } else {
            assert(second[j - first.len()].0 == k);
        }
    }
}

/// Accumulation is additive across constraints: adding the terms of one
/// constraint and then those of a second leaves what adding all of them at
/// once leaves. No contribution of the first is lost to the second.
pub proof fn lemma_accumulated_twice(
    coefficients: Map<usize, FieldModel>,
    first: Seq<(usize, FieldModel)>,
    second: Seq<(usize, FieldModel)>,
    m: int,
)
    requires
        m > 0,
    ensures
        accumulated(accumulated(coefficients, first, m), second, m) == accumulated(
            coefficients,
            first + second,
            m,
        ),
{
    let once = accumulated(coefficients, first, m);
    let twice = accumulated(once, second, m);
    let whole = accumulated(coefficients, first + second, m);
    assert forall|k: usize| twice.contains_key(k) == whole.contains_key(k) by {
        lemma_mentions_concat(first, second, k);
    }
    assert forall|k: usize| #[trigger] twice.contains_key(k) implies twice[k] == whole[k] by {
        lemma_mentions_concat(first, second, k);
        lemma_coefficient_sum_concat(first, second, k);
        let z = coefficient_or_zero(coefficients, k);
        if !mentions(first, k) {
            lemma_unmentioned_sum(first, k);
        }
        if !mentions(second, k) {
            lemma_unmentioned_sum(second, k);
        } else if mentions(first, k) {
            lemma_add_mod_noop_right(
                coefficient_sum(second, k),
                z + coefficient_sum(first, k),
                m,
            );
        }
    }
    assert(twice =~= whole);
}

/// Two constraints that name different indices both leave their mark: after
/// both were added, an index that only one of them names holds what it held
/// before plus what that constraint gives it.
pub proof fn lemma_accumulated_disjoint(
    coefficients: Map<usize, FieldModel>,
    first: Seq<(usize, FieldModel)>,
    second: Seq<(usize, FieldModel)>,
    m: int,
    k: usize,
)
    requires
        m > 0,
        mentions(first, k) != mentions(second, k),
    ensures
        ({
            let both = accumulated(accumulated(coefficients, first, m), second, m);
            &&& both.contains_key(k)
            &&& mentions(first, k) ==> both[k] == residue(
                coefficient_or_zero(coefficients, k) + coefficient_sum(first, k),
                m,
            )
            &&& mentions(second, k) ==> both[k] == residue(
                coefficient_or_zero(coefficients, k) + coefficient_sum(second, k),
                m,
            )
        }),
{
}

/// The sum, over the terms of `terms`, of the coefficient times the value
/// that `assignment` holds at the index of the term, as an integer.
pub open spec fn terms_sum(terms: Seq<(usize, FieldModel)>, assignment: Seq<FieldModel>) -> int
    decreases terms.len(),
{
    if terms.len() == 0 {
        0
    } else {
        terms_sum(terms.drop_last(), assignment) + terms.last().1.value * assignment[terms.last().0
            as int].value
    }
}

/// Setting the coefficient of one index moves the sum of a linear form by
/// the change of that coefficient times the value assigned to the index.
pub proof fn lemma_weighted_sum_insert(
    coefficients: Map<usize, FieldModel>,
    k: usize,
    v: FieldModel,
    assignment: Seq<FieldModel>,
    n: int,
)
    requires
        k < n <= usize::MAX,
    ensures
        weighted_sum(coefficients.insert(k, v), assignment, n) == weighted_sum(
            coefficients,
            assignment,
            n,
        ) + (v.value - coefficient_or_zero(coefficients, k)) * assignment[k as int].value,
    decreases n,
{
    let changed = coefficients.insert(k, v);
    let top = (n - 1) as usize;
    if top == k {
        assert forall|j: usize| j < n - 1 implies (#[trigger] coefficients.contains_key(j))
            == changed.contains_key(j) && (coefficients.contains_key(j) ==> coefficients[j]
            == changed[j]) by {
        }
        lemma_weighted_sum_same(coefficients, changed, assignment, n - 1);
        let a = assignment[k as int].value;
        let z = coefficient_or_zero(coefficients, k);
        assert(changed.contains_key(top) && changed[top] == v);
        assert(v.value * a == z * a + (v.value - z) * a) by (nonlinear_arith);
        assert(0 * a == 0);
    } else {
        assert(changed.contains_key(top) == coefficients.contains_key(top));
        lemma_weighted_sum_insert(coefficients, k, v, assignment, n - 1);
    }
}

/// Two linear forms that hold the same coefficients below `n` have the same
/// sum there.
proof fn lemma_weighted_sum_same(
    first: Map<usize, FieldModel>,
    second: Map<usize, FieldModel>,
    assignment: Seq<FieldModel>,
    n: int,
)
    requires
        forall|k: usize|
            k < n ==> (#[trigger] first.contains_key(k)) == second.contains_key(k) && (
            first.contains_key(k) ==> first[k] == second[k]),
    ensures
        weighted_sum(first, assignment, n) == weighted_sum(second, assignment, n),
    decreases n,
{
    if n > 0 {
        assert(first.contains_key((n - 1) as usize) == second.contains_key((n - 1) as usize));
        lemma_weighted_sum_same(first, second, assignment, n - 1);
    }
}

/// Accumulation shows in the value: modulo `m`, adding terms to a linear
/// form moves its sum on every assignment by the sum of the terms on that
/// assignment. What the form held before stays in the sum.
pub proof fn lemma_accumulated_sum(
    coefficients: Map<usize, FieldModel>,
    terms: Seq<(usize, FieldModel)>,
    m: int,
    assignment: Seq<FieldModel>,
)
    requires
        m > 0,
        assignment.len() <= usize::MAX,
        forall|j: int| 0 <= j < terms.len() ==> (#[trigger] terms[j]).0 < assignment.len(),
    ensures
        weighted_sum(accumulated(coefficients, terms, m), assignment, assignment.len() as int) % m
            == (weighted_sum(coefficients, assignment, assignment.len() as int) + terms_sum(
            terms,
            assignment,
        )) % m,
    decreases terms.len(),
{
    let n = assignment.len() as int;
    if terms.len() == 0 {
        assert(accumulated(coefficients, terms, m) =~= coefficients);
    } else {
        let i = terms.len() - 1;
        let front = terms.drop_last();
        let k = terms[i].0;
        let c = terms[i].1.value;
        let a = assignment[k as int].value;
        let before = accumulated(coefficients, front, m);
        let z = coefficient_or_zero(before, k);
        let v = residue(z + c, m);
        assert(terms.take(i) =~= front);
        assert(terms.take(i + 1) =~= terms);
        assert forall|j: int| 0 <= j < front.len() implies (#[trigger] front[j]).0
            < assignment.len() by {
            assert(terms[j].0 < assignment.len());
        }
        lemma_accumulated_step(coefficients, terms, i, m);
        lemma_accumulated_sum(coefficients, front, m, assignment);
        lemma_weighted_sum_insert(before, k, v, assignment, n);
        let old_sum = weighted_sum(before, assignment, n);
        let base = weighted_sum(coefficients, assignment, n) + terms_sum(front, assignment);
        // the new coefficient is z + c up to a multiple of m
        lemma_fundamental_div_mod(z + c, m);
        let q = (z + c) / m;
        assert((v.value - z) * a == c * a + (-(q * a)) * m) by (nonlinear_arith)
            requires
                z + c == m * q + v.value,
        ;
        lemma_mod_multiples_vanish(-(q * a), old_sum + c * a, m);
        assert(m * (-(q * a)) + (old_sum + c * a) == old_sum + (v.value - z) * a) by (
            nonlinear_arith)
            requires
                (v.value - z) * a == c * a + (-(q * a)) * m,
        ;
        lemma_add_mod_noop(old_sum, c * a, m);
        lemma_add_mod_noop(base, c * a, m);
    }
}

/// Accumulation shows in the value of a form: where the form before and
/// after lies in the field of modulus `m`, adding terms moves its value on
/// every assignment by the sum of the terms on that assignment.
pub proof fn lemma_accumulated_value(
    coefficients: Map<usize, FieldModel>,
    terms: Seq<(usize, FieldModel)>,
    m: int,
    assignment: Seq<FieldModel>,
)
    requires
        m > 0,
        assignment.len() <= usize::MAX,
        forall|j: int| 0 <= j < terms.len() ==> (#[trigger] terms[j]).0 < assignment.len(),
        leading_modulus(coefficients, assignment.len() as int) == m,
        leading_modulus(accumulated(coefficients, terms, m), assignment.len() as int) == m,
    ensures
        polynomial_value(accumulated(coefficients, terms, m), assignment) == residue(
            polynomial_value(coefficients, assignment).value + terms_sum(terms, assignment),
            m,
        ),
{
    let n = assignment.len() as int;
    lemma_accumulated_sum(coefficients, terms, m, assignment);
    lemma_add_mod_noop_right(
        terms_sum(terms, assignment),
        weighted_sum(coefficients, assignment, n),
        m,
    );
}

/// A sparse linear form over the variables of a constraint system: a
/// coefficient for some of the variable indices.
pub struct Polynomial {
    coefficients: HashMap<usize, FieldElement>,
}

impl View for Polynomial {
    type V = Map<usize, FieldModel>;

    closed spec fn view(&self) -> Map<usize, FieldModel> {
        self.coefficients@.map_values(|e: FieldElement| e@)
    }
}

impl Polynomial {
    /// The polynomial without any term.
    pub fn new() -> (r: Polynomial)
        ensures
            r@ == Map::<usize, FieldModel>::empty(),
    {
        let r = Polynomial { coefficients: HashMap::new() };
        assert(r@ =~= Map::<usize, FieldModel>::empty());
        r
    }

    /// Sets the coefficient of `index`, in place of any earlier one.
    pub fn add_term(&mut self, index: usize, coefficient: FieldElement)
        ensures
            final(self)@ == old(self)@.insert(index, coefficient@),
    {
        self.coefficients.insert(index, coefficient);
        assert(self@ =~= old(self)@.insert(index, coefficient@));
    }

    /// The coefficient of `index`, if there is one.
    pub fn coefficient(&self, index: usize) -> (r: Option<&FieldElement>)
        ensures
            match r {
                Some(c) => self@.contains_key(index) && self@[index] == c@,
                None => !self@.contains_key(index),
            },
    {
        self.coefficients.get(&index)
    }

    /// The indices that have a coefficient, each once, in no particular
    /// order.
    pub fn indices(&self) -> (r: Vec<usize>)
        ensures
            r@.no_duplicates(),
            forall|k: usize| r@.contains(k) <==> self@.contains_key(k),
    {
        let mut found: Vec<usize> = Vec::new();
        let ghost all = vstd::std_specs::hash::spec_keys_iter(&self.coefficients).remaining();
        for key in it: self.coefficients.keys()
            invariant
                it.seq() == all,
                found@.len() == it.index(),
                forall|j: int| 0 <= j < found@.len() ==> found@[j] == *(#[trigger] it.seq()[j]),
        {
            found.push(*key);
        }
        proof {
            assert(found@ =~= all.unref());
            assert forall|k: usize| found@.contains(k) <==> self@.contains_key(k) by {
                assert(all.unref().to_set().contains(k) <==> self.coefficients@.dom().contains(k));
            }
        }
        found
    }

    /// Whether every index that has a coefficient is below `n`.
    pub fn indices_within(&self, n: usize) -> (r: bool)
        ensures
            r == indices_below(self@, n as int),
    {
        let found = self.indices();
        let count = found.len();
        let mut i: usize = 0;
        while i < count
            invariant
                count == found@.len(),
                i <= count,
                forall|k: usize| found@.contains(k) <==> self@.contains_key(k),
                forall|j: int| 0 <= j < i ==> #[trigger] found@[j] < n,
            decreases count - i,
        {
            if found[i] >= n {
                assert(found@.contains(found@[i as int]));
                return false;
            }
            i = i + 1;
        }
        assert forall|k: usize| #[trigger] self@.contains_key(k) implies k < n by {
            assert(found@.contains(k));
        }
        true
    }

    /// Whether `terms` can be added to the polynomial in the field of
    /// modulus `modulus`.
    fn fits(&self, terms: &[(usize, FieldElement)], modulus: &Integer) -> (r: bool)
        ensures
            r == terms_fit(self@, term_models(terms@), modulus@),
    {
        let n = terms.len();
        let mut i: usize = 0;
        while i < n
            invariant
                n == terms@.len(),
                i <= n,
                terms_fit(self@, term_models(terms@).take(i as int), modulus@),
            decreases n - i,
        {
            let term = &terms[i];
            assert(term_models(terms@)[i as int] == (term.0, term.1@));
            if !term.1.get_modulus().same_value(modulus) {
                return false;
            }
            match self.coefficients.get(&term.0) {
                Some(held) => {
                    if !held.get_modulus().same_value(modulus) {
                        return false;
                    }
                },
                None => {},
            }
            proof {
                let shorter = term_models(terms@).take(i as int);
                let longer = term_models(terms@).take(i + 1);
                assert forall|j: int| 0 <= j < longer.len() implies (#[trigger] longer[j]).1.modulus
                    == modulus@ && (self@.contains_key(longer[j].0) ==> self@[longer[j].0].modulus
                    == modulus@) by {
                    if j < i {
                        assert(shorter[j] == longer[j]);
                    }
                }
            }
            i = i + 1;
        }
        assert(term_models(terms@).take(n as int) =~= term_models(terms@));
        true
    }

    /// Adds `terms`, which fit, to the polynomial.
    fn fold(&mut self, terms: &[(usize, FieldElement)], modulus: &Integer) -> (r: Result<
        (),
        ZkError,
    >)
        requires
            terms_fit(old(self)@, term_models(terms@), modulus@),
        ensures
            r is Ok,
            final(self)@ == accumulated(old(self)@, term_models(terms@), modulus@),
    {
        let n = terms.len();
        let mut i: usize = 0;
        assert(self@ =~= accumulated(self@, term_models(terms@).take(0), modulus@));
        while i < n
            invariant
                n == terms@.len(),
                i <= n,
                terms_fit(old(self)@, term_models(terms@), modulus@),
                self@ == accumulated(old(self)@, term_models(terms@).take(i as int), modulus@),
            decreases n - i,
        {
            let term = &terms[i];
            let ghost before = self@;
            let ghost m = modulus@;
            let coefficient = &term.1;
            proof {
                use_type_invariant(coefficient);
            }
            assert(term_models(terms@)[i as int] == (term.0, coefficient@));
            proof {
                lemma_accumulated_step(old(self)@, term_models(terms@), i as int, m);
            }
            let sum = match self.coefficients.get(&term.0) {
                Some(held) => {
                    assert(before.contains_key(term.0) && before[term.0] == held@);
                    assert(held@.modulus == m) by {
                        if !mentions(term_models(terms@).take(i as int), term.0) {
                            assert(old(self)@.contains_key(term_models(terms@)[i as int].0));
                        }
                    }
                    match held.add(coefficient) {
                        Ok(sum) => sum,
                        Err(e) => {
                            return Err(e);
                        },
                    }
                },
                None => {
                    assert(!before.contains_key(term.0));
                    proof {
                        lemma_small_mod(coefficient@.value as nat, m as nat);
                    }
                    coefficient.clone()
                },
            };
            self.coefficients.insert(term.0, sum);
            assert(self@ =~= before.insert(term.0, sum@));
            i = i + 1;
        }
        assert(term_models(terms@).take(n as int) =~= term_models(terms@));
        Ok(())
    }

    /// Adds every term of `terms` to the polynomial, in the field of modulus
    /// `modulus`: the coefficient of a term is added to what the polynomial
    /// holds for its index, or stored where it holds nothing. Terms that
    /// name one index add up. Where a coefficient involved lies in another
    /// field, nothing is changed.
    pub fn accumulate(&mut self, terms: &[(usize, FieldElement)], modulus: &Integer) -> (r: Result<
        (),
        ZkError,
    >)
        ensures
            match r {
                Ok(_) => terms_fit(old(self)@, term_models(terms@), modulus@) && final(self)@
                    == accumulated(old(self)@, term_models(terms@), modulus@),
                Err(e) => !terms_fit(old(self)@, term_models(terms@), modulus@) && e
                    == ZkError::ModulusMismatch && final(self)@ == old(self)@,
            },
    {
        if self.fits(terms, modulus) {
            self.fold(terms, modulus)
        } else {
            Err(ZkError::ModulusMismatch)
        }
    }

    /// The term of the highest index below `n`, if there is a term there.
    fn leading(&self, n: usize) -> (r: Option<&FieldElement>)
        ensures
            match r {
                Some(c) => has_term(self@, n as int) && c@.modulus == leading_modulus(
                    self@,
                    n as int,
                ),
                None => !has_term(self@, n as int),
            },
    {
        let mut k = n;
        while k > 0
            invariant
                k <= n,
                leading_modulus(self@, n as int) == leading_modulus(self@, k as int),
                forall|j: usize| k <= j < n ==> !#[trigger] self@.contains_key(j),
            decreases k,
        {
            k = k - 1;
            match self.coefficients.get(&k) {
                Some(c) => {
                    assert(self@.contains_key(k));
                    return Some(c);
                },
                None => {},
            }
        }
        None
    }

    /// The sum of `coefficient * assignment[index]` over all terms, as an
    /// integer, where all of them lie in the field of modulus `modulus`.
    fn sum_in(&self, assignment: &Vec<FieldElement>, modulus: &Integer) -> (r: Option<Integer>)
        requires
            indices_below(self@, assignment@.len() as int),
        ensures
            match r {
                Some(s) => in_field(
                    self@,
                    models(assignment@),
                    assignment@.len() as int,
                    modulus@,
                ) && s@ == weighted_sum(self@, models(assignment@), assignment@.len() as int),
                None => !in_field(self@, models(assignment@), assignment@.len() as int, modulus@),
            },
    {
        let mut total = Integer::zero();
        let n = assignment.len();
        let mut i: usize = 0;
        while i < n
            invariant
                n == assignment@.len(),
                i <= n,
                in_field(self@, models(assignment@), i as int, modulus@),
                total@ == weighted_sum(self@, models(assignment@), i as int),
            decreases n - i,
        {
            match self.coefficients.get(&i) {
                Some(coefficient) => {
                    assert(self@.contains_key(i) && self@[i] == coefficient@);
                    let value = &assignment[i];
                    if !coefficient.get_modulus().same_value(modulus)
                        || !value.get_modulus().same_value(modulus) {
                        return None;
                    }
                    total = total.plus(&coefficient.get_value().times(&value.get_value()));
                },
                None => {
                    assert(!self@.contains_key(i));
                },
            }
            i = i + 1;
        }
        Some(total)
    }

    /// The value of the polynomial on `assignment`: the sum of
    /// `coefficient * assignment[index]` over all terms, in the field that
    /// the coefficients and the values at their indices share. Values at
    /// other indices play no part. Without a term the value is the zero of
    /// the default field.
    pub fn evaluate(&self, assignment: &Vec<FieldElement>) -> (r: Result<FieldElement, ZkError>)
        requires
            indices_below(self@, assignment@.len() as int),
        ensures
            match r {
                Ok(e) => fields_agree(self@, models(assignment@), assignment@.len() as int) && e@
                    == polynomial_value(self@, models(assignment@)),
                Err(e) => !fields_agree(self@, models(assignment@), assignment@.len() as int) && e
                    == ZkError::ModulusMismatch,
            },
    {
        let n = assignment.len();
        match self.leading(n) {
            None => {
                proof {
                    lemma_no_term(self@, models(assignment@), n as int);
                }
                Ok(FieldElement::new(Integer::zero()))
            },
            Some(lead) => match self.sum_in(assignment, lead.get_modulus()) {
                Some(sum) => Ok(lead.of_same_field(&sum)),
                None => Err(ZkError::ModulusMismatch),
            },
        }
    }
}

/// The polynomial form of a constraint system: one linear form for each of
/// the three sides of its constraints.
pub struct QAP {
    /// What the constraints say of their left sides.
    pub left: Polynomial,
    /// What the constraints say of their right sides.
    pub right: Polynomial,
    /// What the constraints say of their outputs.
    pub output: Polynomial,
}

impl QAP {
    /// The modulus of the field in which the form is evaluated: that of the
    /// terms of the first of the three linear forms that has one below `n`,
    /// and the default modulus where none has.
    pub open spec fn modulus_on(&self, n: int) -> int {
        if has_term(self.left@, n) {
            leading_modulus(self.left@, n)
        } else if has_term(self.right@, n) {
            leading_modulus(self.right@, n)
        } else {
            leading_modulus(self.output@, n)
        }
    }

    /// All coefficients of the three linear forms, and the values assigned
    /// to their indices, lie in one field.
    pub open spec fn fields_agree(&self, assignment: Seq<FieldModel>) -> bool {
        let n = assignment.len() as int;
        let m = self.modulus_on(n);
        &&& in_field(self.left@, assignment, n, m)
        &&& in_field(self.right@, assignment, n, m)
        &&& in_field(self.output@, assignment, n, m)
    }

    /// The value of the form on `assignment`: left times right less output,
    /// in the field of the terms.
    pub open spec fn value_on(&self, assignment: Seq<FieldModel>) -> FieldModel {
        let n = assignment.len() as int;
        let m = self.modulus_on(n);
        field_sub(
            field_mul(
                residue(weighted_sum(self.left@, assignment, n), m),
                residue(weighted_sum(self.right@, assignment, n), m),
            ),
            residue(weighted_sum(self.output@, assignment, n), m),
        )
    }

    /// Every index of the three linear forms is below `n`.
    pub open spec fn indices_below(&self, n: int) -> bool {
        &&& indices_below(self.left@, n)
        &&& indices_below(self.right@, n)
        &&& indices_below(self.output@, n)
    }

    /// The three sides can be added in the field of modulus `m`.
    pub open spec fn sides_fit(
        &self,
        left: Seq<(usize, FieldModel)>,
        right: Seq<(usize, FieldModel)>,
        output: Seq<(usize, FieldModel)>,
        m: int,
    ) -> bool {
        &&& terms_fit(self.left@, left, m)
        &&& terms_fit(self.right@, right, m)
        &&& terms_fit(self.output@, output, m)
    }

    /// Whether every index of the three linear forms is below `n`.
    pub fn indices_within(&self, n: usize) -> (r: bool)
        ensures
            r == self.indices_below(n as int),
    {
        self.left.indices_within(n) && self.right.indices_within(n) && self.output.indices_within(
            n,
        )
    }

    /// The form without any constraint: three empty linear forms.
    pub fn new() -> (r: QAP)
        ensures
            r.left@ == Map::<usize, FieldModel>::empty(),
            r.right@ == Map::<usize, FieldModel>::empty(),
            r.output@ == Map::<usize, FieldModel>::empty(),
    {
        QAP { left: Polynomial::new(), right: Polynomial::new(), output: Polynomial::new() }
    }

    /// Adds the three sides of one constraint, each to its own linear form,
    /// in the field of modulus `modulus`. What earlier constraints gave to an
    /// index stays and the new coefficient is added to it. Where any
    /// coefficient involved lies in another field, nothing is changed.
    pub fn add_constraint(
        &mut self,
        left_coeffs: &[(usize, FieldElement)],
        right_coeffs: &[(usize, FieldElement)],
        output_coeffs: &[(usize, FieldElement)],
        modulus: &Integer,
    ) -> (r: Result<(), ZkError>)
        ensures
            match r {
                Ok(_) => {
                    &&& old(self).sides_fit(
                        term_models(left_coeffs@),
                        term_models(right_coeffs@),
                        term_models(output_coeffs@),
                        modulus@,
                    )
                    &&& final(self).left@ == accumulated(
                        old(self).left@,
                        term_models(left_coeffs@),
                        modulus@,
                    )
                    &&& final(self).right@ == accumulated(
                        old(self).right@,
                        term_models(right_coeffs@),
                        modulus@,
                    )
                    &&& final(self).output@ == accumulated(
                        old(self).output@,
                        term_models(output_coeffs@),
                        modulus@,
                    )
                },
                Err(e) => {
                    &&& !old(self).sides_fit(
                        term_models(left_coeffs@),
                        term_models(right_coeffs@),
                        term_models(output_coeffs@),
                        modulus@,
                    )
                    &&& e == ZkError::ModulusMismatch
                    &&& final(self).left@ == old(self).left@
                    &&& final(self).right@ == old(self).right@
                    &&& final(self).output@ == old(self).output@
                },
            },
    {
        if self.left.fits(left_coeffs, modulus) && self.right.fits(right_coeffs, modulus)
            && self.output.fits(output_coeffs, modulus) {
            match self.left.fold(left_coeffs, modulus) {
                Ok(_) => {},
                Err(e) => {
                    return Err(e);
                },
            }
            match self.right.fold(right_coeffs, modulus) {
                Ok(_) => {},
                Err(e) => {
                    return Err(e);
                },
            }
            self.output.fold(output_coeffs, modulus)
        } else {
            Err(ZkError::ModulusMismatch)
        }
    }

    /// The value of the form on `assignment`: the product of the left and
    /// right linear forms less the output form, in the field that all
    /// coefficients and the values at their indices share. An assignment
    /// that satisfies the constraints brings it to zero. Without any term the
    /// value is the zero of the default field.
    pub fn evaluate(&self, assignment: &Vec<FieldElement>) -> (r: Result<FieldElement, ZkError>)
        requires
            self.indices_below(assignment@.len() as int),
        ensures
            match r {
                Ok(e) => self.fields_agree(models(assignment@)) && e@ == self.value_on(
                    models(assignment@),
                ),
                Err(e) => !self.fields_agree(models(assignment@)) && e
                    == ZkError::ModulusMismatch,
            },
    {
        let n = assignment.len();
        let lead = match self.left.leading(n) {
            Some(c) => Some(c),
            None => match self.right.leading(n) {
                Some(c) => Some(c),
                None => self.output.leading(n),
            },
        };
        match lead {
            None => {
                proof {
                    lemma_no_term(self.left@, models(assignment@), n as int);
                    lemma_no_term(self.right@, models(assignment@), n as int);
                    lemma_no_term(self.output@, models(assignment@), n as int);
                    lemma_small_mod(0, DEFAULT_MODULUS as nat);
                    assert(0int * 0int == 0);
                }
                Ok(FieldElement::new(Integer::zero()))
            },
            Some(lead) => {
                let modulus = lead.get_modulus();
                let left_sum = match self.left.sum_in(assignment, modulus) {
                    Some(sum) => sum,
                    None => {
                        return Err(ZkError::ModulusMismatch);
                    },
                };
                let right_sum = match self.right.sum_in(assignment, modulus) {
                    Some(sum) => sum,
                    None => {
                        return Err(ZkError::ModulusMismatch);
                    },
                };
                let output_sum = match self.output.sum_in(assignment, modulus) {
                    Some(sum) => sum,
                    None => {
                        return Err(ZkError::ModulusMismatch);
                    },
                };
                let left_eval = lead.of_same_field(&left_sum);
                let right_eval = lead.of_same_field(&right_sum);
                let output_eval = lead.of_same_field(&output_sum);
                let product = match left_eval.mul(&right_eval) {
                    Ok(v) => v,
                    Err(e) => {
                        return Err(e);
                    },
                };
                product.sub(&output_eval)
            },
        }
    }
}

} // verus!
