//! The constraint system: a table of variables, the list of constraints over
//! them, and the same constraints folded into polynomial form.
//!
//! A constraint is added to the list and to the polynomial form in one step,
//! so the two never part.

use crate::error::ZkError;
use crate::field::{models, reduce, residue, FieldElement, FieldModel};
use crate::integer::{numbers, Integer, DEFAULT_MODULUS};
use crate::proofs::{residues, Proof};
use crate::qap::{accumulated, term_models, QAP};
use vstd::prelude::*;

verus! {

/// A variable of the system: its place in the table and its value.
#[derive(Debug)]
pub struct Variable {
    /// The place of the variable in the table, given when it was registered.
    pub index: usize,
    /// The value of the variable.
    pub value: FieldElement,
}

impl Clone for Variable {
    fn clone(&self) -> (r: Self)
        ensures
            r.index == self.index,
            r.value@ == self.value@,
    {
        Variable { index: self.index, value: self.value.clone() }
    }
}

/// What a constraint asks of its three sides.
#[derive(Debug, Clone, Copy, PartialEq, Eq, Structural)]
pub enum Operation {
    /// Left plus right is the output.
    Add,
    /// Left times right is the output.
    Mul,
    /// Reserved. No check is defined for it.
    Hash,
}

/// One constraint: three linear combinations of variables, each term a
/// variable as it stood when the constraint was added and an integer
/// coefficient, and what is asked of them.
#[derive(Debug)]
pub struct Constraint {
    /// The left side.
    pub left: Vec<(Variable, Integer)>,
    /// The right side.
    pub right: Vec<(Variable, Integer)>,
    /// The output side.
    pub output: Vec<(Variable, Integer)>,
    /// What is asked of the three sides.
    pub operation: Operation,
}

/// The product of a value and an integer coefficient, taken in the field of
/// the value.
pub open spec fn term_product(v: FieldModel, c: int) -> int {
    (v.value * c) % v.modulus
}

/// The sum, over the terms of one side, of the coefficient times the value
/// that `witness` holds at the index of the term's variable.
pub open spec fn side_sum(terms: Seq<(Variable, Integer)>, witness: Seq<FieldModel>) -> int
    decreases terms.len(),
{
    if terms.len() == 0 {
        0
    } else {
        side_sum(terms.drop_last(), witness) + term_product(
            witness[terms.last().0.index as int],
            terms.last().1@,
        )
    }
}

/// The value of one side on `witness`, in the field of modulus `m`.
pub open spec fn side_value(
    terms: Seq<(Variable, Integer)>,
    witness: Seq<FieldModel>,
    m: int,
) -> FieldModel {
    residue(side_sum(terms, witness), m)
}

/// Every value that `witness` holds at the index of a term of the side lies
/// in the field of modulus `m`.
pub open spec fn side_in_field(
    terms: Seq<(Variable, Integer)>,
    witness: Seq<FieldModel>,
    m: int,
) -> bool {
    forall|j: int|
        0 <= j < terms.len() ==> witness[(#[trigger] terms[j]).0.index as int].modulus == m
}

/// The sum, over the terms of one side, of the coefficient times the value
/// stored with the term's variable. It is a sum of integers and is not
/// reduced.
pub open spec fn stored_sum(terms: Seq<(Variable, Integer)>) -> int
    decreases terms.len(),
{
    if terms.len() == 0 {
        0
    } else {
        stored_sum(terms.drop_last()) + term_product(terms.last().0.value@, terms.last().1@)
    }
}

/// Every term of the side names a variable index below `n`.
pub open spec fn side_below(terms: Seq<(Variable, Integer)>, n: int) -> bool {
    forall|j: int| 0 <= j < terms.len() ==> (#[trigger] terms[j]).0.index < n
}

/// Every term of the combination names a variable index below `n`.
pub open spec fn combination_below(terms: Seq<(usize, FieldModel)>, n: int) -> bool {
    forall|j: int| 0 <= j < terms.len() ==> (#[trigger] terms[j]).0 < n
}

/// `stored` is the combination `terms` as a constraint keeps it: term by
/// term, the variable that `variables` holds at the term's index, and the
/// residue of the term's coefficient.
pub open spec fn records(
    variables: Seq<Variable>,
    terms: Seq<(usize, FieldModel)>,
    stored: Seq<(Variable, Integer)>,
) -> bool {
    &&& stored.len() == terms.len()
    &&& forall|j: int|
        0 <= j < terms.len() ==> {
            &&& (#[trigger] stored[j]).0.index == variables[terms[j].0 as int].index
            &&& stored[j].0.value@ == variables[terms[j].0 as int].value@
            &&& stored[j].1@ == terms[j].1.value
        }
}

/// The operation that the stored values of a constraint speak for: a
/// product where left times right is the output, else a sum where left plus
/// right is the output, else a product.
pub open spec fn inferred_operation(left: int, right: int, output: int) -> Operation {
    if left * right == output {
        Operation::Mul
    } else if left + right == output {
        Operation::Add
    } else {
        Operation::Mul
    }
}

/// One of the three sides of a constraint.
pub enum Side {
    Left,
    Right,
    Output,
}

/// What a stored side gives to the polynomial form in the field of modulus
/// `m`: for each term, the index of its variable with its coefficient.
pub open spec fn side_terms(side: Seq<(Variable, Integer)>, m: int) -> Seq<(usize, FieldModel)> {
    Seq::new(side.len(), |j: int| (side[j].0.index, FieldModel { value: side[j].1@, modulus: m }))
}

/// The linear form that the constraints add up to on one side, the
/// constraint of place `i` taken in the field of modulus `moduli[i]`.
pub open spec fn folded(constraints: Seq<Constraint>, moduli: Seq<int>, side: Side) -> Map<
    usize,
    FieldModel,
>
    decreases constraints.len(),
{
    if constraints.len() == 0 {
        Map::empty()
    } else {
        accumulated(
            folded(constraints.drop_last(), moduli.drop_last(), side),
            side_terms(constraints.last().side(side), moduli.last()),
            moduli.last(),
        )
    }
}

impl Constraint {
    /// The terms of one side.
    pub open spec fn side(&self, side: Side) -> Seq<(Variable, Integer)> {
        match side {
            Side::Left => self.left@,
            Side::Right => self.right@,
            Side::Output => self.output@,
        }
    }

    /// Every term of the constraint names a variable index below `n`.
    pub open spec fn indices_below(&self, n: int) -> bool {
        &&& side_below(self.left@, n)
        &&& side_below(self.right@, n)
        &&& side_below(self.output@, n)
    }

    /// The modulus of the field in which the constraint is checked on
    /// `witness`: that of the value at the first term of the first side that
    /// has a term, and the default modulus for a constraint without terms.
    pub open spec fn modulus_on(&self, witness: Seq<FieldModel>) -> int {
        if self.left@.len() > 0 {
            witness[self.left@[0].0.index as int].modulus
        } else if self.right@.len() > 0 {
            witness[self.right@[0].0.index as int].modulus
        } else if self.output@.len() > 0 {
            witness[self.output@[0].0.index as int].modulus
        } else {
            DEFAULT_MODULUS as int
        }
    }

    /// The values that the constraint reads from `witness` lie in one field,
    /// and the three sides have one value there. A constraint tagged with
    /// the reserved hash operation is satisfied by no witness.
    pub open spec fn satisfied_by(&self, witness: Seq<FieldModel>) -> bool {
        let m = self.modulus_on(witness);
        &&& self.operation != Operation::Hash
        &&& side_in_field(self.left@, witness, m)
        &&& side_in_field(self.right@, witness, m)
        &&& side_in_field(self.output@, witness, m)
        &&& side_value(self.left@, witness, m) == side_value(self.right@, witness, m)
        &&& side_value(self.right@, witness, m) == side_value(self.output@, witness, m)
    }
}

/// The sum of one side on `witness`, as an integer, where every value that
/// the side reads lies in the field of modulus `modulus`.
fn side_total(terms: &Vec<(Variable, Integer)>, witness: &[FieldElement], modulus: &Integer) -> (r:
    Option<Integer>)
    requires
        side_below(terms@, witness@.len() as int),
    ensures
        match r {
            Some(total) => side_in_field(terms@, models(witness@), modulus@) && total@
                == side_sum(terms@, models(witness@)),
            None => !side_in_field(terms@, models(witness@), modulus@),
        },
{
    let mut total = Integer::zero();
    let n = terms.len();
    let mut j: usize = 0;
    assert(terms@.take(0).len() == 0);
    while j < n
        invariant
            n == terms@.len(),
            j <= n,
            side_below(terms@, witness@.len() as int),
            forall|k: int|
                0 <= k < j ==> models(witness@)[(#[trigger] terms@[k]).0.index as int].modulus
                    == modulus@,
            total@ == side_sum(terms@.take(j as int), models(witness@)),
        decreases n - j,
    {
        let term = &terms[j];
        assert(terms@[j as int].0.index < witness@.len());
        let value = &witness[term.0.index];
        if !value.get_modulus().same_value(modulus) {
            return None;
        }
        let product = value.scale(&term.1);
        proof {
            let shorter = terms@.take(j as int);
            let longer = terms@.take(j + 1);
            assert(longer.drop_last() =~= shorter);
            assert(longer.last() == terms@[j as int]);
        }
        total = total.plus(&product.get_value());
        j = j + 1;
    }
    assert(terms@.take(n as int) =~= terms@);
    Some(total)
}

/// The sum of the stored products of one side, as an integer.
pub(crate) fn stored_total(terms: &Vec<(Variable, Integer)>) -> (r: Integer)
    ensures
        r@ == stored_sum(terms@),
{
    let mut total = Integer::zero();
    let n = terms.len();
    let mut j: usize = 0;
    assert(terms@.take(0).len() == 0);
    while j < n
        invariant
            n == terms@.len(),
            j <= n,
            total@ == stored_sum(terms@.take(j as int)),
        decreases n - j,
    {
        let term = &terms[j];
        let product = term.0.value.scale(&term.1);
        proof {
            let shorter = terms@.take(j as int);
            let longer = terms@.take(j + 1);
            assert(longer.drop_last() =~= shorter);
            assert(longer.last() == terms@[j as int]);
        }
        total = total.plus(&product.get_value());
        j = j + 1;
    }
    assert(terms@.take(n as int) =~= terms@);
    total
}

/// Whether every term of the side names a variable index below `n`.
fn side_within(terms: &Vec<(Variable, Integer)>, n: usize) -> (r: bool)
    ensures
        r == side_below(terms@, n as int),
{
    let count = terms.len();
    let mut j: usize = 0;
    while j < count
        invariant
            count == terms@.len(),
            j <= count,
            forall|k: int| 0 <= k < j ==> (#[trigger] terms@[k]).0.index < n,
        decreases count - j,
    {
        if terms[j].0.index >= n {
            return false;
        }
        j = j + 1;
    }
    true
}

/// A rank-1 constraint system.
pub struct R1CS {
    /// The variables, each at its own index.
    pub variables: Vec<Variable>,
    /// The constraints, in the order in which they were added.
    pub constraints: Vec<Constraint>,
    /// The constraints in polynomial form.
    pub qap: QAP,
}

impl R1CS {
    /// Every variable sits at its own index, and every index that a
    /// constraint or the polynomial form names is that of a variable.
    pub open spec fn wf(&self) -> bool {
        &&& forall|i: int|
            0 <= i < self.variables@.len() ==> (#[trigger] self.variables@[i]).index == i
        &&& self.constraints_below(self.variables@.len() as int)
        &&& self.qap.indices_below(self.variables@.len() as int)
    }

    /// The polynomial form is what the constraints of the list add up to,
    /// the constraint of place `i` taken in the field of modulus `moduli[i]`.
    pub open spec fn in_step_with(&self, moduli: Seq<int>) -> bool {
        &&& moduli.len() == self.constraints@.len()
        &&& self.qap.left@ == folded(self.constraints@, moduli, Side::Left)
        &&& self.qap.right@ == folded(self.constraints@, moduli, Side::Right)
        &&& self.qap.output@ == folded(self.constraints@, moduli, Side::Output)
    }

    /// The list of constraints and the polynomial form are in step: the form
    /// holds what the constraints of the list add up to, and nothing else.
    pub open spec fn in_step(&self) -> bool {
        exists|moduli: Seq<int>| #[trigger] self.in_step_with(moduli)
    }

    /// Every constraint names variable indices below `n` only.
    pub open spec fn constraints_below(&self, n: int) -> bool {
        forall|i: int|
            0 <= i < self.constraints@.len() ==> (#[trigger] self.constraints@[i]).indices_below(n)
    }

    /// The values of the variables, in index order.
    pub open spec fn values(&self) -> Seq<FieldModel> {
        self.variables@.map_values(|v: Variable| v.value@)
    }

    /// `after` is `self` with one constraint more, made of the three
    /// combinations and tagged `operation`: the constraint stands at the end
    /// of the list, the polynomial form holds its coefficients on top of what
    /// it held, and the variables are as they were.
    pub open spec fn extended_by(
        &self,
        after: &R1CS,
        left: Seq<(usize, FieldModel)>,
        right: Seq<(usize, FieldModel)>,
        output: Seq<(usize, FieldModel)>,
        m: int,
    ) -> bool {
        &&& after.variables == self.variables
        &&& after.constraints@.len() == self.constraints@.len() + 1
        &&& after.constraints@.drop_last() == self.constraints@
        &&& records(self.variables@, left, after.constraints@.last().left@)
        &&& records(self.variables@, right, after.constraints@.last().right@)
        &&& records(self.variables@, output, after.constraints@.last().output@)
        &&& after.qap.left@ == accumulated(self.qap.left@, left, m)
        &&& after.qap.right@ == accumulated(self.qap.right@, right, m)
        &&& after.qap.output@ == accumulated(self.qap.output@, output, m)
    }

    /// `after` is `self`, with nothing added.
    pub open spec fn unchanged_in(&self, after: &R1CS) -> bool {
        &&& after.variables == self.variables
        &&& after.constraints == self.constraints
        &&& after.qap.left@ == self.qap.left@
        &&& after.qap.right@ == self.qap.right@
        &&& after.qap.output@ == self.qap.output@
    }

    /// The three combinations name registered variables only.
    pub open spec fn names_variables(
        &self,
        left: Seq<(usize, FieldModel)>,
        right: Seq<(usize, FieldModel)>,
        output: Seq<(usize, FieldModel)>,
    ) -> bool {
        &&& combination_below(left, self.variables@.len() as int)
        &&& combination_below(right, self.variables@.len() as int)
        &&& combination_below(output, self.variables@.len() as int)
    }

    /// Whether every constraint names variable indices below `n` only,
    /// which is what `verify_witness` asks of a witness of `n` values.
    pub fn constraints_within(&self, n: usize) -> (r: bool)
        ensures
            r == self.constraints_below(n as int),
    {
        let count = self.constraints.len();
        let mut i: usize = 0;
        while i < count
            invariant
                count == self.constraints@.len(),
                i <= count,
                forall|k: int|
                    0 <= k < i ==> (#[trigger] self.constraints@[k]).indices_below(n as int),
            decreases count - i,
        {
            let constraint = &self.constraints[i];
            if !(side_within(&constraint.left, n) && side_within(&constraint.right, n)
                && side_within(&constraint.output, n)) {
                assert(!self.constraints@[i as int].indices_below(n as int));
                return false;
            }
            i = i + 1;
        }
        true
    }

    /// Whether the system is well formed: every variable at its own index,
    /// and no constraint or polynomial term over an index without variable.
    pub fn is_well_formed(&self) -> (r: bool)
        ensures
            r == self.wf(),
    {
        let n = self.variables.len();
        let mut i: usize = 0;
        while i < n
            invariant
                n == self.variables@.len(),
                i <= n,
                forall|k: int| 0 <= k < i ==> (#[trigger] self.variables@[k]).index == k,
            decreases n - i,
        {
            if self.variables[i].index != i {
                return false;
            }
            i = i + 1;
        }
        self.constraints_within(n) && self.qap.indices_within(n)
    }

    /// The system without variables or constraints.
    pub fn new() -> (r: R1CS)
        ensures
            r.wf(),
            r.in_step(),
            r.variables@.len() == 0,
            r.constraints@.len() == 0,
            r.qap.left@ == Map::<usize, FieldModel>::empty(),
            r.qap.right@ == Map::<usize, FieldModel>::empty(),
            r.qap.output@ == Map::<usize, FieldModel>::empty(),
    {
        let r = R1CS { variables: Vec::new(), constraints: Vec::new(), qap: QAP::new() };
        assert(r.in_step_with(Seq::empty()));
        r
    }

    /// Registers a variable of value `value` and returns its index, the next
    /// one in order. Earlier variables keep theirs.
    pub fn add_variable(&mut self, value: FieldElement) -> (index: usize)
        ensures
            old(self).wf() ==> final(self).wf(),
            index == old(self).variables@.len(),
            final(self).variables@.len() == index + 1,
            final(self).variables@[index as int].index == index,
            final(self).variables@[index as int].value@ == value@,
            forall|i: int|
                0 <= i < index ==> final(self).variables@[i] == old(self).variables@[i],
            final(self).constraints == old(self).constraints,
            final(self).qap == old(self).qap,
            old(self).in_step() ==> final(self).in_step(),
    {
        let index = self.variables.len();
        self.variables.push(Variable { index, value });
        proof {
            if old(self).in_step() {
                let moduli = choose|moduli: Seq<int>| #[trigger] old(self).in_step_with(moduli);
                assert(self.in_step_with(moduli));
            }
        }
        index
    }

    /// One combination as a constraint keeps it.
    fn stored_terms(&self, terms: &[(usize, FieldElement)]) -> (r: Vec<(Variable, Integer)>)
        requires
            combination_below(term_models(terms@), self.variables@.len() as int),
        ensures
            records(self.variables@, term_models(terms@), r@),
    {
        let mut stored: Vec<(Variable, Integer)> = Vec::new();
        let n = terms.len();
        let mut j: usize = 0;
        while j < n
            invariant
                n == terms@.len(),
                j <= n,
                combination_below(term_models(terms@), self.variables@.len() as int),
                stored@.len() == j,
                records(self.variables@, term_models(terms@).take(j as int), stored@),
            decreases n - j,
        {
            let term = &terms[j];
            assert(term_models(terms@)[j as int] == (term.0, term.1@));
            let variable = self.variables[term.0].clone();
            stored.push((variable, term.1.get_value()));
            j = j + 1;
        }
        assert(term_models(terms@).take(n as int) =~= term_models(terms@));
        stored
    }

    /// Adds the constraint whose stored sides are given, to the list and to
    /// the polynomial form, or to neither.
    fn record(
        &mut self,
        left_coeffs: &[(usize, FieldElement)],
        right_coeffs: &[(usize, FieldElement)],
        output_coeffs: &[(usize, FieldElement)],
        modulus: &Integer,
        left: Vec<(Variable, Integer)>,
        right: Vec<(Variable, Integer)>,
        output: Vec<(Variable, Integer)>,
        operation: Operation,
    ) -> (r: Result<(), ZkError>)
        requires
            old(self).names_variables(
                term_models(left_coeffs@),
                term_models(right_coeffs@),
                term_models(output_coeffs@),
            ),
            records(old(self).variables@, term_models(left_coeffs@), left@),
            records(old(self).variables@, term_models(right_coeffs@), right@),
            records(old(self).variables@, term_models(output_coeffs@), output@),
        ensures
            old(self).wf() ==> final(self).wf(),
            old(self).wf() && old(self).in_step() ==> final(self).in_step(),
            match r {
                Ok(_) => {
                    &&& old(self).qap.sides_fit(
                        term_models(left_coeffs@),
                        term_models(right_coeffs@),
                        term_models(output_coeffs@),
                        modulus@,
                    )
                    &&& old(self).extended_by(
                        final(self),
                        term_models(left_coeffs@),
                        term_models(right_coeffs@),
                        term_models(output_coeffs@),
                        modulus@,
                    )
                    &&& final(self).constraints@.last().left == left
                    &&& final(self).constraints@.last().right == right
                    &&& final(self).constraints@.last().output == output
                    &&& final(self).constraints@.last().operation == operation
                },
                Err(e) => {
                    &&& !old(self).qap.sides_fit(
                        term_models(left_coeffs@),
                        term_models(right_coeffs@),
                        term_models(output_coeffs@),
                        modulus@,
                    )
                    &&& e == ZkError::ModulusMismatch
                    &&& old(self).unchanged_in(final(self))
                },
            },
    {
        let ghost n = self.variables@.len() as int;
        match self.qap.add_constraint(left_coeffs, right_coeffs, output_coeffs, modulus) {
            Ok(_) => {},
            Err(e) => {
                proof {
                    if old(self).in_step() {
                        let moduli = choose|moduli: Seq<int>| #[trigger]
                            old(self).in_step_with(moduli);
                        assert(self.in_step_with(moduli));
                    }
                }
                return Err(e);
            },
        }
        proof {
            if old(self).wf() {
                assert(side_below(left@, n));
                assert(side_below(right@, n));
                assert(side_below(output@, n));
            }
        }
        let constraint = Constraint { left, right, output, operation };
        self.constraints.push(constraint);
        proof {
            assert(self.constraints@.drop_last() =~= old(self).constraints@);
            assert(self.constraints@.last() == constraint);
            if old(self).wf() && old(self).in_step() {
                let m = modulus@;
                let moduli = choose|moduli: Seq<int>| #[trigger] old(self).in_step_with(moduli);
                let longer = moduli.push(m);
                assert(longer.drop_last() =~= moduli);
                assert(term_models(left_coeffs@) =~= side_terms(left@, m));
                assert(term_models(right_coeffs@) =~= side_terms(right@, m));
                assert(term_models(output_coeffs@) =~= side_terms(output@, m));
                assert(self.in_step_with(longer));
            }
            if old(self).wf() {
                assert forall|i: int| 0 <= i < self.constraints@.len() implies (
                #[trigger] self.constraints@[i]).indices_below(n) by {
                    if i < old(self).constraints@.len() {
                        assert(self.constraints@[i] == old(self).constraints@[i]);
                    }
                }
            }
        }
        Ok(())
    }

    /// Adds a constraint made of three combinations over registered
    /// variables, in the field of modulus `modulus`, tagged `operation`. The
    /// constraint is appended to the list, each term with its variable as it
    /// now stands, and its coefficients are added to the polynomial form on
    /// top of what earlier constraints left there. Where a coefficient
    /// involved lies in another field, nothing is changed.
    pub fn add_constraint_with_operation(
        &mut self,
        left_coeffs: &[(usize, FieldElement)],
        right_coeffs: &[(usize, FieldElement)],
        output_coeffs: &[(usize, FieldElement)],
        modulus: &Integer,
        operation: Operation,
    ) -> (r: Result<(), ZkError>)
        requires
            old(self).names_variables(
                term_models(left_coeffs@),
                term_models(right_coeffs@),
                term_models(output_coeffs@),
            ),
        ensures
            old(self).wf() ==> final(self).wf(),
            old(self).wf() && old(self).in_step() ==> final(self).in_step(),
            match r {
                Ok(_) => {
                    &&& old(self).qap.sides_fit(
                        term_models(left_coeffs@),
                        term_models(right_coeffs@),
                        term_models(output_coeffs@),
                        modulus@,
                    )
                    &&& old(self).extended_by(
                        final(self),
                        term_models(left_coeffs@),
                        term_models(right_coeffs@),
                        term_models(output_coeffs@),
                        modulus@,
                    )
                    &&& final(self).constraints@.last().operation == operation
                },
                Err(e) => {
                    &&& !old(self).qap.sides_fit(
                        term_models(left_coeffs@),
                        term_models(right_coeffs@),
                        term_models(output_coeffs@),
                        modulus@,
                    )
                    &&& e == ZkError::ModulusMismatch
                    &&& old(self).unchanged_in(final(self))
                },
            },
    {
        let left = self.stored_terms(left_coeffs);
        let right = self.stored_terms(right_coeffs);
        let output = self.stored_terms(output_coeffs);
        self.record(
            left_coeffs,
            right_coeffs,
            output_coeffs,
            modulus,
            left,
            right,
            output,
            operation,
        )
    }

    /// Adds a constraint as `add_constraint_with_operation` does, with the
    /// operation read off the values that the variables now have: a product
    /// where the left side times the right side is the output, else a sum
    /// where the left side plus the right side is the output, else a
    /// product.
    pub fn add_constraint(
        &mut self,
        left_coeffs: &[(usize, FieldElement)],
        right_coeffs: &[(usize, FieldElement)],
        output_coeffs: &[(usize, FieldElement)],
        modulus: &Integer,
    ) -> (r: Result<(), ZkError>)
        requires
            old(self).names_variables(
                term_models(left_coeffs@),
                term_models(right_coeffs@),
                term_models(output_coeffs@),
            ),
        ensures
            old(self).wf() ==> final(self).wf(),
            old(self).wf() && old(self).in_step() ==> final(self).in_step(),
            match r {
                Ok(_) => {
                    &&& old(self).qap.sides_fit(
                        term_models(left_coeffs@),
                        term_models(right_coeffs@),
                        term_models(output_coeffs@),
                        modulus@,
                    )
                    &&& old(self).extended_by(
                        final(self),
                        term_models(left_coeffs@),
                        term_models(right_coeffs@),
                        term_models(output_coeffs@),
                        modulus@,
                    )
                    &&& final(self).constraints@.last().operation == inferred_operation(
                        stored_sum(final(self).constraints@.last().left@),
                        stored_sum(final(self).constraints@.last().right@),
                        stored_sum(final(self).constraints@.last().output@),
                    )
                },
                Err(e) => {
                    &&& !old(self).qap.sides_fit(
                        term_models(left_coeffs@),
                        term_models(right_coeffs@),
                        term_models(output_coeffs@),
                        modulus@,
                    )
                    &&& e == ZkError::ModulusMismatch
                    &&& old(self).unchanged_in(final(self))
                },
            },
    {
        let left = self.stored_terms(left_coeffs);
        let right = self.stored_terms(right_coeffs);
        let output = self.stored_terms(output_coeffs);
        let l = stored_total(&left);
        let r = stored_total(&right);
        let o = stored_total(&output);
        let operation = if l.times(&r).same_value(&o) {
            Operation::Mul
        } else if l.plus(&r).same_value(&o) {
            Operation::Add
        } else {
            Operation::Mul
        };
        self.record(
            left_coeffs,
            right_coeffs,
            output_coeffs,
            modulus,
            left,
            right,
            output,
            operation,
        )
    }

    /// The value of the polynomial form on the values of the variables. It
    /// is zero where those values satisfy the form.
    pub fn evaluate_qap(&self) -> (r: Result<Integer, ZkError>)
        requires
            self.qap.indices_below(self.variables@.len() as int),
        ensures
            match r {
                Ok(v) => self.qap.fields_agree(self.values()) && v@ == self.qap.value_on(
                    self.values(),
                ).value,
                Err(e) => !self.qap.fields_agree(self.values()) && e == ZkError::ModulusMismatch,
            },
    {
        let witness = self.generate_witness();
        assert(witness@.len() == models(witness@).len());
        match self.qap.evaluate(&witness) {
            Ok(value) => Ok(value.get_value()),
            Err(e) => Err(e),
        }
    }

    /// The proof for `witness` against this system.
    pub fn generate_proof(&self, witness: &Vec<FieldElement>) -> (r: Proof)
        ensures
            numbers(r.witness@) == residues(models(witness@)),
            r.commitment_matches(),
    {
        Proof::generate_proof(self, witness)
    }

    /// The values of all variables, in index order: the full witness.
    pub fn generate_witness(&self) -> (r: Vec<FieldElement>)
        ensures
            r@.len() == self.variables@.len(),
            models(r@) == self.values(),
    {
        let mut witness: Vec<FieldElement> = Vec::new();
        let n = self.variables.len();
        let mut i: usize = 0;
        while i < n
            invariant
                n == self.variables@.len(),
                i <= n,
                witness@.len() == i,
                forall|k: int|
                    0 <= k < i ==> (#[trigger] witness@[k])@ == self.variables@[k].value@,
            decreases n - i,
        {
            witness.push(self.variables[i].value.clone());
            i = i + 1;
        }
        assert(models(witness@) =~= self.values());
        witness
    }

    /// The modulus of the value that `witness` holds at the first term of
    /// the first side of `constraint` that has a term.
    fn checked_in<'a>(constraint: &Constraint, witness: &'a [FieldElement]) -> (r: Option<
        &'a Integer,
    >)
        requires
            constraint.indices_below(witness@.len() as int),
        ensures
            match r {
                Some(m) => m@ == constraint.modulus_on(models(witness@)) && m@ > 0,
                None => constraint.left@.len() == 0 && constraint.right@.len() == 0
                    && constraint.output@.len() == 0,
            },
    {
        let first = if constraint.left.len() > 0 {
            assert(constraint.left@[0].0.index < witness@.len());
            constraint.left[0].0.index
        } else if constraint.right.len() > 0 {
            assert(constraint.right@[0].0.index < witness@.len());
            constraint.right[0].0.index
        } else if constraint.output.len() > 0 {
            assert(constraint.output@[0].0.index < witness@.len());
            constraint.output[0].0.index
        } else {
            return None;
        };
        Some(witness[first].get_modulus())
    }

    /// Whether `witness` satisfies every constraint: on each, the values
    /// that the constraint reads must lie in one field, and the left, the
    /// right and the output side must have one value there. A constraint
    /// tagged with the reserved hash operation is never satisfied. With no
    /// constraint the answer is yes.
    pub fn verify_witness(&self, witness: &[FieldElement]) -> (r: bool)
        requires
            self.constraints_below(witness@.len() as int),
        ensures
            r == forall|i: int|
                0 <= i < self.constraints@.len() ==> (#[trigger] self.constraints@[i]).satisfied_by(
                    models(witness@),
                ),
    {
        let n = self.constraints.len();
        let mut i: usize = 0;
        while i < n
            invariant
                n == self.constraints@.len(),
                i <= n,
                self.constraints_below(witness@.len() as int),
                forall|k: int|
                    0 <= k < i ==> (#[trigger] self.constraints@[k]).satisfied_by(
                        models(witness@),
                    ),
            decreases n - i,
        {
            let constraint = &self.constraints[i];
            assert(self.constraints@[i as int].indices_below(witness@.len() as int));
            match constraint.operation {
                Operation::Hash => {
                    assert(!self.constraints@[i as int].satisfied_by(models(witness@)));
                    return false;
                },
                _ => {},
            }
            match R1CS::checked_in(constraint, witness) {
                None => {
                    assert(side_sum(constraint.left@, models(witness@)) == 0);
                    assert(side_sum(constraint.right@, models(witness@)) == 0);
                    assert(side_sum(constraint.output@, models(witness@)) == 0);
                },
                Some(modulus) => {
                    let left = side_total(&constraint.left, witness, modulus);
                    let right = side_total(&constraint.right, witness, modulus);
                    let output = side_total(&constraint.output, witness, modulus);
                    let holds = match (left, right, output) {
                        (Some(l), Some(r), Some(o)) => {
                            let left_eval = reduce(&l, modulus);
                            let right_eval = reduce(&r, modulus);
                            let output_eval = reduce(&o, modulus);
                            left_eval.same_value(&right_eval) && right_eval.same_value(
                                &output_eval,
                            )
                        },
                        _ => false,
                    };
                    if !holds {
                        assert(!self.constraints@[i as int].satisfied_by(models(witness@)));
                        return false;
                    }
                },
            }
            i = i + 1;
        }
        true
    }
}

/// The sum, over the terms of a combination, of the coefficient times the
/// value that `witness` holds at the index of the term.
pub open spec fn combination_sum(terms: Seq<(usize, FieldModel)>, witness: Seq<FieldModel>) -> int
    decreases terms.len(),
{
    if terms.len() == 0 {
        0
    } else {
        combination_sum(terms.drop_last(), witness) + term_product(
            witness[terms.last().0 as int],
            terms.last().1.value,
        )
    }
}

/// A side that was recorded from a combination has, on every witness, the
/// value of that combination: what `add_constraint` stores is what
/// `verify_witness` checks.
pub proof fn lemma_recorded_side(
    variables: Seq<Variable>,
    terms: Seq<(usize, FieldModel)>,
    stored: Seq<(Variable, Integer)>,
    witness: Seq<FieldModel>,
)
    requires
        forall|i: int| 0 <= i < variables.len() ==> (#[trigger] variables[i]).index == i,
        combination_below(terms, variables.len() as int),
        records(variables, terms, stored),
    ensures
        side_sum(stored, witness) == combination_sum(terms, witness),
    decreases terms.len(),
{
    if terms.len() > 0 {
        let last = terms.len() - 1;
        assert(terms[last].0 < variables.len());
        assert(stored[last].0.index == variables[terms[last].0 as int].index);
        let front = terms.drop_last();
        let kept = stored.drop_last();
        assert forall|j: int| 0 <= j < front.len() implies {
            &&& (#[trigger] kept[j]).0.index == variables[front[j].0 as int].index
            &&& kept[j].0.value@ == variables[front[j].0 as int].value@
            &&& kept[j].1@ == front[j].1.value
        } by {
            assert(stored[j].0.index == variables[terms[j].0 as int].index);
        }
        assert forall|j: int| 0 <= j < front.len() implies (#[trigger] front[j]).0
            < variables.len() by {
            assert(terms[j].0 < variables.len());
        }
        lemma_recorded_side(variables, front, kept, witness);
    }
}

/// Every value that `witness` holds at the index of a term of the
/// combination lies in the field of modulus `m`.
pub open spec fn combination_in_field(
    terms: Seq<(usize, FieldModel)>,
    witness: Seq<FieldModel>,
    m: int,
) -> bool {
    forall|j: int| 0 <= j < terms.len() ==> witness[(#[trigger] terms[j]).0 as int].modulus == m
}

/// A constraint that was just added is satisfied by a witness when it is
/// not tagged with the reserved hash operation, the values that the three
/// combinations read from the witness lie in one field, and the combinations
/// have one value there; and not otherwise.
pub proof fn lemma_added_constraint_satisfied(
    before: &R1CS,
    after: &R1CS,
    left: Seq<(usize, FieldModel)>,
    right: Seq<(usize, FieldModel)>,
    output: Seq<(usize, FieldModel)>,
    m: int,
    witness: Seq<FieldModel>,
)
    requires
        before.wf(),
        before.names_variables(left, right, output),
        before.extended_by(after, left, right, output, m),
    ensures
        after.constraints@.last().satisfied_by(witness) <==> {
            let p = after.constraints@.last().modulus_on(witness);
            &&& after.constraints@.last().operation != Operation::Hash
            &&& combination_in_field(left, witness, p)
            &&& combination_in_field(right, witness, p)
            &&& combination_in_field(output, witness, p)
            &&& combination_sum(left, witness) % p == combination_sum(right, witness) % p
            &&& combination_sum(right, witness) % p == combination_sum(output, witness) % p
        },
{
    let c = after.constraints@.last();
    let p = c.modulus_on(witness);
    lemma_recorded_side(before.variables@, left, c.left@, witness);
    lemma_recorded_side(before.variables@, right, c.right@, witness);
    lemma_recorded_side(before.variables@, output, c.output@, witness);
    lemma_recorded_field(before.variables@, left, c.left@, witness, p);
    lemma_recorded_field(before.variables@, right, c.right@, witness, p);
    lemma_recorded_field(before.variables@, output, c.output@, witness, p);
}

/// A side that was recorded from a combination reads the same values of a
/// witness as the combination.
proof fn lemma_recorded_field(
    variables: Seq<Variable>,
    terms: Seq<(usize, FieldModel)>,
    stored: Seq<(Variable, Integer)>,
    witness: Seq<FieldModel>,
    m: int,
)
    requires
        forall|i: int| 0 <= i < variables.len() ==> (#[trigger] variables[i]).index == i,
        combination_below(terms, variables.len() as int),
        records(variables, terms, stored),
    ensures
        side_in_field(stored, witness, m) <==> combination_in_field(terms, witness, m),
{
    assert forall|j: int| 0 <= j < terms.len() implies (#[trigger] stored[j]).0.index
        == terms[j].0 by {
        assert(terms[j].0 < variables.len());
        assert(stored[j].0.index == variables[terms[j].0 as int].index);
    }
    if side_in_field(stored, witness, m) {
        assert forall|j: int| 0 <= j < terms.len() implies witness[(
        #[trigger] terms[j]).0 as int].modulus == m by {
            assert(stored[j].0.index == terms[j].0);
        }
    }
    if combination_in_field(terms, witness, m) {
        assert forall|j: int| 0 <= j < stored.len() implies witness[(
        #[trigger] stored[j]).0.index as int].modulus == m by {
            assert(terms[j].0 == stored[j].0.index);
        }
    }
}

} // verus!
