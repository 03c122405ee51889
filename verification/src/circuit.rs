//! The circuit builder: inputs, gates over variable indices, and the
//! constraint system and proof that they compile to.
//!
//! The inputs become the first variables, in order. Each gate becomes one
//! constraint of unit coefficients over the three variables it names, tagged
//! with its own operation. A gate whose output is the next free index
//! derives that variable from its two operands. All of it takes place in the
//! field of the circuit: an input of another field is refused.

use crate::error::ZkError;
use crate::field::{
    field_add, field_mul, models, residue, FieldContext, FieldElement, FieldModel,
};
use crate::integer::{numbers, Integer, DEFAULT_MODULUS};
use crate::proofs::{residues, Proof};
use crate::qap::{accumulated, lemma_accumulated_twice, term_models};
use crate::r1cs::{Constraint, Operation, Variable, R1CS};
use vstd::prelude::*;

verus! {

/// A gate: what it computes, and the indices of its two operands and of its
/// output, in this order.
#[derive(Debug, Clone, Copy, PartialEq, Eq, Structural)]
pub enum Gate {
    /// The output is the sum of the operands.
    Add(usize, usize, usize),
    /// The output is the product of the operands.
    Mul(usize, usize, usize),
}

impl Gate {
    /// The index of the first operand.
    pub open spec fn left(self) -> usize {
        match self {
            Gate::Add(a, _, _) => a,
            Gate::Mul(a, _, _) => a,
        }
    }

    /// The index of the second operand.
    pub open spec fn right(self) -> usize {
        match self {
            Gate::Add(_, b, _) => b,
            Gate::Mul(_, b, _) => b,
        }
    }

    /// The index of the output.
    pub open spec fn output(self) -> usize {
        match self {
            Gate::Add(_, _, out) => out,
            Gate::Mul(_, _, out) => out,
        }
    }

    /// The tag of the constraint that a gate of this kind compiles to.
    pub open spec fn operation(self) -> Operation {
        match self {
            Gate::Add(_, _, _) => Operation::Add,
            Gate::Mul(_, _, _) => Operation::Mul,
        }
    }

    /// What a gate of this kind makes of two operands.
    pub open spec fn result(self, a: FieldModel, b: FieldModel) -> FieldModel {
        match self {
            Gate::Add(_, _, _) => field_add(a, b),
            Gate::Mul(_, _, _) => field_mul(a, b),
        }
    }

    /// With `count` variables registered, this gate names registered operands,
    /// and an output that is registered or the next to be.
    pub open spec fn fits(self, count: int) -> bool {
        self.left() < count && self.right() < count && self.output() <= count
    }
}

/// The number of variables after `gates` were compiled on top of `n`
/// variables: each gate whose output is the next free index adds one.
pub open spec fn variable_count(n: int, gates: Seq<Gate>) -> int
    decreases gates.len(),
{
    if gates.len() == 0 {
        n
    } else {
        let before = variable_count(n, gates.drop_last());
        if gates.last().output() == before {
            before + 1
        } else {
            before
        }
    }
}

/// Every gate fits the variables registered when its turn comes.
pub open spec fn gates_fit(n: int, gates: Seq<Gate>) -> bool {
    forall|k: int|
        0 <= k < gates.len() ==> (#[trigger] gates[k]).fits(variable_count(n, gates.take(k)))
}

/// The values of the variables after one gate: a gate whose output is the
/// next free index appends what it makes of its operands; any other gate
/// leaves the values as they are.
pub open spec fn derive_step(values: Seq<FieldModel>, gate: Gate) -> Seq<FieldModel> {
    if gate.output() == values.len() {
        values.push(gate.result(values[gate.left() as int], values[gate.right() as int]))
    } else {
        values
    }
}

/// The values of all variables after `gates` were compiled on top of
/// `inputs`.
pub open spec fn derived(inputs: Seq<FieldModel>, gates: Seq<Gate>) -> Seq<FieldModel>
    decreases gates.len(),
{
    if gates.len() == 0 {
        inputs
    } else {
        derive_step(derived(inputs, gates.drop_last()), gates.last())
    }
}

/// Every value lies in the field of modulus `m`.
pub open spec fn all_in_field(values: Seq<FieldModel>, m: int) -> bool {
    forall|i: int| 0 <= i < values.len() ==> (#[trigger] values[i]).modulus == m
}

/// The side of a constraint is the single term of unit coefficient, in the
/// field of modulus `m`, over the variable of index `index`.
pub open spec fn unit_side(
    side: Seq<(Variable, Integer)>,
    index: usize,
    values: Seq<FieldModel>,
    m: int,
) -> bool {
    &&& index < values.len()
    &&& side.len() == 1
    &&& side[0].0.index == index
    &&& side[0].0.value@ == values[index as int]
    &&& side[0].1@ == 1int % m
}

/// The constraint is what `gate` compiles to.
pub open spec fn gate_constraint(
    c: Constraint,
    gate: Gate,
    values: Seq<FieldModel>,
    m: int,
) -> bool {
    &&& c.operation == gate.operation()
    &&& unit_side(c.left@, gate.left(), values, m)
    &&& unit_side(c.right@, gate.right(), values, m)
    &&& unit_side(c.output@, gate.output(), values, m)
}

/// The unit terms that `gates` give to the left side of the polynomial form.
pub open spec fn left_terms(gates: Seq<Gate>, m: int) -> Seq<(usize, FieldModel)> {
    Seq::new(gates.len(), |k: int| (gates[k].left(), residue(1, m)))
}

/// The unit terms that `gates` give to the right side of the polynomial
/// form.
pub open spec fn right_terms(gates: Seq<Gate>, m: int) -> Seq<(usize, FieldModel)> {
    Seq::new(gates.len(), |k: int| (gates[k].right(), residue(1, m)))
}

/// The unit terms that `gates` give to the output side of the polynomial
/// form.
pub open spec fn output_terms(gates: Seq<Gate>, m: int) -> Seq<(usize, FieldModel)> {
    Seq::new(gates.len(), |k: int| (gates[k].output(), residue(1, m)))
}

/// `r1cs` is what `gates` compile to, in the field of modulus `m`: one
/// constraint for each gate, in order, and a polynomial form that holds the
/// unit coefficients of all of them.
pub open spec fn compiled(r1cs: &R1CS, gates: Seq<Gate>, m: int) -> bool {
    &&& r1cs.wf()
    &&& r1cs.in_step()
    &&& r1cs.constraints@.len() == gates.len()
    &&& forall|k: int|
        0 <= k < gates.len() ==> gate_constraint(
            #[trigger] r1cs.constraints@[k],
            gates[k],
            r1cs.values(),
            m,
        )
    &&& r1cs.qap.left@ == accumulated(Map::empty(), left_terms(gates, m), m)
    &&& r1cs.qap.right@ == accumulated(Map::empty(), right_terms(gates, m), m)
    &&& r1cs.qap.output@ == accumulated(Map::empty(), output_terms(gates, m), m)
}

/// What a circuit holds.
pub struct CircuitModel {
    pub inputs: Seq<FieldModel>,
    pub gates: Seq<Gate>,
    pub outputs: Seq<FieldModel>,
    pub modulus: int,
}

/// A circuit under construction.
pub struct Circuit {
    inputs: Vec<FieldElement>,
    gates: Vec<Gate>,
    outputs: Vec<FieldElement>,
    field: FieldContext,
}

impl View for Circuit {
    type V = CircuitModel;

    closed spec fn view(&self) -> CircuitModel {
        CircuitModel {
            inputs: models(self.inputs@),
            gates: self.gates@,
            outputs: models(self.outputs@),
            modulus: self.field.modulus(),
        }
    }
}

impl Circuit {
    /// Every gate fits the variables registered when its turn comes.
    pub open spec fn gates_fit(&self) -> bool {
        gates_fit(self@.inputs.len() as int, self@.gates)
    }

    /// The circuit without inputs or gates, over the default field.
    pub fn new() -> (r: Circuit)
        ensures
            r@.inputs.len() == 0,
            r@.gates.len() == 0,
            r@.outputs.len() == 0,
            r@.modulus == DEFAULT_MODULUS,
    {
        Circuit::with_field(FieldContext::default_field())
    }

    /// The circuit without inputs or gates, over `field`.
    pub fn with_field(field: FieldContext) -> (r: Circuit)
        ensures
            r@.inputs.len() == 0,
            r@.gates.len() == 0,
            r@.outputs.len() == 0,
            r@.modulus == field.modulus(),
    {
        Circuit { inputs: Vec::new(), gates: Vec::new(), outputs: Vec::new(), field }
    }

    /// Adds an input and returns its index, the next one in order.
    pub fn add_input(&mut self, value: FieldElement) -> (index: usize)
        ensures
            index == old(self)@.inputs.len(),
            final(self)@ == (CircuitModel {
                inputs: old(self)@.inputs.push(value@),
                ..old(self)@
            }),
    {
        let index = self.inputs.len();
        self.inputs.push(value);
        assert(models(self.inputs@) =~= models(old(self).inputs@).push(value@));
        index
    }

    /// Adds a gate after those already there.
    pub fn add_gate(&mut self, gate: Gate)
        ensures
            final(self)@ == (CircuitModel { gates: old(self)@.gates.push(gate), ..old(self)@ }),
    {
        self.gates.push(gate);
    }

    /// Records a value as an output of the circuit.
    pub fn set_output(&mut self, value: FieldElement)
        ensures
            final(self)@ == (CircuitModel {
                outputs: old(self)@.outputs.push(value@),
                ..old(self)@
            }),
    {
        self.outputs.push(value);
        assert(models(self.outputs@) =~= models(old(self).outputs@).push(value@));
    }

    /// The input of index `index`, if there is one.
    pub fn get_input(&self, index: usize) -> (r: Option<&FieldElement>)
        ensures
            match r {
                Some(value) => index < self@.inputs.len() && value@ == self@.inputs[index as int],
                None => index >= self@.inputs.len(),
            },
    {
        if index < self.inputs.len() {
            Some(&self.inputs[index])
        } else {
            None
        }
    }
}

/// The entries of a polynomial form that holds unit terms only lie in the
/// field of those terms, so one more unit term can be added to it.
proof fn lemma_unit_term_fits(
    terms: Seq<(usize, FieldModel)>,
    next: Seq<(usize, FieldModel)>,
    m: int,
)
    requires
        next.len() == 1,
        next[0].1.modulus == m,
    ensures
        crate::qap::terms_fit(accumulated(Map::empty(), terms, m), next, m),
{
}

impl Circuit {
    /// The system that holds the inputs as its variables, and nothing else.
    /// An input of another field than the circuit's is refused.
    fn register_inputs(&self) -> (r: Result<R1CS, ZkError>)
        ensures
            match r {
                Ok(r1cs) => {
                    &&& all_in_field(self@.inputs, self@.modulus)
                    &&& r1cs.values() == self@.inputs
                    &&& compiled(&r1cs, Seq::<Gate>::empty(), self@.modulus)
                },
                Err(e) => e == ZkError::ModulusMismatch && !all_in_field(
                    self@.inputs,
                    self@.modulus,
                ),
            },
    {
        let mut r1cs = R1CS::new();
        let n = self.inputs.len();
        let modulus = self.field.get_modulus();
        let mut i: usize = 0;
        while i < n
            invariant
                n == self.inputs@.len(),
                i <= n,
                modulus@ == self@.modulus,
                all_in_field(models(self.inputs@).take(i as int), self@.modulus),
                r1cs.wf(),
                r1cs.in_step(),
                r1cs.values() == models(self.inputs@).take(i as int),
                r1cs.constraints@.len() == 0,
                r1cs.qap.left@ == Map::<usize, FieldModel>::empty(),
                r1cs.qap.right@ == Map::<usize, FieldModel>::empty(),
                r1cs.qap.output@ == Map::<usize, FieldModel>::empty(),
            decreases n - i,
        {
            let ghost before = r1cs.values();
            if !self.inputs[i].get_modulus().same_value(modulus) {
                assert(models(self.inputs@)[i as int].modulus != self@.modulus);
                return Err(ZkError::ModulusMismatch);
            }
            r1cs.add_variable(self.inputs[i].clone());
            assert(r1cs.values() =~= before.push(self.inputs@[i as int]@));
            assert(r1cs.values() =~= models(self.inputs@).take(i + 1));
            i = i + 1;
        }
        proof {
            let m = self@.modulus;
            assert(models(self.inputs@).take(n as int) =~= models(self.inputs@));
            let none = Seq::<Gate>::empty();
            assert(r1cs.qap.left@ =~= accumulated(Map::empty(), left_terms(none, m), m));
            assert(r1cs.qap.right@ =~= accumulated(Map::empty(), right_terms(none, m), m));
            assert(r1cs.qap.output@ =~= accumulated(Map::empty(), output_terms(none, m), m));
        }
        Ok(r1cs)
    }

    /// Registers the output of gate `k` where that gate derives it.
    fn derive_output(&self, r1cs: &mut R1CS, k: usize) -> (r: Result<(), ZkError>)
        requires
            k < self@.gates.len(),
            compiled(old(r1cs), self@.gates.take(k as int), self@.modulus),
            derived(self@.inputs, self@.gates.take(k as int)) == old(r1cs).values(),
            all_in_field(old(r1cs).values(), self@.modulus),
            self@.gates[k as int].fits(old(r1cs).variables@.len() as int),
        ensures
            r is Ok,
            compiled(final(r1cs), self@.gates.take(k as int), self@.modulus),
            derived(self@.inputs, self@.gates.take(k + 1)) == final(r1cs).values(),
            all_in_field(final(r1cs).values(), self@.modulus),
            self@.gates[k as int].output() < final(r1cs).variables@.len(),
            self@.gates[k as int].left() < final(r1cs).variables@.len(),
            self@.gates[k as int].right() < final(r1cs).variables@.len(),
            final(r1cs).variables@.len() as int == if self@.gates[k as int].output() == old(
                r1cs,
            ).variables@.len() {
                old(r1cs).variables@.len() as int + 1
            } else {
                old(r1cs).variables@.len() as int
            },
    {
        let gate = self.gates[k];
        let ghost gates = self@.gates.take(k as int);
        let ghost before = r1cs.values();
        let ghost m = self@.modulus;
        proof {
            assert(self@.gates.take(k + 1).drop_last() =~= gates);
            assert(self@.gates.take(k + 1).last() == gate);
        }
        let (a, b, out) = match gate {
            Gate::Add(a, b, out) => (a, b, out),
            Gate::Mul(a, b, out) => (a, b, out),
        };
        if out != r1cs.variables.len() {
            return Ok(());
        }
        assert(before[a as int].modulus == m && before[b as int].modulus == m);
        let value = match gate {
            Gate::Add(_, _, _) => r1cs.variables[a].value.add(&r1cs.variables[b].value),
            Gate::Mul(_, _, _) => r1cs.variables[a].value.mul(&r1cs.variables[b].value),
        };
        match value {
            Ok(v) => {
                r1cs.add_variable(v);
                proof {
                    assert(r1cs.values() =~= before.push(v@));
                    assert forall|j: int| 0 <= j < gates.len() implies gate_constraint(
                        #[trigger] r1cs.constraints@[j],
                        gates[j],
                        r1cs.values(),
                        m,
                    ) by {
                        assert(gate_constraint(old(r1cs).constraints@[j], gates[j], before, m));
                    }
                }
                Ok(())
            },
            Err(e) => Err(e),
        }
    }

    /// Adds the constraint of gate `k`, whose three variables are
    /// registered.
    fn constrain(&self, r1cs: &mut R1CS, k: usize) -> (r: Result<(), ZkError>)
        requires
            k < self@.gates.len(),
            compiled(old(r1cs), self@.gates.take(k as int), self@.modulus),
            self@.gates[k as int].output() < old(r1cs).variables@.len(),
            self@.gates[k as int].left() < old(r1cs).variables@.len(),
            self@.gates[k as int].right() < old(r1cs).variables@.len(),
        ensures
            r is Ok,
            compiled(final(r1cs), self@.gates.take(k + 1), self@.modulus),
            final(r1cs).variables == old(r1cs).variables,
    {
        let gate = self.gates[k];
        let ghost gates = self@.gates.take(k as int);
        let ghost longer = self@.gates.take(k + 1);
        let ghost m = self@.modulus;
        let modulus = self.field.get_modulus();
        let unit = self.field.element(Integer::one());
        let (a, b, out, operation) = match gate {
            Gate::Add(a, b, out) => (a, b, out, Operation::Add),
            Gate::Mul(a, b, out) => (a, b, out, Operation::Mul),
        };
        let left = vec![(a, unit.clone())];
        let right = vec![(b, unit.clone())];
        let output = vec![(out, unit)];
        proof {
            assert(term_models(left@)[0] == (a, unit@));
            assert(term_models(right@)[0] == (b, unit@));
            assert(term_models(output@)[0] == (out, unit@));
            lemma_unit_term_fits(left_terms(gates, m), term_models(left@), m);
            lemma_unit_term_fits(right_terms(gates, m), term_models(right@), m);
            lemma_unit_term_fits(output_terms(gates, m), term_models(output@), m);
            lemma_accumulated_twice(Map::empty(), left_terms(gates, m), term_models(left@), m);
            lemma_accumulated_twice(Map::empty(), right_terms(gates, m), term_models(right@), m);
            lemma_accumulated_twice(
                Map::empty(),
                output_terms(gates, m),
                term_models(output@),
                m,
            );
            assert(left_terms(gates, m) + term_models(left@) =~= left_terms(longer, m));
            assert(right_terms(gates, m) + term_models(right@) =~= right_terms(longer, m));
            assert(output_terms(gates, m) + term_models(output@) =~= output_terms(longer, m));
        }
        let added = r1cs.add_constraint_with_operation(
            left.as_slice(),
            right.as_slice(),
            output.as_slice(),
            modulus,
            operation,
        );
        proof {
            assert(r1cs.values() == old(r1cs).values());
            assert forall|j: int| 0 <= j < longer.len() implies gate_constraint(
                #[trigger] r1cs.constraints@[j],
                longer[j],
                r1cs.values(),
                m,
            ) by {
                if j < k {
                    assert(r1cs.constraints@[j] == r1cs.constraints@.drop_last()[j]);
                    assert(gate_constraint(
                        old(r1cs).constraints@[j],
                        gates[j],
                        old(r1cs).values(),
                        m,
                    ));
                } else {
                    assert(r1cs.constraints@[j] == r1cs.constraints@.last());
                }
            }
        }
        added
    }

    /// Whether every gate fits the variables registered when its turn
    /// comes, which is what `compile` and `generate_proof` ask for.
    pub fn gates_in_order(&self) -> (r: bool)
        ensures
            r == self.gates_fit(),
    {
        let n = self.gates.len();
        let mut count: u128 = self.inputs.len() as u128;
        let mut k: usize = 0;
        assert(self@.gates.take(0) =~= Seq::<Gate>::empty());
        while k < n
            invariant
                n == self@.gates.len(),
                k <= n,
                count == variable_count(self@.inputs.len() as int, self@.gates.take(k as int)),
                count <= usize::MAX + k,
                gates_fit(self@.inputs.len() as int, self@.gates.take(k as int)),
            decreases n - k,
        {
            let (a, b, out) = match self.gates[k] {
                Gate::Add(a, b, out) => (a, b, out),
                Gate::Mul(a, b, out) => (a, b, out),
            };
            proof {
                assert(self@.gates.take(k + 1).drop_last() =~= self@.gates.take(k as int));
                assert(self@.gates.take(k + 1).last() == self@.gates[k as int]);
            }
            if !((a as u128) < count && (b as u128) < count && (out as u128) <= count) {
                assert(!self@.gates[k as int].fits(count as int));
                return false;
            }
            proof {
                let shorter = self@.gates.take(k as int);
                let longer = self@.gates.take(k + 1);
                assert forall|j: int| 0 <= j < longer.len() implies (#[trigger] longer[j]).fits(
                    variable_count(self@.inputs.len() as int, longer.take(j)),
                ) by {
                    if j < k {
                        assert(longer.take(j) =~= shorter.take(j));
                        assert(longer[j] == shorter[j]);
                    } else {
                        assert(longer.take(j) =~= shorter);
                    }
                }
            }
            if out as u128 == count {
                count = count + 1;
            }
            k = k + 1;
        }
        assert(self@.gates.take(n as int) =~= self@.gates);
        true
    }

    /// The constraint system that the circuit compiles to. The inputs are
    /// its first variables. Each gate, in order, derives its output variable
    /// where that is the next free index, and adds one constraint of unit
    /// coefficients over its three variables, tagged with its operation.
    /// A circuit without inputs compiles to nothing, and neither does one
    /// with an input of another field than its own.
    pub fn compile(&self) -> (r: Result<R1CS, ZkError>)
        requires
            self.gates_fit(),
        ensures
            match r {
                Ok(r1cs) => {
                    &&& self@.inputs.len() > 0
                    &&& all_in_field(self@.inputs, self@.modulus)
                    &&& r1cs.values() == derived(self@.inputs, self@.gates)
                    &&& all_in_field(r1cs.values(), self@.modulus)
                    &&& compiled(&r1cs, self@.gates, self@.modulus)
                },
                Err(e) => if self@.inputs.len() == 0 {
                    e == ZkError::EmptyCircuit
                } else {
                    e == ZkError::ModulusMismatch && !all_in_field(self@.inputs, self@.modulus)
                },
            },
    {
        if self.inputs.len() == 0 {
            return Err(ZkError::EmptyCircuit);
        }
        let mut r1cs = match self.register_inputs() {
            Ok(r1cs) => r1cs,
            Err(e) => {
                return Err(e);
            },
        };
        let n = self.gates.len();
        let mut k: usize = 0;
        assert(self@.gates.take(0) =~= Seq::<Gate>::empty());
        while k < n
            invariant
                n == self@.gates.len(),
                k <= n,
                self@.inputs.len() > 0,
                self.gates_fit(),
                all_in_field(self@.inputs, self@.modulus),
                all_in_field(r1cs.values(), self@.modulus),
                compiled(&r1cs, self@.gates.take(k as int), self@.modulus),
                derived(self@.inputs, self@.gates.take(k as int)) == r1cs.values(),
                r1cs.variables@.len() == variable_count(
                    self@.inputs.len() as int,
                    self@.gates.take(k as int),
                ),
            decreases n - k,
        {
            proof {
                assert(self@.gates.take(k + 1).drop_last() =~= self@.gates.take(k as int));
                assert(self@.gates.take(k + 1).last() == self@.gates[k as int]);
                assert(self@.gates[k as int].fits(r1cs.variables@.len() as int));
            }
            match self.derive_output(&mut r1cs, k) {
                Ok(_) => {},
                Err(e) => {
                    return Err(e);
                },
            }
            match self.constrain(&mut r1cs, k) {
                Ok(_) => {},
                Err(e) => {
                    return Err(e);
                },
            }
            k = k + 1;
        }
        assert(self@.gates.take(n as int) =~= self@.gates);
        Ok(r1cs)
    }

    /// The constraint system that the circuit compiles to, and the proof
    /// for the values of its variables.
    pub fn generate_proof(&self) -> (r: Result<(R1CS, Proof), ZkError>)
        requires
            self.gates_fit(),
        ensures
            match r {
                Ok((r1cs, proof)) => {
                    &&& self@.inputs.len() > 0
                    &&& all_in_field(self@.inputs, self@.modulus)
                    &&& r1cs.values() == derived(self@.inputs, self@.gates)
                    &&& all_in_field(r1cs.values(), self@.modulus)
                    &&& compiled(&r1cs, self@.gates, self@.modulus)
                    &&& numbers(proof.witness@) == residues(r1cs.values())
                    &&& proof.commitment_matches()
                },
                Err(e) => if self@.inputs.len() == 0 {
                    e == ZkError::EmptyCircuit
                } else {
                    e == ZkError::ModulusMismatch && !all_in_field(self@.inputs, self@.modulus)
                },
            },
    {
        let r1cs = match self.compile() {
            Ok(r1cs) => r1cs,
            Err(e) => {
                return Err(e);
            },
        };
        let witness = r1cs.generate_witness();
        let proof = r1cs.generate_proof(&witness);
        Ok((r1cs, proof))
    }

    /// Checks a proof against the constraint system it was made for, as
    /// `Proof::verify_proof` does.
    pub fn verify_proof(&self, proof: &Proof, r1cs: &R1CS) -> (r: Result<bool, ZkError>)
        ensures
            r == proof.verdict(r1cs),
    {
        Proof::verify_proof(proof, r1cs)
    }
}

} // verus!
