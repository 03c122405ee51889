//! Proofs: a witness laid open, and a commitment that binds to its sum.
//!
//! The commitment is the sum of the witness values reduced by a fixed prime.
//! It hides nothing, and two witnesses of one sum share it: it shows the
//! shape of a commitment and is no cryptographic one.

use crate::error::ZkError;
use crate::field::{models, FieldElement, FieldModel};
use crate::integer::{numbers, trunc_rem, Integer, DEFAULT_MODULUS};
use crate::number_theory::lemma_trunc_rem_residue;
use crate::r1cs::{stored_sum, stored_total, Constraint, Operation, R1CS};
use vstd::arithmetic::div_mod::{lemma_mod_equivalence, lemma_mod_multiples_vanish};
use vstd::prelude::*;

verus! {

/// The combiner behind the commitment: the sum of `a` and `b`, reduced by
/// the default modulus with the sign of the sum kept.
pub open spec fn combine(a: int, b: int) -> int {
    trunc_rem(a + b, DEFAULT_MODULUS as int)
}

/// The sum of `values`, as an integer.
pub open spec fn total(values: Seq<int>) -> int
    decreases values.len(),
{
    if values.len() == 0 {
        0
    } else {
        total(values.drop_last()) + values.last()
    }
}

/// The commitment to the witness `values`.
pub open spec fn commitment_of(values: Seq<int>) -> int {
    combine(total(values), 0)
}

/// The residues of a sequence of field elements.
pub open spec fn residues(elements: Seq<FieldModel>) -> Seq<int> {
    elements.map_values(|e: FieldModel| e.value)
}

/// What the check of one constraint against its stored values gives: whether
/// the sums of its sides stand in the relation that its operation names, or
/// that the operation is not supported.
pub open spec fn constraint_verdict(c: Constraint) -> Result<bool, ZkError> {
    let left = stored_sum(c.left@);
    let right = stored_sum(c.right@);
    let output = stored_sum(c.output@);
    match c.operation {
        Operation::Add => Ok(left + right == output),
        Operation::Mul => Ok(left * right == output),
        Operation::Hash => Err(ZkError::UnsupportedOperation),
    }
}

/// What the check of a list of constraints gives: the verdict of the first
/// constraint that does not hold or is not supported, and `Ok(true)` where
/// there is none.
pub open spec fn constraints_verdict(constraints: Seq<Constraint>) -> Result<bool, ZkError>
    decreases constraints.len(),
{
    if constraints.len() == 0 {
        Ok(true)
    } else {
        match constraint_verdict(constraints[0]) {
            Ok(true) => constraints_verdict(constraints.drop_first()),
            other => other,
        }
    }
}

/// A witness with the commitment made to it.
#[derive(Debug)]
pub struct Proof {
    /// The values of all variables, as plain integers.
    pub witness: Vec<Integer>,
    /// The commitment to the witness.
    pub commitment: Integer,
}

impl Proof {
    /// The stored commitment is the one that the stored witness gives.
    pub open spec fn commitment_matches(&self) -> bool {
        self.commitment@ == commitment_of(numbers(self.witness@))
    }

    /// What `verify_proof` returns: `Ok(false)` where the commitment does
    /// not match, else the verdict of the constraints.
    pub open spec fn verdict(&self, r1cs: &R1CS) -> Result<bool, ZkError> {
        if self.commitment_matches() {
            constraints_verdict(r1cs.constraints@)
        } else {
            Ok(false)
        }
    }

    /// The combiner of the commitment.
    fn hash(left: &Integer, right: &Integer) -> (r: Integer)
        ensures
            r@ == combine(left@, right@),
    {
        let combined = left.plus(right);
        combined.remainder(&Integer::default_modulus())
    }

    /// The commitment to `witness`.
    fn commit(witness: &Vec<Integer>) -> (r: Integer)
        ensures
            r@ == commitment_of(numbers(witness@)),
    {
        let mut commitment_input = Integer::zero();
        let n = witness.len();
        let mut i: usize = 0;
        assert(numbers(witness@).take(0).len() == 0);
        while i < n
            invariant
                n == witness@.len(),
                i <= n,
                commitment_input@ == total(numbers(witness@).take(i as int)),
            decreases n - i,
        {
            proof {
                let shorter = numbers(witness@).take(i as int);
                let longer = numbers(witness@).take(i + 1);
                assert(longer.drop_last() =~= shorter);
                assert(longer.last() == witness@[i as int]@);
            }
            commitment_input = commitment_input.plus(&witness[i]);
            i = i + 1;
        }
        assert(numbers(witness@).take(n as int) =~= numbers(witness@));
        Proof::hash(&commitment_input, &Integer::zero())
    }

    /// The proof for `witness`: its residues, unmasked, and the commitment
    /// to them.
    pub fn generate_proof(_r1cs: &R1CS, witness: &Vec<FieldElement>) -> (r: Proof)
        ensures
            numbers(r.witness@) == residues(models(witness@)),
            r.commitment_matches(),
    {
        let mut values: Vec<Integer> = Vec::new();
        let n = witness.len();
        let mut i: usize = 0;
        while i < n
            invariant
                n == witness@.len(),
                i <= n,
                values@.len() == i,
                forall|k: int| 0 <= k < i ==> (#[trigger] values@[k])@ == witness@[k]@.value,
            decreases n - i,
        {
            values.push(witness[i].get_value());
            i = i + 1;
        }
        assert(numbers(values@) =~= residues(models(witness@)));
        let commitment = Proof::commit(&values);
        Proof { witness: values, commitment }
    }

    /// Checks a proof against a constraint system. The commitment is made
    /// anew from the witness of the proof; where it differs from the stored
    /// one the answer is `Ok(false)`. Else the constraints are taken in
    /// order, each on the values stored with its variables: a sum must have
    /// left plus right equal to the output, a product left times right. The
    /// first that fails gives `Ok(false)`; one tagged with the reserved hash
    /// operation gives `UnsupportedOperation`.
    pub fn verify_proof(proof: &Proof, r1cs: &R1CS) -> (r: Result<bool, ZkError>)
        ensures
            r == proof.verdict(r1cs),
    {
        let expected_commitment = Proof::commit(&proof.witness);
        if !proof.commitment.same_value(&expected_commitment) {
            return Ok(false);
        }
        let n = r1cs.constraints.len();
        let mut i: usize = 0;
        assert(r1cs.constraints@.skip(0) =~= r1cs.constraints@);
        while i < n
            invariant
                n == r1cs.constraints@.len(),
                i <= n,
                proof.commitment_matches(),
                constraints_verdict(r1cs.constraints@) == constraints_verdict(
                    r1cs.constraints@.skip(i as int),
                ),
            decreases n - i,
        {
            let constraint = &r1cs.constraints[i];
            proof {
                let rest = r1cs.constraints@.skip(i as int);
                assert(rest[0] == r1cs.constraints@[i as int]);
                assert(rest.drop_first() =~= r1cs.constraints@.skip(i + 1));
            }
            let left_eval = stored_total(&constraint.left);
            let right_eval = stored_total(&constraint.right);
            let output_eval = stored_total(&constraint.output);
            match constraint.operation {
                Operation::Add => {
                    if !left_eval.plus(&right_eval).same_value(&output_eval) {
                        return Ok(false);
                    }
                },
                Operation::Mul => {
                    if !left_eval.times(&right_eval).same_value(&output_eval) {
                        return Ok(false);
                    }
                },
                Operation::Hash => {
                    return Err(ZkError::UnsupportedOperation);
                },
            }
            i = i + 1;
        }
        Ok(true)
    }
}

impl Proof {
    /// As `verify_proof`, with a proof that does not hold reported as
    /// `ConstraintUnsatisfied`.
    pub fn require_valid(proof: &Proof, r1cs: &R1CS) -> (r: Result<(), ZkError>)
        ensures
            match r {
                Ok(_) => proof.verdict(r1cs) == Ok::<bool, ZkError>(true),
                Err(e) => match proof.verdict(r1cs) {
                    Ok(holds) => !holds && e == ZkError::ConstraintUnsatisfied,
                    Err(cause) => e == cause,
                },
            },
    {
        match Proof::verify_proof(proof, r1cs) {
            Ok(true) => Ok(()),
            Ok(false) => Err(ZkError::ConstraintUnsatisfied),
            Err(e) => Err(e),
        }
    }
}

/// The sum of a witness in which one value was replaced moves by the
/// difference of the two values.
pub proof fn lemma_total_update(values: Seq<int>, i: int, v: int)
    requires
        0 <= i < values.len(),
    ensures
        total(values.update(i, v)) == total(values) + v - values[i],
    decreases values.len(),
{
    let changed = values.update(i, v);
    if i == values.len() - 1 {
        assert(changed.drop_last() =~= values.drop_last());
    } else {
        assert(changed.drop_last() =~= values.drop_last().update(i, v));
        lemma_total_update(values.drop_last(), i, v);
    }
}

/// Two sums have one commitment only where their difference is a multiple of
/// the default modulus.
pub proof fn lemma_commitment_collision(a: int, b: int)
    requires
        combine(a, 0) == combine(b, 0),
    ensures
        (a - b) % (DEFAULT_MODULUS as int) == 0,
{
    let p = DEFAULT_MODULUS as int;
    lemma_trunc_rem_residue(a, p);
    lemma_trunc_rem_residue(b, p);
    let t = trunc_rem(a, p);
    if t < 0 {
        lemma_mod_multiples_vanish(1, t, p);
    }
    assert(a % p == b % p);
    lemma_mod_equivalence(a, b, p);
}

/// A witness that was changed in one place no longer fits the commitment
/// made to it, unless the value moved by a multiple of the default modulus.
pub proof fn lemma_tampered_witness(values: Seq<int>, i: int, v: int)
    requires
        0 <= i < values.len(),
        (v - values[i]) % (DEFAULT_MODULUS as int) != 0,
    ensures
        commitment_of(values.update(i, v)) != commitment_of(values),
{
    lemma_total_update(values, i, v);
    if commitment_of(values.update(i, v)) == commitment_of(values) {
        lemma_commitment_collision(total(values.update(i, v)), total(values));
    }
}

/// The check of a list of constraints gives `Ok(true)` where every
/// constraint holds and is supported, and only there.
pub proof fn lemma_verdict_true(constraints: Seq<Constraint>)
    ensures
        constraints_verdict(constraints) == Ok::<bool, ZkError>(true) <==> forall|i: int|
            0 <= i < constraints.len() ==> constraint_verdict(#[trigger] constraints[i]) == Ok::<
                bool,
                ZkError,
            >(true),
    decreases constraints.len(),
{
    if constraints.len() > 0 {
        let rest = constraints.drop_first();
        lemma_verdict_true(rest);
        if constraints_verdict(constraints) == Ok::<bool, ZkError>(true) {
            assert forall|i: int| 0 <= i < constraints.len() implies constraint_verdict(
                #[trigger] constraints[i],
            ) == Ok::<bool, ZkError>(true) by {
                if i > 0 {
                    assert(constraints[i] == rest[i - 1]);
                }
            }
        } else {
            if constraint_verdict(constraints[0]) == Ok::<bool, ZkError>(true) {
                let k = choose|k: int|
                    0 <= k < rest.len() && constraint_verdict(#[trigger] rest[k]) != Ok::<
                        bool,
                        ZkError,
                    >(true);
                assert(constraints[k + 1] == rest[k]);
            }
        }
    }
}

/// The first constraint that does not hold, or is not supported, decides the
/// check of the list: after constraints that all hold, a constraint that
/// fails gives `Ok(false)`, and one tagged with the reserved hash operation
/// gives `UnsupportedOperation`.
pub proof fn lemma_first_failure_decides(constraints: Seq<Constraint>, k: int)
    requires
        0 <= k < constraints.len(),
        forall|i: int|
            0 <= i < k ==> constraint_verdict(#[trigger] constraints[i]) == Ok::<bool, ZkError>(
                true,
            ),
        constraint_verdict(constraints[k]) != Ok::<bool, ZkError>(true),
    ensures
        constraints_verdict(constraints) == constraint_verdict(constraints[k]),
        constraints[k].operation == Operation::Hash ==> constraints_verdict(constraints) == Err::<
            bool,
            ZkError,
        >(ZkError::UnsupportedOperation),
    decreases constraints.len(),
{
    if k > 0 {
        let rest = constraints.drop_first();
        assert(constraint_verdict(constraints[0]) == Ok::<bool, ZkError>(true));
        assert forall|i: int| 0 <= i < k - 1 implies constraint_verdict(#[trigger] rest[i])
            == Ok::<bool, ZkError>(true) by {
            assert(rest[i] == constraints[i + 1]);
        }
        assert(rest[k - 1] == constraints[k]);
        lemma_first_failure_decides(rest, k - 1);
    }
}

/// A proof whose commitment matches its witness verifies against every
/// system whose constraints all hold and are supported.
pub proof fn lemma_matching_proof_verifies(proof: &Proof, r1cs: &R1CS)
    requires
        proof.commitment_matches(),
        forall|i: int|
            0 <= i < r1cs.constraints@.len() ==> constraint_verdict(
                #[trigger] r1cs.constraints@[i],
            ) == Ok::<bool, ZkError>(true),
    ensures
        proof.verdict(r1cs) == Ok::<bool, ZkError>(true),
{
    lemma_verdict_true(r1cs.constraints@);
}

/// A proof whose witness was changed in one place after the commitment was
/// made is rejected, whatever the constraints say, unless the value moved by
/// a multiple of the default modulus.
pub proof fn lemma_tampered_proof_rejected(
    proof: &Proof,
    tampered: &Proof,
    r1cs: &R1CS,
    i: int,
)
    requires
        proof.commitment_matches(),
        tampered.commitment@ == proof.commitment@,
        0 <= i < proof.witness@.len(),
        tampered.witness@.len() == proof.witness@.len(),
        forall|k: int|
            0 <= k < proof.witness@.len() && k != i ==> (#[trigger] tampered.witness@[k])@
                == proof.witness@[k]@,
        (tampered.witness@[i]@ - proof.witness@[i]@) % (DEFAULT_MODULUS as int) != 0,
    ensures
        tampered.verdict(r1cs) == Ok::<bool, ZkError>(false),
{
    let values = numbers(proof.witness@);
    assert(numbers(tampered.witness@) =~= values.update(i, tampered.witness@[i]@));
    lemma_tampered_witness(values, i, tampered.witness@[i]@);
}

} // verus!
