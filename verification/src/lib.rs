//! Arithmetic circuits compiled to a rank-1 constraint system, with the
//! field arithmetic, polynomial encoding, witness checks and additive
//! commitments that go with it.
//!
//! The modules, leaves first:
//!
//! - [`integer`]: integers of unbounded size, computed by `num_bigint`;
//! - [`number_theory`]: divisibility and greatest common divisors;
//! - [`field`]: elements of the integers modulo `m`, and fields to build
//!   them in;
//! - [`qap`] and [`interpolation`]: sparse linear forms over the variables,
//!   three of which make the polynomial form of a constraint system, and
//!   Lagrange interpolation;
//! - [`r1cs`]: the constraint system itself;
//! - [`proofs`]: a witness with the commitment made to it;
//! - [`merkle`]: a tree of pairwise sums with paths to its root;
//! - [`circuit`]: the builder that compiles gates to constraints.
//!
//! Two rules run through the library. A constraint is always added to the
//! list of constraints and to the polynomial form at once. And arithmetic
//! stays in the field of its operands: a sum over a witness is taken in the
//! field that the values share, and values of two fields never meet in one
//! result. The default field, of modulus 1,000,000,007, is the field of what
//! `FieldElement::new` builds, and of a sum without terms.
//!
//! The commitment and the tree combine values by adding them modulo a fixed
//! prime. That shows the shape of the scheme and protects nothing: the
//! witness lies open in the proof, and witnesses of one sum share a
//! commitment.

pub mod circuit;
pub mod error;
pub mod field;
pub mod integer;
pub mod interpolation;
pub mod merkle;
pub mod number_theory;
pub mod proofs;
pub mod qap;
pub mod r1cs;
