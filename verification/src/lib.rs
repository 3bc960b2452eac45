//! A PLONK-style arithmetic-circuit front end: a circuit builder that records
//! add/multiply gates over symbolic variables, a permutation builder that
//! resolves copy constraints between cells with a union-find over permutation
//! cycles, and a compiler that turns the resolved permutation into the sigma
//! column data used by the copy-constraint argument.

use vstd::prelude::*;

pub mod builder;
pub mod cycles;
pub mod description;
pub mod field;
pub mod permutation;
pub mod words;

verus! {

/// Errors surfaced by circuit compilation.
#[derive(Clone, Copy, Debug, PartialEq, Eq, Structural)]
pub enum PlonkError {
    /// A copy constraint referred to a cell outside the circuit matrix.
    InvalidTag,
    /// An equality was asserted on a variable that no gate ever placed.
    UnresolvedVariable,
    /// The padded gate count exceeds the largest supported evaluation domain.
    DomainTooLarge,
    /// No coset offset could be found in the searched range.
    CosetExhausted,
}

} // verus!
