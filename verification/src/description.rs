//! The user-facing circuit interface: a circuit description is a function
//! over abstract variables, run once in build mode to record gates and copy
//! constraints, and again in compute mode to produce advice values.

use vstd::prelude::*;
use crate::field::{fe_wf, interp_eval, interp_eval_of, is_pow2, Fe, MAX_DOMAIN_SIZE};
use crate::permutation::{chosen_cosets, CompiledPermutation};

verus! {

/// The capability set of a circuit variable: addition, multiplication, and
/// equality assertion, all against the mode's context.
pub trait Var: Sized + Clone {
    /// The recording or evaluation state the variable representation needs.
    type Ctx;

    fn add(self, ctx: &mut Self::Ctx, rhs: Self) -> Self;

    fn mul(self, ctx: &mut Self::Ctx, rhs: Self) -> Self;

    fn assert_eq(&self, ctx: &mut Self::Ctx, other: &Self);
}

/// Marker trait for variable representations.
pub trait VariableTrait: Sized {

}

/// A user circuit with `INPUTS` inputs, polymorphic over the variable
/// representation. `CircuitBuilder::compile` records it in build mode and
/// compiles the result.
pub trait CircuitDescription<const INPUTS: usize>: Sized {
    fn run<V: Var>(ctx: &mut V::Ctx, inputs: Vec<V>)
        requires
            inputs@.len() == INPUTS,
    ;
}

/// The five selector columns of a compiled circuit.
#[derive(Debug)]
pub struct GateConstrains {
    pub q_l: Vec<Fe>,
    pub q_r: Vec<Fe>,
    pub q_o: Vec<Fe>,
    pub q_m: Vec<Fe>,
    pub q_c: Vec<Fe>,
}

impl GateConstrains {
    /// Each column has one well-formed entry per row.
    pub open spec fn wf(self, rows: nat) -> bool {
        &&& self.q_l@.len() == rows
        &&& self.q_r@.len() == rows
        &&& self.q_o@.len() == rows
        &&& self.q_m@.len() == rows
        &&& self.q_c@.len() == rows
        &&& forall|j: int| 0 <= j < rows ==> fe_wf(#[trigger] self.q_l@[j])
        &&& forall|j: int| 0 <= j < rows ==> fe_wf(#[trigger] self.q_r@[j])
        &&& forall|j: int| 0 <= j < rows ==> fe_wf(#[trigger] self.q_o@[j])
        &&& forall|j: int| 0 <= j < rows ==> fe_wf(#[trigger] self.q_m@[j])
        &&& forall|j: int| 0 <= j < rows ==> fe_wf(#[trigger] self.q_c@[j])
    }
}

/// A compiled circuit: selector columns, compiled copy constraints, and the
/// padded row count (the evaluation-domain size).
#[derive(Debug)]
pub struct CompiledCircuit {
    pub gate_constrains: GateConstrains,
    pub copy_constrains: CompiledPermutation,
    pub rows: usize,
}

impl CompiledCircuit {
    /// Shape of a compiled circuit: a two-power domain of at least four rows
    /// with matching selector and sigma data, over honestly chosen cosets.
    pub open spec fn wf(self) -> bool {
        &&& is_pow2(self.rows as nat)
        &&& 4 <= self.rows <= MAX_DOMAIN_SIZE
        &&& self.gate_constrains.wf(self.rows as nat)
        &&& self.copy_constrains.wf()
        &&& self.copy_constrains.rows() == self.rows
        &&& chosen_cosets(self.copy_constrains.cosets@, self.rows as int)
    }

    /// The value at `point` of the polynomial interpolating each selector
    /// column over the domain, in the order `(q_L, q_R, q_O, q_M, q_C)`.
    pub fn selector_evals(&self, point: &Fe) -> (r: Vec<Fe>)
        requires
            self.wf(),
            fe_wf(*point),
        ensures
            r@.len() == 5,
            r@[0] == interp_eval_of(self.gate_constrains.q_l@, self.rows as int, *point),
            r@[1] == interp_eval_of(self.gate_constrains.q_r@, self.rows as int, *point),
            r@[2] == interp_eval_of(self.gate_constrains.q_o@, self.rows as int, *point),
            r@[3] == interp_eval_of(self.gate_constrains.q_m@, self.rows as int, *point),
            r@[4] == interp_eval_of(self.gate_constrains.q_c@, self.rows as int, *point),
    {
        let mut out: Vec<Fe> = Vec::new();
        out.push(interp_eval(&self.gate_constrains.q_l, self.rows, point));
        out.push(interp_eval(&self.gate_constrains.q_r, self.rows, point));
        out.push(interp_eval(&self.gate_constrains.q_o, self.rows, point));
        out.push(interp_eval(&self.gate_constrains.q_m, self.rows, point));
        out.push(interp_eval(&self.gate_constrains.q_c, self.rows, point));
        out
    }
}

} // verus!
