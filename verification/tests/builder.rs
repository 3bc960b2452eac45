// Circuit recording: gates, variable placement, copy constraints, padding,
// and the two evaluation modes.

use plonk::builder::{
    Advice, BuildVar, ComputeVar, Context, EvalContext, Gate, GateOperation, Variable,
};
use plonk::description::{CircuitDescription, Var};
use plonk::field::Fe;
use plonk::PlonkError;

#[test]
fn test1() {
    let context = Context::default();
    println!("context: {:?}", &context);
}

fn non_dummy(gates: &Vec<Gate>) -> Vec<Gate> {
    let mut out = Vec::new();
    for g in gates {
        if *g != Gate::Dummy {
            out.push(*g);
        }
    }
    out
}

// One multiplication: one Mul gate, padded to four rows, identity permutation.
#[test]
fn single_multiplication() {
    let mut ctx = Context::default();
    let a = BuildVar::input(&mut ctx);
    let b = BuildVar::input(&mut ctx);
    let _c = a.binary_operation(&b, GateOperation::Mul, &mut ctx);
    let (gates, mut pb) = ctx.finish().unwrap();
    assert_eq!(gates.len(), 4);
    assert_eq!(non_dummy(&gates), vec![Gate::Mul]);
    let perm = pb.build(gates.len());
    let values = perm.values();
    assert_eq!(values.len(), 12);
    for (i, v) in values.iter().enumerate() {
        assert_eq!(*v, i);
    }
}

// Shared inputs across two gates: reusing a and b links their two cells in
// column zero and column one respectively.
#[test]
fn shared_inputs_two_gates() {
    let mut ctx = Context::default();
    let a = BuildVar::input(&mut ctx);
    let b = BuildVar::input(&mut ctx);
    let _t = a.binary_operation(&b, GateOperation::Sum, &mut ctx);
    let _u = a.binary_operation(&b, GateOperation::Mul, &mut ctx);
    let (gates, mut pb) = ctx.finish().unwrap();
    assert_eq!(gates.len(), 8); // 2 + 3 rounded up to a power of two
    assert_eq!(non_dummy(&gates), vec![Gate::Add, Gate::Mul]);
    let rows = gates.len();
    let perm = pb.build(rows);
    let values = perm.values().clone();
    // a occupies (0,0) and (0,1): flat indices 0 and 1 swap.
    assert_eq!(values[0], 1);
    assert_eq!(values[1], 0);
    // b occupies (1,0) and (1,1): flat indices rows and rows + 1 swap.
    assert_eq!(values[rows], rows + 1);
    assert_eq!(values[rows + 1], rows);
    // every other cell is a fixed point.
    for i in 0..values.len() {
        if i != 0 && i != 1 && i != rows && i != rows + 1 {
            assert_eq!(values[i], i);
        }
    }
}

// Asserting equality of two outputs links the two output cells.
#[test]
fn assert_equal_outputs() {
    let mut ctx = Context::default();
    let a = BuildVar::input(&mut ctx);
    let b = BuildVar::input(&mut ctx);
    let t1 = a.binary_operation(&b, GateOperation::Sum, &mut ctx);
    let t2 = a.binary_operation(&b, GateOperation::Sum, &mut ctx);
    t1.assert_eq(&mut ctx, &t2);
    let (gates, mut pb) = ctx.finish().unwrap();
    assert_eq!(non_dummy(&gates), vec![Gate::Add, Gate::Add]);
    let rows = gates.len();
    let perm = pb.build(rows);
    let values = perm.values().clone();
    // outputs at (2,0) and (2,1): flat indices 2 * rows and 2 * rows + 1.
    assert_eq!(values[2 * rows], 2 * rows + 1);
    assert_eq!(values[2 * rows + 1], 2 * rows);
    // the input-sharing cycles of the previous scenario are still there.
    assert_eq!(values[0], 1);
    assert_eq!(values[1], 0);
    assert_eq!(values[rows], rows + 1);
    assert_eq!(values[rows + 1], rows);
}

// An equality asserted before either side is placed is deferred and resolved
// at finish time.
#[test]
fn pending_equality_resolved() {
    let mut ctx = Context::default();
    let a = BuildVar::input(&mut ctx);
    let b = BuildVar::input(&mut ctx);
    a.assert_eq(&mut ctx, &b);
    let _c = a.binary_operation(&b, GateOperation::Sum, &mut ctx);
    let (gates, mut pb) = ctx.finish().unwrap();
    let rows = gates.len();
    let perm = pb.build(rows);
    let values = perm.values().clone();
    // a at (0,0) and b at (1,0): flat indices 0 and rows swap.
    assert_eq!(values[0], rows);
    assert_eq!(values[rows], 0);
}

// An equality on variables that no gate ever places cannot be resolved.
#[test]
fn unresolved_variable_reported() {
    let mut ctx = Context::default();
    let a = BuildVar::input(&mut ctx);
    let b = BuildVar::input(&mut ctx);
    a.assert_eq(&mut ctx, &b);
    match ctx.finish() {
        Err(PlonkError::UnresolvedVariable) => {},
        other => panic!("expected an unresolved variable, got {:?}", other),
    }
}

// Compute mode evaluates the gates and accumulates aligned advice columns.
#[test]
fn compute_mode_advice() {
    let mut advice = Advice::new();
    let a = ComputeVar::from_u64(3);
    let b = ComputeVar::from_u64(4);
    let s = a.binary_operation(&b, GateOperation::Sum, &mut advice);
    let p = a.binary_operation(&b, GateOperation::Mul, &mut advice);
    assert_eq!(s.value(), Fe::from_u64(7));
    assert_eq!(p.value(), Fe::from_u64(12));
    assert_eq!(advice.rows(), 2);
    let (ca, cb, cc) = advice.columns();
    assert_eq!(ca, &vec![Fe::from_u64(3), Fe::from_u64(3)]);
    assert_eq!(cb, &vec![Fe::from_u64(4), Fe::from_u64(4)]);
    assert_eq!(cc, &vec![Fe::from_u64(7), Fe::from_u64(12)]);
}

// A circuit polymorphic over the variable representation: two inputs, their
// sum, their product, and an equality between the product and itself.
struct SumProduct;

impl CircuitDescription<2> for SumProduct {
    fn run<V: Var>(ctx: &mut V::Ctx, inputs: Vec<V>) {
        let a = inputs[0].clone();
        let b = inputs[1].clone();
        let _t = a.clone().add(ctx, b.clone());
        let u = a.mul(ctx, b);
        u.assert_eq(ctx, &u.clone());
    }
}

// The same circuit run in both modes records as many gates as it produces
// advice triples.
#[test]
fn build_and_compute_align() {
    let mut ctx = Context::default();
    let inputs = vec![BuildVar::input(&mut ctx), BuildVar::input(&mut ctx)];
    SumProduct::run::<BuildVar>(&mut ctx, inputs);
    let (gates, _pb) = ctx.finish().unwrap();
    let recorded = non_dummy(&gates).len();

    let mut advice = Advice::new();
    let inputs = vec![ComputeVar::from_u64(5), ComputeVar::from_u64(9)];
    SumProduct::run::<ComputeVar>(&mut advice, inputs);
    assert_eq!(advice.rows(), recorded);
    let (_, _, outputs) = advice.columns();
    assert_eq!(outputs, &vec![Fe::from_u64(14), Fe::from_u64(45)]);
}

// The mode-carrying variable records in build mode and evaluates in compute
// mode.
#[test]
fn variable_both_modes() {
    let mut context = EvalContext::Build(Context::default());
    let a = Variable::build_input(&mut context);
    let b = Variable::build_input(&mut context);
    let c = a.binary_operation(b, GateOperation::Sum, &mut context);
    c.assert_eq(&c, &mut context);
    match context {
        EvalContext::Build(ctx) => {
            let (gates, _pb) = ctx.finish().unwrap();
            assert_eq!(non_dummy(&gates), vec![Gate::Add]);
        },
        _ => unreachable!(),
    }

    let mut context = EvalContext::Compute(Advice::new());
    let a = Variable::compute_input(20);
    let b = Variable::compute_input(22);
    let c = a.binary_operation(b, GateOperation::Sum, &mut context);
    c.assert_eq(&c, &mut context);
    match context {
        EvalContext::Compute(advice) => {
            assert_eq!(advice.rows(), 1);
            let (_, _, outputs) = advice.columns();
            assert_eq!(outputs, &vec![Fe::from_u64(42)]);
        },
        _ => unreachable!(),
    }
}
