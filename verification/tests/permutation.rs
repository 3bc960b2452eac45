// The permutation builder, its union-find resolution, coset selection, and
// the compiled sigma data.

use plonk::builder::CircuitBuilder;
use plonk::description::{CircuitDescription, Var};
use plonk::field::Fe;
use plonk::permutation::{PermutationBuilder, Tag};
use plonk::PlonkError;

fn is_permutation(values: &Vec<usize>) -> bool {
    let mut seen = vec![false; values.len()];
    for v in values {
        if *v >= values.len() || seen[*v] {
            return false;
        }
        seen[*v] = true;
    }
    true
}

// With no constraints the resolved permutation is the identity.
#[test]
fn identity_without_constraints() {
    let mut pb = PermutationBuilder::with_rows(4);
    let perm = pb.build(4);
    let values = perm.values();
    assert_eq!(values.len(), 12);
    for (i, v) in values.iter().enumerate() {
        assert_eq!(*v, i);
    }
}

// Constraints out of range are rejected and record nothing.
#[test]
fn invalid_tag_rejected() {
    let mut pb = PermutationBuilder::with_rows(2);
    assert_eq!(
        pb.add_constrain(Tag { i: 0, j: 0 }, Tag { i: 0, j: 2 }),
        Err(PlonkError::InvalidTag)
    );
    assert_eq!(
        pb.add_constrain(Tag { i: 4, j: 0 }, Tag { i: 0, j: 0 }),
        Err(PlonkError::InvalidTag)
    );
    assert!(pb.add_constrain(Tag { i: 0, j: 0 }, Tag { i: 1, j: 1 }).is_ok());
}

// A chain of constraints merges all the named cells into one cycle, and the
// result is a permutation of all the cells.
#[test]
fn chained_constraints_one_cycle() {
    let mut pb = PermutationBuilder::with_rows(4);
    pb.add_constrains(vec![
        (Tag { i: 0, j: 0 }, Tag { i: 1, j: 1 }),
        (Tag { i: 1, j: 1 }, Tag { i: 2, j: 2 }),
        (Tag { i: 2, j: 2 }, Tag { i: 0, j: 3 }),
    ]);
    let perm = pb.build(4);
    let values = perm.values().clone();
    assert!(is_permutation(&values));
    // flat indices: (0,0) = 0, (1,1) = 5, (2,2) = 10, (0,3) = 3.
    let members = [0usize, 5, 10, 3];
    // walking the permutation from one member visits exactly the four.
    let mut visited = vec![0usize];
    let mut next = values[0];
    while next != 0 {
        visited.push(next);
        next = values[next];
    }
    visited.sort();
    let mut expected = members.to_vec();
    expected.sort();
    assert_eq!(visited, expected);
    // cells outside the cycle stay fixed.
    for i in 0..values.len() {
        if !members.contains(&i) {
            assert_eq!(values[i], i);
        }
    }
}

// Merging two already-linked cells changes nothing further.
#[test]
fn redundant_constraint_is_harmless() {
    let mut pb = PermutationBuilder::with_rows(2);
    pb.add_constrains(vec![
        (Tag { i: 0, j: 0 }, Tag { i: 0, j: 1 }),
        (Tag { i: 0, j: 1 }, Tag { i: 0, j: 0 }),
    ]);
    let perm = pb.build(2);
    let values = perm.values().clone();
    assert!(is_permutation(&values));
    assert_eq!(values[0], 1);
    assert_eq!(values[1], 0);
    for i in 2..6 {
        assert_eq!(values[i], i);
    }
}

// Gate rows pad to the smallest power of two with three rows of margin.
#[test]
fn padding_is_minimal_power_of_two() {
    for (gates, expected) in [(0usize, 4usize), (1, 4), (2, 8), (5, 8), (6, 16), (13, 16)] {
        let mut builder = CircuitBuilder::new();
        for _ in 0..gates {
            builder.add_gate(plonk::builder::Gate::Add);
        }
        builder.fill().unwrap();
        assert_eq!(builder.gate_list().len(), expected);
    }
}

// Selector rows reflect the recorded gates, with all-zero rows afterwards.
#[test]
fn selector_rows_match_gates() {
    let mut builder = CircuitBuilder::new();
    builder.add_gate(plonk::builder::Gate::Add);
    builder.add_gate(plonk::builder::Gate::Mul);
    builder.fill().unwrap();
    let cols = CircuitBuilder::selector_columns(builder.gate_list());
    let zero = Fe::zero();
    let one = Fe::one();
    // row 0 is an Add gate: (1, 1, 1, 0, 0).
    assert_eq!(
        [cols[0][0], cols[1][0], cols[2][0], cols[3][0], cols[4][0]],
        [one, one, one, zero, zero]
    );
    // row 1 is a Mul gate: (0, 0, 1, 1, 0).
    assert_eq!(
        [cols[0][1], cols[1][1], cols[2][1], cols[3][1], cols[4][1]],
        [zero, zero, one, one, zero]
    );
    // every padding row is all zeros.
    for j in 2..cols[0].len() {
        for c in 0..5 {
            assert_eq!(cols[c][j], zero);
        }
    }
}

// A single multiplication, compiled end to end: the smallest domain with
// three rows of margin has four rows, and the permutation is the identity.
struct OneMul;

impl CircuitDescription<2> for OneMul {
    fn run<V: Var>(ctx: &mut V::Ctx, inputs: Vec<V>) {
        let a = inputs[0].clone();
        let b = inputs[1].clone();
        let _c = a.mul(ctx, b);
    }
}

#[test]
fn cosets_for_four_row_domain() {
    let cc = CircuitBuilder::compile::<2, OneMul>().unwrap();
    assert_eq!(cc.rows, 4);
    assert_eq!(&cc.copy_constrains.cosets, &vec![1, 2, 3]);
    for i in 0..3 {
        for j in 0..4 {
            assert_eq!(cc.copy_constrains.cols[i][j].1, Tag { i, j });
        }
    }
}

// A polymorphic circuit with a shared input, compiled end to end.
struct SharedInput;

impl CircuitDescription<2> for SharedInput {
    fn run<V: Var>(ctx: &mut V::Ctx, inputs: Vec<V>) {
        let a = inputs[0].clone();
        let b = inputs[1].clone();
        let _t = a.clone().add(ctx, b.clone());
        let _u = a.mul(ctx, b);
    }
}

// Coset selection over the eight-row domain: the offsets are one and the
// next two integers outside the domain, all distinct.
#[test]
fn cosets_for_small_domain() {
    let cc = CircuitBuilder::compile::<2, SharedInput>().unwrap();
    assert_eq!(cc.rows, 8);
    let ks = &cc.copy_constrains.cosets;
    assert_eq!(ks, &vec![1, 2, 3]);
}

// The compiled columns pair each identity cell with its destination cell.
#[test]
fn compiled_columns_hold_destinations() {
    let cc = CircuitBuilder::compile::<2, SharedInput>().unwrap();
    let cols = &cc.copy_constrains.cols;
    assert_eq!(cols.len(), 3);
    for i in 0..3 {
        assert_eq!(cols[i].len(), 8);
        for j in 0..8 {
            assert_eq!(cols[i][j].0, Tag { i, j });
        }
    }
    // the shared input a sits at (0,0) and (0,1); each forwards to the other.
    assert_eq!(cols[0][0].1, Tag { i: 0, j: 1 });
    assert_eq!(cols[0][1].1, Tag { i: 0, j: 0 });
    // an untouched cell forwards to itself.
    assert_eq!(cols[2][5].1, Tag { i: 2, j: 5 });
}

// The sigma value of a row-zero destination is the destination's coset
// offset itself.
#[test]
fn sigma_value_of_row_zero_destination() {
    let cc = CircuitBuilder::compile::<2, SharedInput>().unwrap();
    // (2,0) is a fixed point, so its sigma value is k[2] * omega^0 = 3.
    assert_eq!(cc.copy_constrains.sigma_value_at(2, 0), Fe::from_u64(3));
    // (1,0) forwards to (1,1): k[1] * omega, not a plain integer lift.
    assert_ne!(cc.copy_constrains.sigma_value_at(1, 0), Fe::from_u64(2));
}

// Evaluating the sigma polynomials is deterministic.
#[test]
fn sigma_evals_reproducible() {
    let cc = CircuitBuilder::compile::<2, SharedInput>().unwrap();
    let z = Fe::from_u64(123456789);
    let first = cc.copy_constrains.sigma_evals(&z);
    let second = cc.copy_constrains.sigma_evals(&z);
    assert_eq!(first, second);
    assert_eq!(first.len(), 3);
}

// The q_C selector column of this circuit is identically zero, so its
// interpolation evaluates to zero everywhere.
#[test]
fn constant_selector_evaluates_to_constant() {
    let cc = CircuitBuilder::compile::<2, SharedInput>().unwrap();
    let evals = cc.selector_evals(&Fe::from_u64(987654321));
    assert_eq!(evals.len(), 5);
    assert_eq!(evals[4], Fe::zero());
}
