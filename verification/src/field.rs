//! The scalar field of BLS12-381, seen through plain values: a field element
//! is carried as its canonical little-endian 64-bit limbs. All arithmetic is
//! done by the `ark` crates behind the trusted wrappers below; the rest of
//! the library computes only with limbs, rows and column indices.

use vstd::prelude::*;
use ark_ff::PrimeField;
use ark_ff::Zero;
use ark_poly::EvaluationDomain;

verus! {

/// Limbs of the BLS12-381 scalar field modulus
/// 52435875175126190479447740508185965837690552500527637822603658699938581184513,
/// little-endian.
pub const MODULUS_L0: u64 = 0xffffffff00000001;
pub const MODULUS_L1: u64 = 0x53bda402fffe5bfe;
pub const MODULUS_L2: u64 = 0x3339d80809a1d805;
pub const MODULUS_L3: u64 = 0x73eda753299d7d48;

/// The largest evaluation-domain size the library accepts. The field's
/// multiplicative subgroup of two-power order has order dividing `2^32`, and
/// this bound also keeps every size representable on 32-bit targets.
pub const MAX_DOMAIN_SIZE: usize = 0x40000000;

/// A scalar field element, as its canonical little-endian limbs.
#[derive(Debug, Clone, Copy, PartialEq, Eq, Structural, Hash)]
pub struct Fe {
    pub l0: u64,
    pub l1: u64,
    pub l2: u64,
    pub l3: u64,
}

/// The limbs are the canonical representative: they encode an integer below
/// the modulus. Two well-formed values are equal as field elements iff they
/// are equal as structs.
pub open spec fn fe_wf(a: Fe) -> bool {
    a.l3 < MODULUS_L3 || (a.l3 == MODULUS_L3 && (a.l2 < MODULUS_L2 || (a.l2 == MODULUS_L2 && (
    a.l1 < MODULUS_L1 || (a.l1 == MODULUS_L1 && a.l0 < MODULUS_L0)))))
}

/// The field element denoted by a 64-bit integer: the modulus exceeds
/// `2^64`, so the canonical limbs are the integer itself.
pub open spec fn fe_from_u64(n: u64) -> Fe {
    Fe { l0: n, l1: 0, l2: 0, l3: 0 }
}

/// `n` is a power of two.
pub open spec fn is_pow2(n: nat) -> bool
    decreases n,
{
    if n == 0 {
        false
    } else if n == 1 {
        true
    } else {
        n % 2 == 0 && is_pow2(n / 2)
    }
}

/// Of two distinct powers of two, the larger is at least double the smaller.
pub proof fn lemma_pow2_double(a: nat, b: nat)
    requires
        is_pow2(a),
        is_pow2(b),
        a < b,
    ensures
        2 * a <= b,
    decreases a,
{
    if a == 1 {
        assert(b % 2 == 0);
    } else {
        assert(a % 2 == 0 && is_pow2(a / 2));
        assert(b % 2 == 0 && is_pow2(b / 2));
        lemma_pow2_double(a / 2, b / 2);
    }
}

/// The largest accepted domain size is itself a power of two.
pub proof fn lemma_max_domain_pow2()
    ensures
        is_pow2(MAX_DOMAIN_SIZE as nat),
{
    reveal_with_fuel(is_pow2, 32);
    assert(is_pow2(0x40000000nat));
}

impl Fe {
    /// Lift a 64-bit integer into the field.
    pub fn from_u64(n: u64) -> (r: Fe)
        ensures
            r == fe_from_u64(n),
            fe_wf(r),
    {
        Fe { l0: n, l1: 0, l2: 0, l3: 0 }
    }

    /// The additive identity.
    pub fn zero() -> (r: Fe)
        ensures
            r == fe_from_u64(0),
            fe_wf(r),
    {
        Fe::from_u64(0)
    }

    /// The multiplicative identity.
    pub fn one() -> (r: Fe)
        ensures
            r == fe_from_u64(1),
            fe_wf(r),
    {
        Fe::from_u64(1)
    }
}

/// Whether limbs are canonical, as a value.
pub fn fe_canonical(a: &Fe) -> (r: bool)
    ensures
        r == fe_wf(*a),
{
    a.l3 < MODULUS_L3 || (a.l3 == MODULUS_L3 && (a.l2 < MODULUS_L2 || (a.l2 == MODULUS_L2 && (a.l1
        < MODULUS_L1 || (a.l1 == MODULUS_L1 && a.l0 < MODULUS_L0)))))
}

/// The sum of two field elements, in canonical limbs.
pub uninterp spec fn add_of(a: Fe, b: Fe) -> Fe;

/// The product of two field elements, in canonical limbs.
pub uninterp spec fn mul_of(a: Fe, b: Fe) -> Fe;

/// The field element `k * omega^j`, where `omega` generates the subgroup of
/// order `rows`; the cell value that the copy-constraint columns hold.
pub uninterp spec fn domain_cell_of(k: u64, j: int, rows: int) -> Fe;

/// Whether the vanishing polynomial of the size-`rows` domain is zero at the
/// integer `k`; equivalently, whether `k` is a `rows`-th root of unity.
pub uninterp spec fn vanishes_of(k: int, rows: int) -> bool;

/// The value at `point` of the polynomial that interpolates `evals` over the
/// size-`rows` domain.
pub uninterp spec fn interp_eval_of(evals: Seq<Fe>, rows: int, point: Fe) -> Fe;

/// Relies on `ark_ff`: `Fp::from_bigint` accepts any canonical representative
/// (it returns `Some` below the modulus), `+` adds in the field, and
/// `into_bigint` returns the canonical representative of the result.
#[verifier::external_body]
pub(crate) fn fe_add(a: &Fe, b: &Fe) -> (r: Fe)
    requires
        fe_wf(*a),
        fe_wf(*b),
    ensures
        r == add_of(*a, *b),
        fe_wf(r),
{
    let x = ark_bls12_381::Fr::from_bigint(ark_ff::BigInt([a.l0, a.l1, a.l2, a.l3])).unwrap();
    let y = ark_bls12_381::Fr::from_bigint(ark_ff::BigInt([b.l0, b.l1, b.l2, b.l3])).unwrap();
    let s = (x + y).into_bigint().0;
    Fe { l0: s[0], l1: s[1], l2: s[2], l3: s[3] }
}

/// Relies on `ark_ff` as `fe_add` does, with `*` multiplying in the field.
#[verifier::external_body]
pub(crate) fn fe_mul(a: &Fe, b: &Fe) -> (r: Fe)
    requires
        fe_wf(*a),
        fe_wf(*b),
    ensures
        r == mul_of(*a, *b),
        fe_wf(r),
{
    let x = ark_bls12_381::Fr::from_bigint(ark_ff::BigInt([a.l0, a.l1, a.l2, a.l3])).unwrap();
    let y = ark_bls12_381::Fr::from_bigint(ark_ff::BigInt([b.l0, b.l1, b.l2, b.l3])).unwrap();
    let s = (x * y).into_bigint().0;
    Fe { l0: s[0], l1: s[1], l2: s[2], l3: s[3] }
}

/// Relies on `ark_poly`: `GeneralEvaluationDomain::new` yields the domain of
/// any two-power size up to the field's two-adic order, and `element(j)` is
/// `omega^j`; and on `ark_ff`: `Fr::from(k)` lifts `k`, `*` multiplies, and
/// `into_bigint` canonicalises. At `j == 0` the factor `element(0)` is one,
/// so the result is `k` itself in canonical limbs.
#[verifier::external_body]
pub(crate) fn domain_cell(k: u64, j: usize, rows: usize) -> (r: Fe)
    requires
        is_pow2(rows as nat),
        rows <= MAX_DOMAIN_SIZE,
        j < rows,
    ensures
        r == domain_cell_of(k, j as int, rows as int),
        fe_wf(r),
        j == 0 ==> r == fe_from_u64(k),
{
    let d = ark_poly::GeneralEvaluationDomain::<ark_bls12_381::Fr>::new(rows).unwrap();
    let v = ark_bls12_381::Fr::from(k) * d.element(j);
    let s = v.into_bigint().0;
    Fe { l0: s[0], l1: s[1], l2: s[2], l3: s[3] }
}

/// Relies on `ark_poly`: `evaluate_vanishing_polynomial(tau)` computes
/// `tau^rows - 1` over the plain (offset-one) domain; and on `ark_ff`:
/// `Fr::from(k)` lifts `k` and `is_zero` tests for the additive identity.
#[verifier::external_body]
pub(crate) fn vanishes(k: u64, rows: usize) -> (r: bool)
    requires
        is_pow2(rows as nat),
        rows <= MAX_DOMAIN_SIZE,
    ensures
        r == vanishes_of(k as int, rows as int),
{
    let d = ark_poly::GeneralEvaluationDomain::<ark_bls12_381::Fr>::new(rows).unwrap();
    d.evaluate_vanishing_polynomial(ark_bls12_381::Fr::from(k)).is_zero()
}

/// Relies on `ark_poly`: `Evaluations::from_vec_and_domain(..).interpolate()`
/// returns the unique polynomial of degree below `rows` with the given values
/// over the domain, and `evaluate` evaluates it; and on `ark_ff` for the limb
/// conversions as in `fe_add`. The loop only converts the argument vector,
/// element by element.
#[verifier::external_body]
pub(crate) fn interp_eval(evals: &Vec<Fe>, rows: usize, point: &Fe) -> (r: Fe)
    requires
        is_pow2(rows as nat),
        rows <= MAX_DOMAIN_SIZE,
        evals@.len() == rows,
        forall|i: int| 0 <= i < evals@.len() ==> fe_wf(#[trigger] evals@[i]),
        fe_wf(*point),
    ensures
        r == interp_eval_of(evals@, rows as int, *point),
        fe_wf(r),
{
    let d = ark_poly::GeneralEvaluationDomain::<ark_bls12_381::Fr>::new(rows).unwrap();
    let mut evs: Vec<ark_bls12_381::Fr> = Vec::with_capacity(evals.len());
    for e in evals.iter() {
        evs.push(ark_bls12_381::Fr::from_bigint(ark_ff::BigInt([e.l0, e.l1, e.l2, e.l3])).unwrap());
    }
    let poly = ark_poly::Evaluations::from_vec_and_domain(evs, d).interpolate();
    let x = ark_bls12_381::Fr::from_bigint(ark_ff::BigInt([point.l0, point.l1, point.l2, point.l3]))
        .unwrap();
    let s = ark_poly::Polynomial::evaluate(&poly, &x).into_bigint().0;
    Fe { l0: s[0], l1: s[1], l2: s[2], l3: s[3] }
}

} // verus!
