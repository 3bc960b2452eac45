//! The circuit builder: records add/multiply gates, pads their list to a
//! power of two, renders gates as selector rows, and carries the recording
//! context that the build-mode variables write into.

use vstd::prelude::*;
use std::collections::HashMap;
use crate::PlonkError;
use crate::field::{
    add_of, fe_add, fe_canonical, fe_from_u64, fe_mul, fe_wf, is_pow2, lemma_max_domain_pow2,
    lemma_pow2_double, mul_of, Fe, MAX_DOMAIN_SIZE,
};
use crate::permutation::{cell_in_matrix, PermutationBuilder, Tag};
use crate::description::{CircuitDescription, CompiledCircuit, GateConstrains, Var};

verus! {

broadcast use vstd::std_specs::hash::group_hash_axioms;

/// One recorded gate. `Dummy` rows pad the list to a power of two and put no
/// constraint on their wires.
#[derive(Debug, Clone, Copy, PartialEq, Eq, Structural)]
pub enum Gate {
    Mul,
    Add,
    Dummy,
}

impl Gate {
    /// The selector row `(q_L, q_R, q_O, q_M, q_C)` that this gate encodes.
    pub open spec fn row_spec(self) -> Seq<Fe> {
        match self {
            Gate::Mul => seq![
                fe_from_u64(0),
                fe_from_u64(0),
                fe_from_u64(1),
                fe_from_u64(1),
                fe_from_u64(0),
            ],
            Gate::Add => seq![
                fe_from_u64(1),
                fe_from_u64(1),
                fe_from_u64(1),
                fe_from_u64(0),
                fe_from_u64(0),
            ],
            Gate::Dummy => seq![
                fe_from_u64(0),
                fe_from_u64(0),
                fe_from_u64(0),
                fe_from_u64(0),
                fe_from_u64(0),
            ],
        }
    }

    /// The selector row of this gate, as values.
    pub fn to_row(&self) -> (r: [Fe; 5])
        ensures
            r@ == self.row_spec(),
    {
        let r = match self {
            Gate::Mul => [Fe::zero(), Fe::zero(), Fe::one(), Fe::one(), Fe::zero()],
            Gate::Add => [Fe::one(), Fe::one(), Fe::one(), Fe::zero(), Fe::zero()],
            Gate::Dummy => [Fe::zero(), Fe::zero(), Fe::zero(), Fe::zero(), Fe::zero()],
        };
        proof {
            assert(r@ =~= self.row_spec());
        }
        r
    }
}

/// The two gate-producing operations of the variable interface.
pub enum GateOperation {
    Sum,
    Mul,
}

impl GateOperation {
    /// Which gate recording this operation appends.
    pub open spec fn gate_spec(self) -> Gate {
        match self {
            GateOperation::Sum => Gate::Add,
            GateOperation::Mul => Gate::Mul,
        }
    }

    /// Turn the operation into its gate.
    pub fn build(&self) -> (r: Gate)
        ensures
            r == self.gate_spec(),
    {
        match self {
            GateOperation::Sum => Gate::Add,
            GateOperation::Mul => Gate::Mul,
        }
    }
}

/// Records the gates and copy constraints of one circuit.
#[derive(Debug)]
pub struct CircuitBuilder {
    gates: Vec<Gate>,
    permutation: PermutationBuilder,
}

impl CircuitBuilder {
    /// The recorded gates, in emission order.
    pub closed spec fn gates(self) -> Seq<Gate> {
        self.gates@
    }

    /// The permutation builder that collects the copy constraints.
    pub closed spec fn permutation_builder(self) -> PermutationBuilder {
        self.permutation
    }

    /// The builder's structural invariant: the permutation builder has one
    /// row per recorded gate, and every recorded constraint points at a wire
    /// cell of an existing row.
    pub open spec fn wf(self) -> bool {
        &&& self.permutation_builder().rows() == self.gates().len()
        &&& forall|k: int|
            0 <= k < self.permutation_builder().constraints().len() ==> crate::permutation::cell_in_matrix(
                (#[trigger] self.permutation_builder().constraints()[k]).0,
                self.permutation_builder().rows() as int,
            ) && crate::permutation::cell_in_matrix(
                self.permutation_builder().constraints()[k].1,
                self.permutation_builder().rows() as int,
            )
    }

    pub fn new() -> (r: Self)
        ensures
            r.gates().len() == 0,
            r.permutation_builder().constraints().len() == 0,
            r.wf(),
    {
        CircuitBuilder { gates: Vec::new(), permutation: PermutationBuilder::new() }
    }

    /// Read access to the recorded gates.
    pub fn gate_list(&self) -> (r: &Vec<Gate>)
        ensures
            r@ == self.gates(),
    {
        &self.gates
    }

    /// Appends a gate and opens its row in the permutation builder; returns
    /// the new row's index.
    pub fn add_gate(&mut self, gate: Gate) -> (index: usize)
        requires
            old(self).wf(),
        ensures
            final(self).wf(),
            index == old(self).gates().len(),
            final(self).gates() == old(self).gates().push(gate),
            final(self).permutation_builder().constraints()
                == old(self).permutation_builder().constraints(),
            final(self).permutation_builder().rows() == old(self).gates().len() + 1,
    {
        self.gates.push(gate);
        let index = self.gates.len() - 1;
        self.permutation.add_row();
        index
    }

    /// Pads the recorded gates with `Dummy` rows up to the smallest power of two
    /// that leaves at least three rows of margin, or reports that no
    /// supported domain is that large.
    pub fn fill(&mut self) -> (r: Result<(), PlonkError>)
        ensures
            r is Ok ==> {
                &&& final(self).gates().len() >= old(self).gates().len() + 3
                &&& is_pow2(final(self).gates().len())
                &&& forall|p: nat|
                    is_pow2(p) && p >= old(self).gates().len() + 3 ==> p
                        >= final(self).gates().len()
                &&& final(self).gates().len() <= MAX_DOMAIN_SIZE
                &&& final(self).gates().take(old(self).gates().len() as int) == old(self).gates()
                &&& forall|e: int|
                    old(self).gates().len() <= e < final(self).gates().len()
                        ==> final(self).gates()[e] == Gate::Dummy
            },
            r is Ok <==> old(self).gates().len() + 3 <= MAX_DOMAIN_SIZE,
            r is Err ==> r == Result::<(), PlonkError>::Err(PlonkError::DomainTooLarge)
                && *final(self) == *old(self),
            final(self).permutation_builder() == old(self).permutation_builder(),
    {
        let rows = self.gates.len();
        if rows > MAX_DOMAIN_SIZE - 3 {
            return Err(PlonkError::DomainTooLarge);
        }
        let mut size: usize = 2;
        proof {
            assert(is_pow2(1nat));
            assert(is_pow2(2nat));
        }
        while size < rows + 3
            invariant
                rows + 3 <= MAX_DOMAIN_SIZE,
                is_pow2(size as nat),
                2 <= size,
                size <= MAX_DOMAIN_SIZE,
                forall|p: nat| is_pow2(p) && p >= rows + 3 ==> p >= size,
            decreases 2 * (rows + 3) - size,
        {
            proof {
                lemma_max_domain_pow2();
                if size < MAX_DOMAIN_SIZE {
                    lemma_pow2_double(size as nat, MAX_DOMAIN_SIZE as nat);
                }
                assert forall|p: nat| is_pow2(p) && p >= rows + 3 implies p >= 2 * size by {
                    if p < 2 * size {
                        assert(p >= size);
                        if p > size {
                            lemma_pow2_double(size as nat, p);
                        }
                    }
                }
            }
            size = size * 2;
        }
        let ghost orig = self.gates@;
        while self.gates.len() < size
            invariant
                orig.len() <= self.gates@.len() <= size,
                self.gates@.take(orig.len() as int) == orig,
                forall|e: int|
                    orig.len() <= e < self.gates@.len() ==> self.gates@[e] == Gate::Dummy,
                self.permutation == old(self).permutation,
            decreases size - self.gates@.len(),
        {
            self.gates.push(Gate::Dummy);
            proof {
                assert(self.gates@.take(orig.len() as int) =~= orig);
            }
        }
        Ok(())
    }

    /// The five selector columns of a gate list: column `c` holds, for every
    /// row `j`, entry `c` of the `j`-th gate's selector row.
    pub fn selector_columns(gates: &Vec<Gate>) -> (r: Vec<Vec<Fe>>)
        ensures
            r@.len() == 5,
            forall|c: int| 0 <= c < 5 ==> (#[trigger] r@[c])@.len() == gates@.len(),
            forall|c: int, j: int|
                0 <= c < 5 && 0 <= j < gates@.len() ==> (#[trigger] r@[c]@[j])
                    == gates@[j].row_spec()[c],
    {
        let mut cols: Vec<Vec<Fe>> = Vec::new();
        let mut c: usize = 0;
        while c < 5
            invariant
                c <= 5,
                cols@.len() == c,
                forall|c2: int| 0 <= c2 < c ==> (#[trigger] cols@[c2])@.len() == gates@.len(),
                forall|c2: int, j: int|
                    0 <= c2 < c && 0 <= j < gates@.len() ==> (#[trigger] cols@[c2]@[j])
                        == gates@[j].row_spec()[c2],
            decreases 5 - c,
        {
            let mut col: Vec<Fe> = Vec::new();
            let mut j: usize = 0;
            let len = gates.len();
            while j < len
                invariant
                    c < 5,
                    j <= len,
                    len == gates@.len(),
                    col@.len() == j,
                    forall|j2: int|
                        0 <= j2 < j ==> (#[trigger] col@[j2]) == gates@[j2].row_spec()[c as int],
                decreases len - j,
            {
                let row = gates[j].to_row();
                col.push(row[c]);
                j = j + 1;
            }
            cols.push(col);
            c = c + 1;
        }
        cols
    }
}

/// Selector-row faithfulness: once the recorded gates `pre` are padded to
/// `post` and rendered as selector columns, row `j` of the five columns is
/// the selector row of the `j`-th recorded gate, and every later row is the
/// all-zero row of a `Dummy` gate.
pub proof fn lemma_selector_rows_after_fill(pre: Seq<Gate>, post: Seq<Gate>, cols: Seq<Seq<Fe>>)
    requires
        pre.len() <= post.len(),
        post.take(pre.len() as int) == pre,
        forall|e: int| pre.len() <= e < post.len() ==> post[e] == Gate::Dummy,
        cols.len() == 5,
        forall|c: int| 0 <= c < 5 ==> (#[trigger] cols[c]).len() == post.len(),
        forall|c: int, j: int|
            0 <= c < 5 && 0 <= j < post.len() ==> (#[trigger] cols[c][j]) == post[j].row_spec()[c],
    ensures
        forall|c: int, j: int|
            0 <= c < 5 && 0 <= j < pre.len() ==> (#[trigger] cols[c][j]) == pre[j].row_spec()[c],
        forall|c: int, j: int|
            0 <= c < 5 && pre.len() <= j < post.len() ==> (#[trigger] cols[c][j])
                == Gate::Dummy.row_spec()[c],
{
    assert forall|c: int, j: int|
        0 <= c < 5 && 0 <= j < pre.len() implies (#[trigger] cols[c][j])
        == pre[j].row_spec()[c] by {
        assert(pre[j] == post.take(pre.len() as int)[j]);
    }
}

/// The identity of a logical circuit variable. A variable may occupy many
/// cells; each reuse links the cells with a copy constraint.
#[derive(Hash, Debug, Clone, Copy, PartialEq, Eq, Structural)]
pub struct VarId(u64);

impl VarId {
    /// The numeric identity.
    pub closed spec fn value(self) -> u64 {
        self.0
    }
}

/// The next variable identity after allocating one; the counter stops at its
/// ceiling rather than wrapping.
pub open spec fn bump_id(n: u64) -> u64 {
    if n < u64::MAX {
        (n + 1) as u64
    } else {
        n
    }
}

/// Every placed variable points at a wire cell of an existing row.
pub open spec fn vm_ok(vm: Map<u64, Tag>, rows: int) -> bool {
    forall|id: u64| #[trigger] vm.contains_key(id) ==> cell_in_matrix(vm[id], rows)
}

/// Growing the matrix keeps placements valid.
proof fn lemma_vm_ok_mono(vm: Map<u64, Tag>, rows: int, more: int)
    requires
        vm_ok(vm, rows),
        rows <= more,
    ensures
        vm_ok(vm, more),
{
}

/// Placing one more variable at a valid cell keeps placements valid.
proof fn lemma_vm_ok_insert(vm: Map<u64, Tag>, rows: int, id: u64, tag: Tag)
    requires
        vm_ok(vm, rows),
        cell_in_matrix(tag, rows),
    ensures
        vm_ok(vm.insert(id, tag), rows),
{
    assert forall|id2: u64| #[trigger] vm.insert(id, tag).contains_key(id2) implies cell_in_matrix(
        vm.insert(id, tag)[id2],
        rows,
    ) by {
        if id2 != id {
            assert(vm.contains_key(id2));
        }
    }
}

/// The state that recording a circuit accumulates.
#[derive(Debug)]
pub struct InnerContext {
    /// Gate list and copy constraints recorded so far.
    builder: CircuitBuilder,
    /// Source of fresh variable identities.
    next_var_id: u64,
    /// Equalities whose sides were not both placed when they were asserted.
    pending_eq: Vec<(VarId, VarId)>,
    /// The first cell each logical variable was written into.
    var_map: HashMap<u64, Tag>,
}

impl InnerContext {
    fn empty() -> (r: Self)
        ensures
            r.builder.gates().len() == 0,
            r.builder.permutation_builder().constraints().len() == 0,
            r.builder.wf(),
            r.next_var_id == 0,
            r.pending_eq@.len() == 0,
            r.var_map@ == Map::<u64, Tag>::empty(),
    {
        InnerContext {
            builder: CircuitBuilder::new(),
            next_var_id: 0,
            pending_eq: Vec::new(),
            var_map: HashMap::new(),
        }
    }
}

/// The recording context that build-mode variables write into. Its structural
/// invariant (one permutation row per gate, every placed or constrained cell
/// inside the matrix) holds at all times, whatever sequence of operations a
/// circuit description performs.
#[derive(Debug)]
pub struct Context {
    inner: InnerContext,
}

impl Context {
    /// The recorded gates.
    pub closed spec fn gates(self) -> Seq<Gate> {
        self.inner.builder.gates()
    }

    /// The copy constraints recorded so far.
    pub closed spec fn constraints(self) -> Seq<(Tag, Tag)> {
        self.inner.builder.permutation_builder().constraints()
    }

    /// The next fresh variable identity.
    pub closed spec fn next_id(self) -> u64 {
        self.inner.next_var_id
    }

    /// The equalities still waiting for both sides to be placed.
    pub closed spec fn pending(self) -> Seq<(VarId, VarId)> {
        self.inner.pending_eq@
    }

    /// Where each placed variable first landed.
    pub closed spec fn var_map(self) -> Map<u64, Tag> {
        self.inner.var_map@
    }

    #[verifier::type_invariant]
    spec fn inv(self) -> bool {
        &&& self.inner.builder.wf()
        &&& vm_ok(self.inner.var_map@, self.inner.builder.gates().len() as int)
    }

    /// Allocates a fresh variable identity.
    pub fn new_id(&mut self) -> (r: VarId)
        ensures
            r.value() == old(self).next_id(),
            final(self).next_id() == bump_id(old(self).next_id()),
            final(self).gates() == old(self).gates(),
            final(self).constraints() == old(self).constraints(),
            final(self).pending() == old(self).pending(),
            final(self).var_map() == old(self).var_map(),
    {
        proof {
            use_type_invariant(&*self);
        }
        let id = self.inner.next_var_id;
        if self.inner.next_var_id < u64::MAX {
            self.inner.next_var_id = self.inner.next_var_id + 1;
        }
        VarId(id)
    }

    /// Appends a gate (opening its permutation row) and returns its row index.
    pub fn add_gate(&mut self, gate: Gate) -> (j: usize)
        ensures
            j == old(self).gates().len(),
            final(self).gates() == old(self).gates().push(gate),
            final(self).constraints() == old(self).constraints(),
            final(self).pending() == old(self).pending(),
            final(self).var_map() == old(self).var_map(),
            final(self).next_id() == old(self).next_id(),
    {
        proof {
            use_type_invariant(&*self);
        }
        let mut inner = InnerContext::empty();
        core::mem::swap(&mut inner, &mut self.inner);
        let j = inner.builder.add_gate(gate);
        proof {
            lemma_vm_ok_mono(
                inner.var_map@,
                old(self).gates().len() as int,
                inner.builder.gates().len() as int,
            );
        }
        self.inner = inner;
        j
    }

    /// Records where a variable first landed.
    pub(crate) fn add_var(&mut self, id: VarId, tag: Tag)
        requires
            cell_in_matrix(tag, old(self).gates().len() as int),
        ensures
            final(self).var_map() == old(self).var_map().insert(id.value(), tag),
            final(self).gates() == old(self).gates(),
            final(self).constraints() == old(self).constraints(),
            final(self).pending() == old(self).pending(),
            final(self).next_id() == old(self).next_id(),
    {
        proof {
            use_type_invariant(&*self);
        }
        let mut inner = InnerContext::empty();
        core::mem::swap(&mut inner, &mut self.inner);
        inner.var_map.insert(id.0, tag);
        proof {
            lemma_vm_ok_insert(
                old(self).var_map(),
                old(self).gates().len() as int,
                id.0,
                tag,
            );
        }
        self.inner = inner;
    }

    /// The cell a variable was first written into, if it has been placed.
    pub fn get_var(&self, id: &VarId) -> (r: Option<Tag>)
        ensures
            r == (if self.var_map().contains_key(id.value()) {
                Some(self.var_map()[id.value()])
            } else {
                Option::<Tag>::None
            }),
    {
        proof {
            use_type_invariant(&*self);
        }
        match self.inner.var_map.get(&id.0) {
            Some(t) => Some(*t),
            None => None,
        }
    }

    /// Asserts that two variables are equal. If both are placed the equality
    /// goes straight into the permutation builder; otherwise it is deferred
    /// until `finish`.
    pub fn add_eq(&mut self, left: VarId, right: VarId)
        ensures
            old(self).var_map().contains_key(left.value()) && old(self).var_map().contains_key(
                right.value(),
            ) ==> {
                &&& final(self).constraints() == old(self).constraints().push(
                    (old(self).var_map()[left.value()], old(self).var_map()[right.value()]),
                )
                &&& final(self).pending() == old(self).pending()
            },
            !(old(self).var_map().contains_key(left.value()) && old(self).var_map().contains_key(
                right.value(),
            )) ==> {
                &&& final(self).constraints() == old(self).constraints()
                &&& final(self).pending() == old(self).pending().push((left, right))
            },
            final(self).gates() == old(self).gates(),
            final(self).var_map() == old(self).var_map(),
            final(self).next_id() == old(self).next_id(),
    {
        proof {
            use_type_invariant(&*self);
        }
        let mut inner = InnerContext::empty();
        core::mem::swap(&mut inner, &mut self.inner);
        let a = match inner.var_map.get(&left.0) {
            Some(t) => Some(*t),
            None => None,
        };
        let b = match inner.var_map.get(&right.0) {
            Some(t) => Some(*t),
            None => None,
        };
        match (a, b) {
            (Some(ta), Some(tb)) => {
                proof {
                    assert(old(self).var_map().contains_key(left.value()));
                    assert(old(self).var_map().contains_key(right.value()));
                    assert(cell_in_matrix(ta, old(self).gates().len() as int));
                    assert(cell_in_matrix(tb, old(self).gates().len() as int));
                }
                let res = inner.builder.permutation.add_constrain(ta, tb);
                proof {
                    assert(res is Ok);
                }
            },
            _ => {
                inner.pending_eq.push((left, right));
            },
        }
        self.inner = inner;
    }
}

/// Every deferred equality names two variables that have been placed.
pub open spec fn all_resolvable(vm: Map<u64, Tag>, pending: Seq<(VarId, VarId)>) -> bool {
    forall|k: int|
        0 <= k < pending.len() ==> vm.contains_key((#[trigger] pending[k]).0.value())
            && vm.contains_key(pending[k].1.value())
}

/// The constraints that resolving the deferred equalities adds, in order.
pub open spec fn resolved_pending(vm: Map<u64, Tag>, pending: Seq<(VarId, VarId)>) -> Seq<
    (Tag, Tag),
> {
    pending.map(|k: int, p: (VarId, VarId)| (vm[p.0.value()], vm[p.1.value()]))
}

impl Context {
    /// Resolves the deferred equalities, pads the recorded gates, and hands out
    /// the gates and the permutation builder. Fails with
    /// `UnresolvedVariable` if a deferred equality names a variable that no
    /// gate ever placed, and with `DomainTooLarge` if the padded gate count
    /// would exceed the largest supported domain.
    #[verifier::loop_isolation(false)]
    pub fn finish(self) -> (r: Result<(Vec<Gate>, PermutationBuilder), PlonkError>)
        ensures
            r is Ok ==> ({
                let gates = r->Ok_0.0;
                let pb = r->Ok_0.1;
                &&& all_resolvable(self.var_map(), self.pending())
                &&& pb.rows() == self.gates().len()
                &&& pb.constraints() == self.constraints() + resolved_pending(
                    self.var_map(),
                    self.pending(),
                )
                &&& forall|k: int|
                    0 <= k < pb.constraints().len() ==> cell_in_matrix(
                        (#[trigger] pb.constraints()[k]).0,
                        pb.rows() as int,
                    ) && cell_in_matrix(pb.constraints()[k].1, pb.rows() as int)
                &&& gates@.len() >= self.gates().len() + 3
                &&& is_pow2(gates@.len() as nat)
                &&& gates@.len() <= MAX_DOMAIN_SIZE
                &&& forall|p: nat|
                    is_pow2(p) && p >= self.gates().len() + 3 ==> p >= gates@.len()
                &&& gates@.take(self.gates().len() as int) == self.gates()
                &&& forall|e: int|
                    self.gates().len() <= e < gates@.len() ==> gates@[e] == Gate::Dummy
            }),
            r is Ok <==> all_resolvable(self.var_map(), self.pending()) && self.gates().len() + 3
                <= MAX_DOMAIN_SIZE,
            (r is Err && r->Err_0 == PlonkError::UnresolvedVariable) <==> !all_resolvable(
                self.var_map(),
                self.pending(),
            ),
            (r is Err && r->Err_0 == PlonkError::DomainTooLarge) <==> all_resolvable(
                self.var_map(),
                self.pending(),
            ) && self.gates().len() + 3 > MAX_DOMAIN_SIZE,
    {
        proof {
            use_type_invariant(&self);
        }
        let Context { inner } = self;
        let InnerContext { mut builder, next_var_id: _nv, pending_eq, var_map } = inner;
        let ghost vm = var_map@;
        let ghost pend = pending_eq@;

        let ghost cons0 = builder.permutation_builder().constraints();
        let ghost rows0 = builder.gates().len();
        let num = pending_eq.len();
        let mut k: usize = 0;
        while k < num
            invariant
                k <= num,
                num == pend.len(),
                pending_eq@ == pend,
                var_map@ == vm,
                vm_ok(vm, rows0 as int),
                builder.wf(),
                builder.gates() == self.gates(),
                builder.gates().len() == rows0,
                builder.permutation_builder().rows() == rows0,
                all_resolvable(vm, pend.take(k as int)),
                builder.permutation_builder().constraints() == cons0 + resolved_pending(
                    vm,
                    pend.take(k as int),
                ),
            decreases num - k,
        {
            let (l, rgt) = pending_eq[k];
            let ta = match var_map.get(&l.0) {
                Some(t) => *t,
                None => {
                    proof {
                        assert(pend[k as int] == (l, rgt));
                        assert(!vm.contains_key(l.value()));
                        assert(!all_resolvable(vm, pend));
                    }
                    return Err(PlonkError::UnresolvedVariable);
                },
            };
            let tb = match var_map.get(&rgt.0) {
                Some(t) => *t,
                None => {
                    proof {
                        assert(pend[k as int] == (l, rgt));
                        assert(!vm.contains_key(rgt.value()));
                        assert(!all_resolvable(vm, pend));
                    }
                    return Err(PlonkError::UnresolvedVariable);
                },
            };
            let res = builder.permutation.add_constrain(ta, tb);
            proof {
                assert(res is Ok);
                assert(all_resolvable(vm, pend.take(k + 1)));
                assert(cons0 + resolved_pending(vm, pend.take(k + 1)) =~= (cons0
                    + resolved_pending(vm, pend.take(k as int))).push((ta, tb)));
            }
            k = k + 1;
        }
        proof {
            assert(pend.take(num as int) =~= pend);
        }
        match builder.fill() {
            Ok(u) => {
                let _u = u;
            },
            Err(e) => {
                return Err(e);
            },
        }
        let CircuitBuilder { gates, permutation } = builder;
        Ok((gates, permutation))
    }
}

impl Default for Context {
    /// An empty recording context.
    fn default() -> (r: Self)
        ensures
            r.gates().len() == 0,
            r.constraints().len() == 0,
            r.next_id() == 0,
            r.pending().len() == 0,
            r.var_map() == Map::<u64, Tag>::empty(),
    {
        Context { inner: InnerContext::empty() }
    }
}

/// How recording one gate input changes the context: if the variable is
/// already placed, a fresh variable is placed at the input cell and a copy
/// constraint links the two cells; otherwise the variable itself is placed
/// there. Returns the new variable map, constraint list, and identity
/// counter.
pub open spec fn input_step(
    vm: Map<u64, Tag>,
    cons: Seq<(Tag, Tag)>,
    next: u64,
    id: u64,
    col: usize,
    j: usize,
) -> (Map<u64, Tag>, Seq<(Tag, Tag)>, u64) {
    let t = Tag { i: col, j };
    if vm.contains_key(id) {
        let vm2 = vm.insert(next, t);
        (vm2, cons.push((vm2[id], t)), bump_id(next))
    } else {
        (vm.insert(id, t), cons, next)
    }
}

/// A build-mode variable: a bare identity whose operations record gates and
/// copy constraints into a `Context`.
#[derive(Debug, Clone, Copy)]
pub struct BuildVar {
    id: VarId,
}

impl BuildVar {
    /// The identity this variable carries.
    pub closed spec fn id_value(self) -> u64 {
        self.id.value()
    }

    /// The identity this variable carries, as a `VarId`.
    pub closed spec fn id_spec(self) -> VarId {
        self.id
    }

    /// A fresh input variable; it occupies no cell until first used.
    pub fn input(ctx: &mut Context) -> (r: Self)
        ensures
            r.id_value() == old(ctx).next_id(),
            final(ctx).next_id() == bump_id(old(ctx).next_id()),
            final(ctx).gates() == old(ctx).gates(),
            final(ctx).constraints() == old(ctx).constraints(),
            final(ctx).pending() == old(ctx).pending(),
            final(ctx).var_map() == old(ctx).var_map(),
    {
        let id = ctx.new_id();
        BuildVar { id }
    }

    /// Records one binary gate: appends it, places a fresh output
    /// variable in the output column of the new row, and places (or links
    /// with a copy constraint) each input variable in its input column.
    pub fn binary_operation(&self, rhs: &Self, operation: GateOperation, ctx: &mut Context) -> (r:
        Self)
        ensures
            ({
                let j = old(ctx).gates().len() as usize;
                let out = old(ctx).next_id();
                let vm1 = old(ctx).var_map().insert(out, Tag { i: 2, j });
                let s2 = input_step(
                    vm1,
                    old(ctx).constraints(),
                    bump_id(out),
                    self.id_value(),
                    0,
                    j,
                );
                let s3 = input_step(s2.0, s2.1, s2.2, rhs.id_value(), 1, j);
                &&& final(ctx).gates() == old(ctx).gates().push(operation.gate_spec())
                &&& final(ctx).var_map() == s3.0
                &&& final(ctx).constraints() == s3.1
                &&& final(ctx).next_id() == s3.2
                &&& final(ctx).pending() == old(ctx).pending()
                &&& r.id_value() == out
            }),
    {
        let j = ctx.add_gate(operation.build());
        let out_id = ctx.new_id();
        ctx.add_var(out_id, Tag { i: 2, j });
        match ctx.get_var(&self.id) {
            Some(_) => {
                let new_id = ctx.new_id();
                ctx.add_var(new_id, Tag { i: 0, j });
                ctx.add_eq(self.id, new_id);
            },
            None => {
                ctx.add_var(self.id, Tag { i: 0, j });
            },
        }
        match ctx.get_var(&rhs.id) {
            Some(_) => {
                let new_id = ctx.new_id();
                ctx.add_var(new_id, Tag { i: 1, j });
                ctx.add_eq(rhs.id, new_id);
            },
            None => {
                ctx.add_var(rhs.id, Tag { i: 1, j });
            },
        }
        BuildVar { id: out_id }
    }
}

impl GateOperation {
    /// Evaluates the operation on two field values.
    pub fn compute(&self, a: &Fe, b: &Fe) -> (r: Fe)
        requires
            fe_wf(*a),
            fe_wf(*b),
        ensures
            r == (match *self {
                GateOperation::Sum => add_of(*a, *b),
                GateOperation::Mul => mul_of(*a, *b),
            }),
            fe_wf(r),
    {
        match self {
            GateOperation::Sum => fe_add(a, b),
            GateOperation::Mul => fe_mul(a, b),
        }
    }
}

/// The three advice columns that a compute-mode run accumulates: for each
/// recorded gate, its left input, right input, and output value. The columns
/// always have equal lengths and hold only well-formed field values.
#[derive(Debug)]
pub struct Advice {
    a: Vec<Fe>,
    b: Vec<Fe>,
    c: Vec<Fe>,
}

impl Advice {
    /// The left-input column.
    pub closed spec fn a(self) -> Seq<Fe> {
        self.a@
    }

    /// The right-input column.
    pub closed spec fn b(self) -> Seq<Fe> {
        self.b@
    }

    /// The output column.
    pub closed spec fn c(self) -> Seq<Fe> {
        self.c@
    }

    #[verifier::type_invariant]
    spec fn inv(self) -> bool {
        &&& self.a@.len() == self.b@.len() == self.c@.len()
        &&& forall|j: int| 0 <= j < self.a@.len() ==> fe_wf(#[trigger] self.a@[j])
        &&& forall|j: int| 0 <= j < self.b@.len() ==> fe_wf(#[trigger] self.b@[j])
        &&& forall|j: int| 0 <= j < self.c@.len() ==> fe_wf(#[trigger] self.c@[j])
    }

    pub fn new() -> (r: Self)
        ensures
            r.a().len() == 0,
            r.b().len() == 0,
            r.c().len() == 0,
    {
        Advice { a: Vec::new(), b: Vec::new(), c: Vec::new() }
    }

    /// The number of advice rows recorded so far.
    pub fn rows(&self) -> (r: usize)
        ensures
            r == self.a().len(),
            self.a().len() == self.b().len() == self.c().len(),
    {
        proof {
            use_type_invariant(&*self);
        }
        self.a.len()
    }

    /// Read access to the three columns.
    pub fn columns(&self) -> (r: (&Vec<Fe>, &Vec<Fe>, &Vec<Fe>))
        ensures
            r.0@ == self.a(),
            r.1@ == self.b(),
            r.2@ == self.c(),
    {
        (&self.a, &self.b, &self.c)
    }

    /// Appends one row of advice values.
    fn push_row(&mut self, va: Fe, vb: Fe, vc: Fe)
        requires
            fe_wf(va),
            fe_wf(vb),
            fe_wf(vc),
        ensures
            final(self).a() == old(self).a().push(va),
            final(self).b() == old(self).b().push(vb),
            final(self).c() == old(self).c().push(vc),
    {
        proof {
            use_type_invariant(&*self);
        }
        let mut tmp = Advice { a: Vec::new(), b: Vec::new(), c: Vec::new() };
        core::mem::swap(&mut tmp, self);
        let Advice { mut a, mut b, mut c } = tmp;
        a.push(va);
        b.push(vb);
        c.push(vc);
        *self = Advice { a, b, c };
    }
}

/// A compute-mode variable: a concrete field value whose operations append
/// to the advice columns.
#[derive(Debug, Clone, Copy)]
pub struct ComputeVar {
    value: Fe,
}

impl ComputeVar {
    /// The value this variable carries.
    pub closed spec fn value_spec(self) -> Fe {
        self.value
    }

    #[verifier::type_invariant]
    spec fn inv(self) -> bool {
        fe_wf(self.value)
    }

    /// An input variable carrying the lift of a 64-bit integer.
    pub fn from_u64(n: u64) -> (r: Self)
        ensures
            r.value_spec() == fe_from_u64(n),
    {
        ComputeVar { value: Fe::from_u64(n) }
    }

    /// An input variable carrying a field value given by canonical limbs;
    /// fails on limbs at or above the modulus.
    pub fn new(value: Fe) -> (r: Option<Self>)
        ensures
            r is Some <==> fe_wf(value),
            r is Some ==> r->Some_0.value_spec() == value,
    {
        if fe_canonical(&value) {
            Some(ComputeVar { value })
        } else {
            None
        }
    }

    /// The carried value.
    pub fn value(&self) -> (r: Fe)
        ensures
            r == self.value_spec(),
            fe_wf(r),
    {
        proof {
            use_type_invariant(&*self);
        }
        self.value
    }

    /// Evaluates one binary gate: computes the result value and appends the
    /// advice row `(left, right, result)`.
    pub fn binary_operation(&self, rhs: &Self, operation: GateOperation, advice: &mut Advice) -> (r:
        Self)
        ensures
            final(advice).a() == old(advice).a().push(self.value_spec()),
            final(advice).b() == old(advice).b().push(rhs.value_spec()),
            final(advice).c() == old(advice).c().push(r.value_spec()),
            r.value_spec() == (match operation {
                GateOperation::Sum => add_of(self.value_spec(), rhs.value_spec()),
                GateOperation::Mul => mul_of(self.value_spec(), rhs.value_spec()),
            }),
    {
        proof {
            use_type_invariant(&*self);
            use_type_invariant(&*rhs);
        }
        let value = operation.compute(&self.value, &rhs.value);
        advice.push_row(self.value, rhs.value, value);
        ComputeVar { value }
    }
}

impl Var for BuildVar {
    type Ctx = Context;

    fn add(self, ctx: &mut Context, rhs: Self) -> (r: Self)
        ensures
            recorded_gate(*old(ctx), *final(ctx), self.id_value(), rhs.id_value(), GateOperation::Sum, r.id_value()),
    {
        self.binary_operation(&rhs, GateOperation::Sum, ctx)
    }

    fn mul(self, ctx: &mut Context, rhs: Self) -> (r: Self)
        ensures
            recorded_gate(*old(ctx), *final(ctx), self.id_value(), rhs.id_value(), GateOperation::Mul, r.id_value()),
    {
        self.binary_operation(&rhs, GateOperation::Mul, ctx)
    }

    fn assert_eq(&self, ctx: &mut Context, other: &Self)
        ensures
            recorded_eq(*old(ctx), *final(ctx), self.id_spec(), other.id_spec()),
    {
        ctx.add_eq(self.id, other.id);
    }
}

/// What recording a binary gate does to the context, as a relation between
/// the states before and after.
pub open spec fn recorded_gate(
    pre: Context,
    post: Context,
    left: u64,
    right: u64,
    operation: GateOperation,
    out: u64,
) -> bool {
    let j = pre.gates().len() as usize;
    let vm1 = pre.var_map().insert(pre.next_id(), Tag { i: 2, j });
    let s2 = input_step(vm1, pre.constraints(), bump_id(pre.next_id()), left, 0, j);
    let s3 = input_step(s2.0, s2.1, s2.2, right, 1, j);
    &&& post.gates() == pre.gates().push(operation.gate_spec())
    &&& post.var_map() == s3.0
    &&& post.constraints() == s3.1
    &&& post.next_id() == s3.2
    &&& post.pending() == pre.pending()
    &&& out == pre.next_id()
}

/// What asserting equality of two variables does to the context.
pub open spec fn recorded_eq(pre: Context, post: Context, left: VarId, right: VarId) -> bool {
    let l = left.value();
    let r = right.value();
    &&& (pre.var_map().contains_key(l) && pre.var_map().contains_key(r)) ==> {
        &&& post.constraints() == pre.constraints().push((pre.var_map()[l], pre.var_map()[r]))
        &&& post.pending() == pre.pending()
    }
    &&& !(pre.var_map().contains_key(l) && pre.var_map().contains_key(r)) ==> {
        &&& post.constraints() == pre.constraints()
        &&& post.pending() == pre.pending().push((left, right))
    }
    &&& post.gates() == pre.gates()
    &&& post.var_map() == pre.var_map()
    &&& post.next_id() == pre.next_id()
}

impl Var for ComputeVar {
    type Ctx = Advice;

    fn add(self, ctx: &mut Advice, rhs: Self) -> (r: Self)
        ensures
            computed_gate(*old(ctx), *final(ctx), self.value_spec(), rhs.value_spec(), GateOperation::Sum, r.value_spec()),
    {
        self.binary_operation(&rhs, GateOperation::Sum, ctx)
    }

    fn mul(self, ctx: &mut Advice, rhs: Self) -> (r: Self)
        ensures
            computed_gate(*old(ctx), *final(ctx), self.value_spec(), rhs.value_spec(), GateOperation::Mul, r.value_spec()),
    {
        self.binary_operation(&rhs, GateOperation::Mul, ctx)
    }

    /// At run time an equality assertion checks nothing, so that invalid
    /// witnesses can still be produced and tested.
    fn assert_eq(&self, ctx: &mut Advice, other: &Self)
        ensures
            *final(ctx) == *old(ctx),
    {
    }
}

/// What evaluating a binary gate does to the advice columns: it appends the
/// row `(left, right, result)`, where the result applies the operation.
pub open spec fn computed_gate(
    pre: Advice,
    post: Advice,
    left: Fe,
    right: Fe,
    operation: GateOperation,
    out: Fe,
) -> bool {
    &&& post.a() == pre.a().push(left)
    &&& post.b() == pre.b().push(right)
    &&& post.c() == pre.c().push(out)
    &&& out == (match operation {
        GateOperation::Sum => add_of(left, right),
        GateOperation::Mul => mul_of(left, right),
    })
}

/// A variable of either mode, as a single type: build-mode variables record
/// gates into a recording context, compute-mode variables evaluate them
/// against advice columns.
#[derive(Debug, Clone, Copy)]
pub enum Variable {
    Build { id: VarId },
    Compute { value: Fe },
}

/// The context matching a `Variable`'s mode.
#[derive(Debug)]
pub enum EvalContext {
    Build(Context),
    Compute(Advice),
}

impl Variable {
    /// The identity of a build-mode variable.
    pub closed spec fn id_value(self) -> u64 {
        self->Build_id.value()
    }

    /// The identity of a build-mode variable, as a `VarId`.
    pub closed spec fn id_spec(self) -> VarId {
        self->Build_id
    }

    /// The value of a compute-mode variable.
    pub closed spec fn value_spec(self) -> Fe {
        self->Compute_value
    }

    /// A build-mode variable with a fresh identity.
    pub fn build_input(context: &mut EvalContext) -> (r: Self)
        requires
            *old(context) is Build,
        ensures
            *final(context) is Build,
            r is Build,
            ({
                let pre = old(context)->Build_0;
                let post = final(context)->Build_0;
                &&& r.id_value() == pre.next_id()
                &&& post.next_id() == bump_id(pre.next_id())
                &&& post.gates() == pre.gates()
                &&& post.constraints() == pre.constraints()
                &&& post.pending() == pre.pending()
                &&& post.var_map() == pre.var_map()
            }),
    {
        match context {
            EvalContext::Build(ctx) => {
                let v = BuildVar::input(ctx);
                Variable::Build { id: v.id }
            },
            EvalContext::Compute(_) => {
                proof {
                    assert(false);
                }
                Variable::Compute { value: Fe::zero() }
            },
        }
    }

    /// A compute-mode variable carrying the lift of a 64-bit integer.
    pub fn compute_input(n: u64) -> (r: Self)
        ensures
            r is Compute,
            r.value_spec() == fe_from_u64(n),
    {
        Variable::Compute { value: Fe::from_u64(n) }
    }

    /// Asserts that two variables are equal. In build mode the equality is
    /// recorded; in compute mode it checks nothing.
    pub fn assert_eq(&self, other: &Variable, context: &mut EvalContext)
        requires
            self is Build ==> other is Build && *old(context) is Build,
        ensures
            self is Build ==> *final(context) is Build && recorded_eq(
                old(context)->Build_0,
                final(context)->Build_0,
                self.id_spec(),
                other.id_spec(),
            ),
            self is Compute ==> *final(context) == *old(context),
    {
        match self {
            Variable::Build { id } => {
                match (other, context) {
                    (Variable::Build { id: other_id }, EvalContext::Build(ctx)) => {
                        ctx.add_eq(*id, *other_id);
                    },
                    _ => {
                        proof {
                            assert(false);
                        }
                    },
                }
            },
            _ => {},
        }
    }

    /// Applies one binary operation: records a gate in build mode, or
    /// computes the value and appends the advice row in compute mode.
    pub fn binary_operation(self, right: Variable, operation: GateOperation, context: &mut EvalContext) -> (r:
        Variable)
        requires
            self is Build <==> right is Build,
            self is Build <==> *old(context) is Build,
            self is Compute ==> fe_wf(self.value_spec()) && fe_wf(right.value_spec()),
        ensures
            self is Build ==> r is Build && *final(context) is Build && recorded_gate(
                old(context)->Build_0,
                final(context)->Build_0,
                self.id_value(),
                right.id_value(),
                operation,
                r.id_value(),
            ),
            self is Compute ==> r is Compute && *final(context) is Compute && computed_gate(
                old(context)->Compute_0,
                final(context)->Compute_0,
                self.value_spec(),
                right.value_spec(),
                operation,
                r.value_spec(),
            ),
    {
        match (self, right) {
            (Variable::Build { id }, Variable::Build { id: right_id }) => {
                match context {
                    EvalContext::Build(ctx) => {
                        let v = BuildVar { id }.binary_operation(
                            &BuildVar { id: right_id },
                            operation,
                            ctx,
                        );
                        Variable::Build { id: v.id }
                    },
                    EvalContext::Compute(_) => {
                        proof {
                            assert(false);
                        }
                        Variable::Build { id }
                    },
                }
            },
            (Variable::Compute { value }, Variable::Compute { value: right_value }) => {
                match context {
                    EvalContext::Compute(advice) => {
                        let v = ComputeVar { value }.binary_operation(
                            &ComputeVar { value: right_value },
                            operation,
                            advice,
                        );
                        Variable::Compute { value: v.value }
                    },
                    EvalContext::Build(_) => {
                        proof {
                            assert(false);
                        }
                        Variable::Compute { value }
                    },
                }
            },
            _ => {
                proof {
                    assert(false);
                }
                self
            },
        }
    }
}

impl CircuitBuilder {
    /// Runs a circuit description in build mode against a fresh context,
    /// resolves its copy constraints, and compiles selector columns and
    /// sigma data over the padded domain.
    pub fn compile<const I: usize, C: CircuitDescription<I>>() -> (r: Result<
        CompiledCircuit,
        PlonkError,
    >)
        ensures
            r is Ok ==> r->Ok_0.wf(),
            r is Err ==> r->Err_0 == PlonkError::UnresolvedVariable || r->Err_0
                == PlonkError::DomainTooLarge || r->Err_0 == PlonkError::CosetExhausted,
    {
        let mut ctx = Context::default();
        let mut inputs: Vec<BuildVar> = Vec::new();
        let mut i: usize = 0;
        while i < I
            invariant
                i <= I,
                inputs@.len() == i,
            decreases I - i,
        {
            let v = BuildVar::input(&mut ctx);
            inputs.push(v);
            i = i + 1;
        }
        C::run::<BuildVar>(&mut ctx, inputs);
        proof {
            use_type_invariant(&ctx);
        }
        let (gates, mut permutation) = match ctx.finish() {
            Ok(p) => p,
            Err(e) => {
                return Err(e);
            },
        };
        let rows = gates.len();
        let sel = CircuitBuilder::selector_columns(&gates);
        let perm = permutation.build(rows);
        let compiled = match perm.compile() {
            Ok(c) => c,
            Err(e) => {
                return Err(e);
            },
        };
        proof {
            assert forall|c: int, j: int|
                0 <= c < 5 && 0 <= j < rows implies fe_wf(#[trigger] sel@[c]@[j]) by {
                lemma_row_wf(gates@[j], c);
            }
        }
        let mut sel = sel;
        let q_c = match sel.pop() {
            Some(v) => v,
            None => {
                proof {
                    assert(false);
                }
                Vec::new()
            },
        };
        let q_m = match sel.pop() {
            Some(v) => v,
            None => {
                proof {
                    assert(false);
                }
                Vec::new()
            },
        };
        let q_o = match sel.pop() {
            Some(v) => v,
            None => {
                proof {
                    assert(false);
                }
                Vec::new()
            },
        };
        let q_r = match sel.pop() {
            Some(v) => v,
            None => {
                proof {
                    assert(false);
                }
                Vec::new()
            },
        };
        let q_l = match sel.pop() {
            Some(v) => v,
            None => {
                proof {
                    assert(false);
                }
                Vec::new()
            },
        };
        Ok(
            CompiledCircuit {
                gate_constrains: GateConstrains { q_l, q_r, q_o, q_m, q_c },
                copy_constrains: compiled,
                rows,
            },
        )
    }
}

/// Build mode and compute mode advance in step: one binary operation
/// appends exactly one gate in build mode and exactly one advice row in
/// compute mode, so a circuit that runs the same operations in both modes
/// records as many gates as it produces advice triples.
pub proof fn lemma_mode_alignment(
    bpre: Context,
    bpost: Context,
    apre: Advice,
    apost: Advice,
    left_id: u64,
    right_id: u64,
    left_v: Fe,
    right_v: Fe,
    operation: GateOperation,
    out_id: u64,
    out_v: Fe,
)
    requires
        recorded_gate(bpre, bpost, left_id, right_id, operation, out_id),
        computed_gate(apre, apost, left_v, right_v, operation, out_v),
        bpre.gates().len() == apre.a().len(),
    ensures
        bpost.gates().len() == apost.a().len(),
        bpost.gates().len() == bpre.gates().len() + 1,
        apost.a().len() == apre.a().len() + 1,
        apost.b().len() == apre.b().len() + 1,
        apost.c().len() == apre.c().len() + 1,
{
}

/// Every selector value is a well-formed field element.
proof fn lemma_row_wf(g: Gate, c: int)
    requires
        0 <= c < 5,
    ensures
        fe_wf(g.row_spec()[c]),
{
    match g {
        Gate::Mul => {},
        Gate::Add => {},
        Gate::Dummy => {},
    }
}

} // verus!
