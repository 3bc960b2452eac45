//! Cell tags, the permutation builder, and the raw permutation produced by
//! resolving copy constraints with a union-find over permutation cycles.

use vstd::prelude::*;
use vstd::pervasive::VecAdditionalExecFns;
use crate::PlonkError;
use crate::field::{
    is_pow2, vanishes, vanishes_of, domain_cell, domain_cell_of, interp_eval, interp_eval_of, Fe,
    fe_wf, fe_from_u64, MAX_DOMAIN_SIZE,
};
use crate::cycles::{
    valid_perm, surjective, hits, uf_inv, in_cycle, iter_n, connected, edge_joins, visited_before,
    merged_root, swapped, class_of, count_ne, lemma_connected_refl, lemma_connected_step,
    lemma_connected_trans, lemma_connected_empty, lemma_connected_mono, lemma_connected_push_cases,
    lemma_swap_cycles, lemma_iter_class, lemma_cycle_same_class, lemma_count_ne_update,
    lemma_class_sizes, lemma_walk_covers_class,
};

verus! {

/// Number of wire columns in the circuit matrix: left input, right input, output.
pub const COLUMNS: usize = 3;

/// A cell position in the circuit matrix: column `i`, row `j`.
#[derive(Hash, Debug, PartialEq, Eq, Structural, Clone, Copy)]
pub struct Tag {
    pub i: usize,
    pub j: usize,
}

/// The flat index of a cell: cells are packed column-major, `i * rows + j`.
pub open spec fn flat_index(t: Tag, rows: int) -> int {
    t.i * rows + t.j
}

/// The cell at a given flat index, for a matrix with `rows` rows.
pub open spec fn tag_at(index: int, rows: int) -> Tag
    recommends
        rows > 0,
{
    Tag { i: (index / rows) as usize, j: (index % rows) as usize }
}

impl Tag {
    /// Flatten this tag to its index in the column-major layout.
    pub fn to_index(&self, rows: &usize) -> (r: usize)
        requires
            flat_index(*self, *rows as int) <= usize::MAX,
        ensures
            r == flat_index(*self, *rows as int),
    {
        self.j + self.i * *rows
    }

    /// Recover the tag that a flat index denotes.
    pub fn from_index(index: &usize, rows: &usize) -> (r: Self)
        requires
            *rows > 0,
        ensures
            r == tag_at(*index as int, *rows as int),
    {
        let i = *index / *rows;
        let j = *index % *rows;
        Tag { i, j }
    }
}

/// Collects equality constraints between cells; `build` resolves them into a
/// single permutation over all cells.
#[derive(Debug)]
pub struct PermutationBuilder {
    /// The recorded equalities, in insertion order.
    constrains: Vec<(Tag, Tag)>,
    /// The number of rows in the circuit matrix.
    rows: usize,
}

impl PermutationBuilder {
    /// The recorded equalities, in insertion order.
    pub closed spec fn constraints(self) -> Seq<(Tag, Tag)> {
        self.constrains@
    }

    /// The number of rows the builder currently accepts.
    pub closed spec fn rows(self) -> nat {
        self.rows as nat
    }

    /// Whether a tag may appear in a constraint: its row must exist, and its
    /// column index may equal, but not exceed, the column count. The bound is
    /// deliberately one column wider than the matrix; `build` in turn demands
    /// strictly placed cells, which is all that the circuit context ever
    /// records.
    pub open spec fn tag_ok(self, t: Tag) -> bool {
        t.i <= COLUMNS && t.j < self.rows()
    }

    pub fn new() -> (r: Self)
        ensures
            r.constraints() == Seq::<(Tag, Tag)>::empty(),
            r.rows() == 0,
    {
        PermutationBuilder { constrains: Vec::new(), rows: 0 }
    }

    pub fn add_row(&mut self)
        requires
            old(self).rows() < usize::MAX,
        ensures
            final(self).rows() == old(self).rows() + 1,
            final(self).constraints() == old(self).constraints(),
    {
        self.rows = self.rows + 1;
    }

    pub fn with_rows(rows: usize) -> (r: Self)
        ensures
            r.constraints() == Seq::<(Tag, Tag)>::empty(),
            r.rows() == rows,
    {
        PermutationBuilder { constrains: Vec::new(), rows }
    }

    /// Checks whether a tag is acceptable to `add_constrain`.
    fn check_tag(&self, tag: &Tag) -> (r: bool)
        ensures
            r == self.tag_ok(*tag),
    {
        tag.i <= COLUMNS && tag.j < self.rows
    }

    /// Records the equality of two cells. Fails with `InvalidTag`, recording
    /// nothing, iff either tag is out of range.
    pub fn add_constrain(&mut self, left: Tag, right: Tag) -> (r: Result<(), PlonkError>)
        ensures
            r is Ok <==> old(self).tag_ok(left) && old(self).tag_ok(right),
            r is Ok ==> final(self).constraints() == old(self).constraints().push((left, right)),
            r is Err ==> r == Result::<(), PlonkError>::Err(PlonkError::InvalidTag)
                && final(self).constraints() == old(self).constraints(),
            final(self).rows() == old(self).rows(),
    {
        if !(self.check_tag(&left) && self.check_tag(&right)) {
            Err(PlonkError::InvalidTag)
        } else {
            self.constrains.push((left, right));
            Ok(())
        }
    }

    /// Records a batch of equalities, all of which must be in range.
    #[verifier::loop_isolation(false)]
    pub fn add_constrains(&mut self, constrains: Vec<(Tag, Tag)>)
        requires
            forall|k: int|
                0 <= k < constrains@.len() ==> old(self).tag_ok(#[trigger] constrains@[k].0)
                    && old(self).tag_ok(constrains@[k].1),
        ensures
            final(self).constraints() == old(self).constraints() + constrains@,
            final(self).rows() == old(self).rows(),
    {
        let ghost orig = *self;
        let n = constrains.len();
        for idx in 0..n
            invariant
                self.rows() == orig.rows(),
                self.constraints() == orig.constraints() + constrains@.take(idx as int),
        {
            let (left, right) = constrains[idx];
            let res = self.add_constrain(left, right);
            proof {
                assert(res is Ok);
                assert(orig.constraints() + constrains@.take(idx + 1) =~= orig.constraints()
                    + constrains@.take(idx as int) + seq![constrains@[idx as int]]);
            }
        }
        proof {
            assert(constrains@.take(n as int) =~= constrains@);
        }
    }

    /// Resolves the recorded equalities into a single permutation over all
    /// `COLUMNS * size` cells, using a union-find whose classes are kept as
    /// cycles of the permutation under construction. Afterwards the builder
    /// holds no constraints.
    ///
    /// The result is a permutation of the flat indices whose cycles are
    /// exactly the equivalence classes that the constraints generate; with no
    /// constraints it is the identity.
    pub fn build(&mut self, size: usize) -> (r: Permutation)
        requires
            old(self).rows() <= size,
            size * 3 <= usize::MAX,
            forall|k: int|
                0 <= k < old(self).constraints().len() ==> cell_in_matrix(
                    (#[trigger] old(self).constraints()[k]).0,
                    old(self).rows() as int,
                ) && cell_in_matrix(old(self).constraints()[k].1, old(self).rows() as int),
        ensures
            final(self).rows() == old(self).rows(),
            final(self).constraints().len() == 0,
            r.mapping().len() == 3 * size,
            valid_perm(r.mapping(), 3 * size as int),
            surjective(r.mapping(), 3 * size as int),
            forall|u: int, v: int|
                0 <= u < 3 * size && 0 <= v < 3 * size ==> (in_cycle(r.mapping(), u, v)
                    <==> connected(old(self).constraints(), size as int, u, v)),
            old(self).constraints().len() == 0 ==> forall|i: int|
                0 <= i < 3 * size ==> r.mapping()[i] == i,
    {
        let len = size * 3;
        let ghost n = len as int;
        let ghost edges = self.constrains@;
        let ghost rows0 = self.rows() as int;

        let mut mapping: Vec<usize> = Vec::new();
        let mut aux: Vec<usize> = Vec::new();
        let mut sizes: Vec<usize> = Vec::new();
        let mut i: usize = 0;
        while i < len
            invariant
                i <= len,
                mapping@.len() == i,
                aux@.len() == i,
                sizes@.len() == i,
                forall|z: int| 0 <= z < i ==> (#[trigger] mapping@[z]) == z,
                forall|z: int| 0 <= z < i ==> (#[trigger] aux@[z]) == z,
                forall|z: int| 0 <= z < i ==> (#[trigger] sizes@[z]) == 1,
            decreases len - i,
        {
            mapping.push(i);
            aux.push(i);
            sizes.push(1);
            i = i + 1;
        }

        proof {
            assert forall|v: int| 0 <= v < n implies #[trigger] hits(mapping@, n, v) by {
                assert(mapping@[v] == v);
            }
            assert forall|u: int, v: int|
                0 <= u < n && 0 <= v < n && aux@[u] == aux@[v] implies in_cycle(
                mapping@,
                u,
                v,
            ) by {
                assert(iter_n(mapping@, u, 0) == u);
            }
            assert(uf_inv(mapping@, aux@, n));
            assert forall|u: int, v: int|
                #![trigger aux@[u], aux@[v]]
                0 <= u < n && 0 <= v < n implies (aux@[u] == aux@[v] <==> connected(
                edges.take(0),
                size as int,
                u,
                v,
            )) by {
                if aux@[u] == aux@[v] {
                    lemma_connected_refl(edges.take(0), size as int, u);
                }
                if connected(edges.take(0), size as int, u, v) {
                    lemma_connected_empty(edges.take(0), size as int, u, v);
                }
            }
            assert forall|rt: int| 0 <= rt < n && aux@[rt] == rt implies (#[trigger] sizes@[rt])
                as int == class_of(aux@, rt).len() by {
                assert(class_of(aux@, rt) =~= Set::empty().insert(rt));
            }
        }

        proof {
            assert forall|e: int|
                0 <= e < edges.len() implies cell_in_matrix((#[trigger] edges[e]).0, rows0)
                && cell_in_matrix(edges[e].1, rows0) by {
                assert(edges[e] == (old(self).constraints()[e]));
            }
        }
        let num = self.constrains.len();
        let mut k: usize = 0;
        while k < num
            invariant
                k <= num,
                num == edges.len(),
                self.constrains@ == edges,
                self.rows() as int == rows0,
                rows0 <= size,
                size * 3 == n,
                n <= usize::MAX,
                mapping@.len() == n,
                aux@.len() == n,
                sizes@.len() == n,
                uf_inv(mapping@, aux@, n),
                forall|e: int|
                    0 <= e < edges.len() ==> cell_in_matrix((#[trigger] edges[e]).0, rows0)
                        && cell_in_matrix(edges[e].1, rows0),
                forall|u: int, v: int|
                    #![trigger aux@[u], aux@[v]]
                    0 <= u < n && 0 <= v < n ==> (aux@[u] == aux@[v] <==> connected(
                        edges.take(k as int),
                        size as int,
                        u,
                        v,
                    )),
                forall|rt: int|
                    0 <= rt < n && aux@[rt] == rt ==> (#[trigger] sizes@[rt]) as int == class_of(
                        aux@,
                        rt,
                    ).len(),
            decreases num - k,
        {
            let (a, b) = self.constrains[k];
            proof {
                lemma_flat_bound(a, size as int, rows0);
                lemma_flat_bound(b, size as int, rows0);
            }
            let mut left = a.to_index(&size);
            let mut right = b.to_index(&size);
            let ghost fa = left as int;
            let ghost fb = right as int;
            proof {
                assert(edges.take(k + 1) =~= edges.take(k as int).push(edges[k as int]));
                assert(edges.take(k + 1)[k as int] == edges[k as int]);
                assert(edge_joins(edges.take(k + 1), size as int, fa, fb));
            }
            if aux[left] == aux[right] {
                // Already merged: the new constraint changes no class.
                proof {
                    lemma_step_redundant(
                        edges,
                        k as int,
                        size as int,
                        mapping@,
                        aux@,
                        n,
                        fa,
                        fb,
                    );
                }
            } else {
                if sizes[aux[left]] < sizes[aux[right]] {
                    let t = left;
                    left = right;
                    right = t;
                }
                let ghost x = left as int;
                let ghost y = right as int;
                let ghost m = mapping@;
                let ghost root0 = aux@;
                proof {
                    lemma_class_sizes(root0, n, root0[x] as int, root0[y] as int);
                }
                let sl = sizes[aux[left]];
                let sr = sizes[aux[right]];
                sizes.set(aux[left], sl + sr);
                let mut next = right;
                let aux_left = aux[left];
                let ghost mut steps: nat = 0;
                loop
                    invariant_except_break
                        aux@.len() == n,
                        mapping@ == m,
                        uf_inv(m, root0, n),
                        0 <= x < n,
                        0 <= y < n,
                        root0[x] != root0[y],
                        aux_left == root0[x],
                        next < aux@.len(),
                        next as int == iter_n(m, y, steps),
                        aux@[next as int] != aux_left,
                        forall|z: int|
                            0 <= z < n ==> (#[trigger] aux@[z]) == (if visited_before(
                                m,
                                y,
                                steps,
                                z,
                            ) {
                                aux_left
                            } else {
                                root0[z]
                            }),
                    ensures
                        aux@.len() == n,
                        mapping@ == m,
                        steps >= 1,
                        next as int == iter_n(m, y, steps),
                        aux@[next as int] == aux_left,
                        forall|z: int|
                            0 <= z < n ==> (#[trigger] aux@[z]) == (if visited_before(
                                m,
                                y,
                                steps,
                                z,
                            ) {
                                aux_left
                            } else {
                                root0[z]
                            }),
                    decreases count_ne(aux@, aux_left),
                {
                    let ghost aux_pre = aux@;
                    let ghost steps_pre = steps;
                    proof {
                        lemma_iter_class(m, root0, n, y, steps);
                    }
                    aux.set(next, aux_left);
                    next = mapping[next];
                    proof {
                        steps = steps + 1;
                        lemma_count_ne_update(aux_pre, aux_left, iter_n(m, y, steps_pre));
                        assert(iter_n(m, y, steps) == m[iter_n(m, y, steps_pre)] as int);
                        lemma_iter_class(m, root0, n, y, steps);
                        assert forall|z: int|
                            0 <= z < n implies (#[trigger] aux@[z]) == (if visited_before(
                            m,
                            y,
                            steps,
                            z,
                        ) {
                            aux_left
                        } else {
                            root0[z]
                        }) by {
                            if z == iter_n(m, y, steps_pre) {
                                assert(visited_before(m, y, steps, z));
                            } else {
                                assert(aux@[z] == aux_pre[z]);
                                if visited_before(m, y, steps, z) {
                                    let jj = choose|jj: nat|
                                        jj < steps && iter_n(m, y, jj) == z;
                                    assert(jj < steps_pre);
                                    assert(visited_before(m, y, steps_pre, z));
                                } else {
                                    assert(!visited_before(m, y, steps_pre, z));
                                }
                            }
                        }
                    }
                    if aux[next] == aux_left {
                        break ;
                    }
                }
                proof {
                    // The walk closed on a visited cell, so it covered the
                    // whole class of y; the relabelled roots are merged_root.
                    lemma_iter_class(m, root0, n, y, steps);
                    if !visited_before(m, y, steps, next as int) {
                        assert(aux@[next as int] == root0[next as int]);
                        assert(false);
                    }
                    let j = choose|j: nat| j < steps && iter_n(m, y, j) == next as int;
                    lemma_walk_covers_class(m, root0, n, y, (steps - 1) as nat, j);
                    assert forall|z: int|
                        0 <= z < n implies (#[trigger] aux@[z]) == merged_root(root0, x, y)[z] by {
                        if root0[z] == root0[y] {
                            let kk = choose|kk: nat|
                                kk <= (steps - 1) as nat && iter_n(m, y, kk) == z;
                            assert(visited_before(m, y, steps, z));
                        } else {
                            if visited_before(m, y, steps, z) {
                                let jj = choose|jj: nat| jj < steps && iter_n(m, y, jj) == z;
                                lemma_iter_class(m, root0, n, y, jj);
                                assert(false);
                            }
                        }
                    }
                    assert(aux@ =~= merged_root(root0, x, y));
                }
                let tmp = mapping[left];
                let mr = mapping[right];
                mapping.set(left, mr);
                mapping.set(right, tmp);
                proof {
                    assert(mapping@ =~= swapped(m, x, y));
                    lemma_swap_cycles(m, root0, n, x, y);
                    lemma_step_merge(
                        edges,
                        k as int,
                        size as int,
                        m,
                        root0,
                        n,
                        fa,
                        fb,
                        x,
                        y,
                    );
                    // Class cardinalities after the merge.
                    let rx = root0[x] as int;
                    let ry = root0[y] as int;
                    assert(class_of(aux@, rx) =~= class_of(root0, rx).union(class_of(root0, ry)));
                    assert forall|rt: int|
                        0 <= rt < n && aux@[rt] == rt implies (#[trigger] sizes@[rt]) as int
                        == class_of(aux@, rt).len() by {
                        if rt != rx {
                            assert(root0[rt] == rt);
                            assert(class_of(aux@, rt) =~= class_of(root0, rt));
                        }
                    }
                }
            }
            k = k + 1;
        }
        self.constrains = Vec::new();
        proof {
            assert(edges.take(num as int) =~= edges);
            assert forall|u: int, v: int|
                0 <= u < 3 * size && 0 <= v < 3 * size implies (in_cycle(mapping@, u, v)
                <==> connected(edges, size as int, u, v)) by {
                if in_cycle(mapping@, u, v) {
                    lemma_cycle_same_class(mapping@, aux@, n, u, v);
                }
            }
            if edges.len() == 0 {
                assert forall|z: int| 0 <= z < 3 * size implies mapping@[z] == z by {
                    assert(iter_n(mapping@, z, 0) == z);
                    assert(iter_n(mapping@, z, 1) == mapping@[z] as int);
                    assert(in_cycle(mapping@, z, mapping@[z] as int));
                    lemma_connected_empty(edges, size as int, z, mapping@[z] as int);
                }
            }
        }
        Permutation { perm: mapping }
    }
}

/// A tag that a gate actually emitted: its column is one of the three wire
/// columns and its row exists.
pub open spec fn cell_in_matrix(t: Tag, rows: int) -> bool {
    t.i < COLUMNS && t.j < rows
}

/// Flat indices of emitted tags stay inside the matrix.
proof fn lemma_flat_bound(t: Tag, size: int, rows: int)
    requires
        cell_in_matrix(t, rows),
        rows <= size,
    ensures
        0 <= flat_index(t, size) < 3 * size,
{
    if t.i == 0 {
        assert(t.i * size == 0);
    } else if t.i == 1 {
        assert(t.i * size == size);
    } else {
        assert(t.i == 2);
        assert(t.i * size == 2 * size);
    }
}

/// A redundant constraint (both ends already share a class) leaves the
/// class structure in step with the grown constraint prefix.
proof fn lemma_step_redundant(
    edges: Seq<(Tag, Tag)>,
    k: int,
    rows: int,
    m: Seq<usize>,
    root: Seq<usize>,
    n: int,
    fa: int,
    fb: int,
)
    requires
        0 <= k < edges.len(),
        uf_inv(m, root, n),
        0 <= fa < n,
        0 <= fb < n,
        root[fa] == root[fb],
        flat_index(edges[k].0, rows) == fa && flat_index(edges[k].1, rows) == fb,
        forall|u: int, v: int|
            #![trigger root[u], root[v]]
            0 <= u < n && 0 <= v < n ==> (root[u] == root[v] <==> connected(
                edges.take(k),
                rows,
                u,
                v,
            )),
    ensures
        forall|u: int, v: int|
            #![trigger root[u], root[v]]
            0 <= u < n && 0 <= v < n ==> (root[u] == root[v] <==> connected(
                edges.take(k + 1),
                rows,
                u,
                v,
            )),
{
    let e0 = edges.take(k);
    let e1 = edges.take(k + 1);
    assert(e1 =~= e0.push(edges[k]));
    assert forall|u: int, v: int|
        #![trigger root[u], root[v]]
        0 <= u < n && 0 <= v < n implies (root[u] == root[v] <==> connected(
        e1,
        rows,
        u,
        v,
    )) by {
        lemma_take_prefix_mono(edges, k, rows);
        if root[u] == root[v] {
            lemma_connected_mono(e0, e1, rows, u, v);
        }
        if connected(e1, rows, u, v) {
            lemma_connected_push_cases(e0, edges[k], rows, u, v);
        }
    }
}

/// After a merge, the relabelled classes match connectivity over the grown
/// constraint prefix.
proof fn lemma_step_merge(
    edges: Seq<(Tag, Tag)>,
    k: int,
    rows: int,
    m: Seq<usize>,
    root: Seq<usize>,
    n: int,
    fa: int,
    fb: int,
    x: int,
    y: int,
)
    requires
        0 <= k < edges.len(),
        uf_inv(m, root, n),
        0 <= fa < n,
        0 <= fb < n,
        0 <= x < n,
        0 <= y < n,
        root[x] != root[y],
        (x == fa && y == fb) || (x == fb && y == fa),
        flat_index(edges[k].0, rows) == fa && flat_index(edges[k].1, rows) == fb,
        forall|u: int, v: int|
            #![trigger root[u], root[v]]
            0 <= u < n && 0 <= v < n ==> (root[u] == root[v] <==> connected(
                edges.take(k),
                rows,
                u,
                v,
            )),
    ensures
        forall|u: int, v: int|
            #![trigger merged_root(root, x, y)[u], merged_root(root, x, y)[v]]
            0 <= u < n && 0 <= v < n ==> (merged_root(root, x, y)[u] == merged_root(
                root,
                x,
                y,
            )[v] <==> connected(edges.take(k + 1), rows, u, v)),
{
    let e0 = edges.take(k);
    let e1 = edges.take(k + 1);
    let root2 = merged_root(root, x, y);
    assert(e1 =~= e0.push(edges[k]));
    assert(e1[k] == edges[k]);
    assert(edge_joins(e1, rows, x, y));
    lemma_take_prefix_mono(edges, k, rows);
    assert forall|u: int, v: int|
        #![trigger root2[u], root2[v]]
        0 <= u < n && 0 <= v < n implies (root2[u] == root2[v] <==> connected(
        e1,
        rows,
        u,
        v,
    )) by {
        if root2[u] == root2[v] {
            if root[u] == root[v] {
                lemma_connected_mono(e0, e1, rows, u, v);
            } else if root[u] == root[x] && root[v] == root[y] {
                lemma_connected_mono(e0, e1, rows, u, x);
                lemma_connected_mono(e0, e1, rows, y, v);
                lemma_connected_step(e1, rows, x, y, v);
                lemma_connected_trans(e1, rows, u, x, v);
            } else {
                assert(root[u] == root[y] && root[v] == root[x]);
                lemma_connected_mono(e0, e1, rows, u, y);
                lemma_connected_mono(e0, e1, rows, x, v);
                assert(edge_joins(e1, rows, y, x));
                lemma_connected_step(e1, rows, y, x, v);
                lemma_connected_trans(e1, rows, u, y, v);
            }
        }
        if connected(e1, rows, u, v) {
            lemma_connected_push_cases(e0, edges[k], rows, u, v);
            // Each case forces the merged roots of u and v to agree.
        }
    }
}

/// Edges of a prefix are edges of the extended prefix.
proof fn lemma_take_prefix_mono(edges: Seq<(Tag, Tag)>, k: int, rows: int)
    requires
        0 <= k < edges.len(),
    ensures
        forall|a2: int, b2: int|
            edge_joins(#[trigger] edges.take(k), rows, a2, b2) ==> edge_joins(
                edges.take(k + 1),
                rows,
                a2,
                b2,
            ),
{
    assert forall|a2: int, b2: int|
        edge_joins(edges.take(k), rows, a2, b2) implies edge_joins(
        edges.take(k + 1),
        rows,
        a2,
        b2,
    ) by {
        let idx = choose|idx: int|
            0 <= idx < edges.take(k).len() && {
                let p = flat_index((#[trigger] edges.take(k)[idx]).0, rows);
                let q = flat_index(edges.take(k)[idx].1, rows);
                (p == a2 && q == b2) || (p == b2 && q == a2)
            };
        assert(edges.take(k + 1)[idx] == edges.take(k)[idx]);
    }
}

/// A raw permutation of all cells, in cycle form: entry `i` holds the flat
/// index to which cell `i` forwards its value.
#[derive(Debug)]
pub struct Permutation {
    perm: Vec<usize>,
}

/// The greedy coset-offset search: the first candidate at or above `k` that
/// is not a root of the domain's vanishing polynomial, giving up after
/// `fuel` rejected candidates.
pub open spec fn next_free_coset(k: int, rows: int, fuel: nat) -> Option<int>
    decreases fuel,
{
    if !vanishes_of(k, rows) {
        Some(k)
    } else if fuel == 0 {
        None
    } else {
        next_free_coset(k + 1, rows, (fuel - 1) as nat)
    }
}

impl Permutation {
    /// The permutation as a sequence of images.
    pub closed spec fn mapping(self) -> Seq<usize> {
        self.perm@
    }

    /// Read access to the underlying vector of images.
    pub fn values(&self) -> (r: &Vec<usize>)
        ensures
            r@ == self.mapping(),
    {
        &self.perm
    }

    /// Chooses the three coset offsets for a domain of `rows` elements. The
    /// first offset is one (the domain itself); each later offset resumes
    /// counting above its predecessor and skips every integer that lies in
    /// the domain. The search concedes defeat after `rows` rejections per
    /// slot, which for this field cannot happen for any integer run this
    /// short, but is reported rather than assumed.
    #[verifier::loop_isolation(false)]
    fn cosets(rows: usize) -> (r: Result<Vec<u64>, PlonkError>)
        requires
            is_pow2(rows as nat),
            rows <= MAX_DOMAIN_SIZE,
        ensures
            r is Ok ==> {
                let ks = r->Ok_0@;
                &&& ks.len() == 3
                &&& ks[0] == 1u64
                &&& next_free_coset(2, rows as int, rows as nat) == Some(ks[1] as int)
                &&& next_free_coset(ks[1] as int + 1, rows as int, rows as nat) == Some(
                    ks[2] as int,
                )
            },
            r is Err ==> r == Result::<Vec<u64>, PlonkError>::Err(PlonkError::CosetExhausted),
            r is Err <==> next_free_coset(2, rows as int, rows as nat) is None || {
                let k1 = next_free_coset(2, rows as int, rows as nat)->Some_0;
                next_free_coset(k1 + 1, rows as int, rows as nat) is None
            },
    {
        let mut ks: Vec<u64> = Vec::new();
        ks.push(1);
        let mut k: u64 = 2;
        let mut slot: usize = 1;
        while slot < 3
            invariant
                1 <= slot <= 3,
                ks@.len() == slot,
                ks@[0] == 1u64,
                k <= 2 + (slot - 1) * (rows + 1),
                slot == 1 ==> k == 2,
                slot >= 2 ==> next_free_coset(2, rows as int, rows as nat) == Some(ks@[1] as int),
                slot == 2 ==> k == ks@[1] + 1,
                slot == 3 ==> next_free_coset(ks@[1] as int + 1, rows as int, rows as nat) == Some(
                    ks@[2] as int,
                ) && k == ks@[2] + 1,
            decreases 3 - slot,
        {
            let start = k;
            proof {
                assert((slot - 1) as int * ((rows + 1) as int) <= (rows + 1) as int)
                    by (nonlinear_arith)
                    requires
                        1 <= slot <= 2,
                        0 <= rows as int,
                ;
                assert(start + rows + 1 <= u64::MAX);
            }
            let mut fuel = rows;
            let mut found = !vanishes(k, rows);
            while !found && fuel > 0
                invariant
                    fuel <= rows,
                    k == start + (rows - fuel),
                    found == !vanishes_of(k as int, rows as int),
                    next_free_coset(start as int, rows as int, rows as nat) == next_free_coset(
                        k as int,
                        rows as int,
                        fuel as nat,
                    ),
                decreases fuel,
            {
                fuel = fuel - 1;
                k = k + 1;
                found = !vanishes(k, rows);
            }
            if !found {
                return Err(PlonkError::CosetExhausted);
            }
            ks.push(k);
            proof {
                assert(slot as int * ((rows + 1) as int) == (slot - 1) as int * ((rows + 1) as int)
                    + (rows + 1) as int) by (nonlinear_arith);
            }
            k = k + 1;
            slot = slot + 1;
        }
        Ok(ks)
    }

    /// Compiles the raw permutation into per-column tag pairs: for column `i`
    /// and row `j`, the identity cell `(i, j)` paired with the cell to which
    /// it forwards its value, together with the chosen coset offsets. Fails
    /// exactly when the coset search does.
    pub fn compile(self) -> (r: Result<CompiledPermutation, PlonkError>)
        requires
            self.mapping().len() % 3 == 0,
            is_pow2((self.mapping().len() / 3) as nat),
            self.mapping().len() / 3 <= MAX_DOMAIN_SIZE,
            forall|i: int|
                0 <= i < self.mapping().len() ==> (#[trigger] self.mapping()[i])
                    < self.mapping().len(),
        ensures
            r is Ok ==> {
                let cc = r->Ok_0;
                &&& cc.wf()
                &&& cc.rows() == self.mapping().len() / 3
                &&& chosen_cosets(cc.cosets@, cc.rows() as int)
                &&& forall|i: int, j: int|
                    0 <= i < 3 && 0 <= j < cc.rows() ==> (#[trigger] cc.cols@[i]@[j]) == (
                    Tag { i: i as usize, j: j as usize },
                    tag_at(self.mapping()[i * cc.rows() + j] as int, cc.rows() as int),
                    )
            },
            r is Err ==> r == Result::<CompiledPermutation, PlonkError>::Err(
                PlonkError::CosetExhausted,
            ),
            r is Err <==> coset_search_fails((self.mapping().len() / 3) as int),
    {
        let len = self.perm.len();
        let rows = len / 3;
        proof {
            vstd::arithmetic::div_mod::lemma_fundamental_div_mod(len as int, 3);
        }
        let ks = match Self::cosets(rows) {
            Ok(ks) => ks,
            Err(e) => {
                return Err(e);
            },
        };
        let mut cols: Vec<Vec<(Tag, Tag)>> = Vec::new();
        let mut i: usize = 0;
        while i < 3
            invariant
                len == self.perm@.len(),
                len == 3 * rows,
                rows <= MAX_DOMAIN_SIZE,
                is_pow2(rows as nat),
                forall|e: int| 0 <= e < len ==> (#[trigger] self.perm@[e]) < len,
                i <= 3,
                cols@.len() == i,
                forall|i2: int, j2: int|
                    0 <= i2 < i && 0 <= j2 < rows ==> (#[trigger] cols@[i2]@[j2]) == (
                    Tag { i: i2 as usize, j: j2 as usize },
                    tag_at(self.perm@[i2 * rows + j2] as int, rows as int),
                    ),
                forall|i2: int| 0 <= i2 < i ==> (#[trigger] cols@[i2])@.len() == rows,
            decreases 3 - i,
        {
            let mut col: Vec<(Tag, Tag)> = Vec::new();
            let mut j: usize = 0;
            while j < rows
                invariant
                    len == self.perm@.len(),
                    len == 3 * rows,
                    rows <= MAX_DOMAIN_SIZE,
                    is_pow2(rows as nat),
                    forall|e: int| 0 <= e < len ==> (#[trigger] self.perm@[e]) < len,
                    i < 3,
                    j <= rows,
                    col@.len() == j,
                    forall|j2: int|
                        0 <= j2 < j ==> (#[trigger] col@[j2]) == (
                        Tag { i: i as usize, j: j2 as usize },
                        tag_at(self.perm@[i as int * rows + j2] as int, rows as int),
                        ),
                decreases rows - j,
            {
                proof {
                    if i == 0 {
                        assert(i * rows == 0);
                    } else if i == 1 {
                        assert(i * rows == rows);
                    } else {
                        assert(i * rows == 2 * rows);
                    }
                    assert(i * rows + j < 3 * rows);
                    assert(rows > 0) by {
                        if rows == 0 {
                            assert(!is_pow2(0nat));
                        }
                    }
                }
                let dst = self.perm[i * rows + j];
                let dst_tag = Tag::from_index(&dst, &rows);
                col.push((Tag { i, j }, dst_tag));
                j = j + 1;
            }
            cols.push(col);
            i = i + 1;
        }
        let cc = CompiledPermutation { cols, cosets: ks, rows };
        proof {
            assert forall|i2: int, j2: int|
                0 <= i2 < 3 && 0 <= j2 < rows implies cell_in_matrix(
                (#[trigger] cc.cols@[i2]@[j2]).1,
                rows as int,
            ) by {
                let e = i2 * rows + j2;
                if i2 == 0 {
                    assert(i2 * rows == 0);
                } else if i2 == 1 {
                    assert(i2 * rows == rows);
                } else {
                    assert(i2 * rows == 2 * rows);
                }
                assert(0 <= e < len);
                let dst = self.perm@[e] as int;
                assert(rows > 0) by {
                    if rows == 0 {
                        assert(!is_pow2(0nat));
                    }
                }
                vstd::arithmetic::div_mod::lemma_multiply_divide_lt(dst, rows as int, 3);
                vstd::arithmetic::div_mod::lemma_mod_division_less_than_divisor(
                    dst,
                    rows as int,
                );
            }
        }
        Ok(cc)
    }
}

/// The coset offsets that the greedy search selects for a domain of `rows`
/// elements: one, then the next two integers not in the domain.
pub open spec fn chosen_cosets(ks: Seq<u64>, rows: int) -> bool {
    &&& ks.len() == 3
    &&& ks[0] == 1u64
    &&& next_free_coset(2, rows, rows as nat) == Some(ks[1] as int)
    &&& next_free_coset(ks[1] as int + 1, rows, rows as nat) == Some(ks[2] as int)
}

/// A successful greedy search lands at or above its starting candidate, on a
/// value outside the domain.
proof fn lemma_next_free_bounds(k: int, rows: int, fuel: nat)
    requires
        next_free_coset(k, rows, fuel) is Some,
    ensures
        next_free_coset(k, rows, fuel)->Some_0 >= k,
        !vanishes_of(next_free_coset(k, rows, fuel)->Some_0, rows),
    decreases fuel,
{
    if !vanishes_of(k, rows) {
    } else {
        lemma_next_free_bounds(k + 1, rows, (fuel - 1) as nat);
    }
}

/// The chosen coset offsets are pairwise distinct integers: the first is
/// one, and each later one exceeds its predecessor; and none of the later
/// ones lies in the evaluation domain. (That the three cosets
/// `k[i] * <omega>` are pairwise disjoint as sets of field elements rests on
/// the field's arithmetic and is checked by tests, not proved here.)
pub proof fn lemma_cosets_distinct(ks: Seq<u64>, rows: int)
    requires
        chosen_cosets(ks, rows),
    ensures
        ks[0] == 1,
        ks[0] < ks[1] < ks[2],
        !vanishes_of(ks[1] as int, rows),
        !vanishes_of(ks[2] as int, rows),
{
    lemma_next_free_bounds(2, rows, rows as nat);
    lemma_next_free_bounds(ks[1] as int + 1, rows, rows as nat);
}

/// The greedy coset search finds no offset within its budget.
pub open spec fn coset_search_fails(rows: int) -> bool {
    next_free_coset(2, rows, rows as nat) is None || {
        let k1 = next_free_coset(2, rows, rows as nat)->Some_0;
        next_free_coset(k1 + 1, rows, rows as nat) is None
    }
}

/// The compiled permutation: per column, the identity tag and the
/// destination tag of every cell, plus the coset offsets that place each
/// column in its own coset of the evaluation domain.
#[derive(Debug)]
pub struct CompiledPermutation {
    /// For each of the three columns, one `(identity, destination)` tag pair
    /// per row.
    pub cols: Vec<Vec<(Tag, Tag)>>,
    /// The coset offsets `k[0..3]`, as plain integers.
    pub cosets: Vec<u64>,
    /// The number of rows (the evaluation-domain size).
    pub rows: usize,
}

impl CompiledPermutation {
    /// The number of rows of the compiled permutation.
    pub open spec fn rows(self) -> nat {
        self.rows as nat
    }

    /// Shape of a well-formed compiled permutation: three columns of `rows`
    /// tag pairs whose destinations lie in the matrix, three coset offsets,
    /// and a two-power domain size.
    pub open spec fn wf(self) -> bool {
        &&& self.cols@.len() == 3
        &&& self.cosets@.len() == 3
        &&& is_pow2(self.rows())
        &&& self.rows() <= MAX_DOMAIN_SIZE
        &&& forall|i: int| 0 <= i < 3 ==> (#[trigger] self.cols@[i])@.len() == self.rows()
        &&& forall|i: int, j: int|
            0 <= i < 3 && 0 <= j < self.rows() ==> cell_in_matrix(
                (#[trigger] self.cols@[i]@[j]).1,
                self.rows() as int,
            )
    }

    /// The field values of sigma column `i`: for each row, the destination
    /// tag rendered as `k[col] * omega^row`.
    pub open spec fn sigma_values(self, i: int) -> Seq<Fe> {
        Seq::new(
            self.rows(),
            |j: int|
                domain_cell_of(
                    self.cosets@[self.cols@[i]@[j].1.i as int],
                    self.cols@[i]@[j].1.j as int,
                    self.rows() as int,
                ),
        )
    }

    /// The sigma value of column `i`, row `j`: the destination tag of that
    /// cell, rendered as a field element. In row-zero destinations the root
    /// factor is one, so the value is the destination's coset offset itself.
    pub fn sigma_value_at(&self, i: usize, j: usize) -> (r: Fe)
        requires
            self.wf(),
            i < 3,
            j < self.rows(),
        ensures
            r == self.sigma_values(i as int)[j as int],
            fe_wf(r),
            self.cols@[i as int]@[j as int].1.j == 0 ==> r == fe_from_u64(
                self.cosets@[self.cols@[i as int]@[j as int].1.i as int],
            ),
    {
        let dst = self.cols[i][j].1;
        domain_cell(self.cosets[dst.i], dst.j, self.rows)
    }

    /// Per column, the value at `point` of the polynomial that interpolates
    /// the sigma column over the domain.
    pub fn sigma_evals(&self, point: &Fe) -> (r: Vec<Fe>)
        requires
            self.wf(),
            fe_wf(*point),
        ensures
            r@.len() == 3,
            forall|i: int|
                0 <= i < 3 ==> (#[trigger] r@[i]) == interp_eval_of(
                    self.sigma_values(i),
                    self.rows() as int,
                    *point,
                ),
    {
        let mut out: Vec<Fe> = Vec::new();
        let mut i: usize = 0;
        while i < 3
            invariant
                self.wf(),
                fe_wf(*point),
                i <= 3,
                out@.len() == i,
                forall|i2: int|
                    0 <= i2 < i ==> (#[trigger] out@[i2]) == interp_eval_of(
                        self.sigma_values(i2),
                        self.rows() as int,
                        *point,
                    ),
            decreases 3 - i,
        {
            let rows = self.rows;
            let mut vals: Vec<Fe> = Vec::new();
            let mut j: usize = 0;
            while j < rows
                invariant
                    self.wf(),
                    rows == self.rows(),
                    i < 3,
                    j <= rows,
                    vals@.len() == j,
                    forall|j2: int|
                        0 <= j2 < j ==> (#[trigger] vals@[j2]) == self.sigma_values(i as int)[j2]
                            && fe_wf(vals@[j2]),
                decreases rows - j,
            {
                let dst = self.cols[i][j].1;
                let v = domain_cell(self.cosets[dst.i], dst.j, rows);
                vals.push(v);
                j = j + 1;
            }
            proof {
                assert(vals@ =~= self.sigma_values(i as int));
            }
            let e = interp_eval(&vals, rows, point);
            out.push(e);
            i = i + 1;
        }
        out
    }
}

} // verus!
