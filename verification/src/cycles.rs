//! Facts about permutations given in cycle form, and about the equivalence
//! closure of a list of equality constraints. `PermutationBuilder::build`
//! leans on these to show that its union-find produces exactly the cycles
//! that the recorded constraints demand.

use vstd::prelude::*;
use crate::permutation::{flat_index, Tag};

verus! {

/// `m` is a permutation of `{0, ..., n-1}`, written as the vector of images.
pub open spec fn valid_perm(m: Seq<usize>, n: int) -> bool {
    &&& m.len() == n
    &&& forall|i: int| 0 <= i < n ==> (#[trigger] m[i]) < n
    &&& forall|i: int, j: int| 0 <= i < n && 0 <= j < n && i != j ==> m[i] != m[j]
}

/// The cell reached from `x` after `k` applications of `m`.
pub open spec fn iter_n(m: Seq<usize>, x: int, k: nat) -> int
    decreases k,
{
    if k == 0 {
        x
    } else {
        m[iter_n(m, x, (k - 1) as nat)] as int
    }
}

/// `y` lies on the cycle of `m` through `x` (reachable by applying `m`).
pub open spec fn in_cycle(m: Seq<usize>, x: int, y: int) -> bool {
    exists|k: nat| iter_n(m, x, k) == y
}

/// Some recorded constraint equates the cells with flat indices `x` and `y`.
pub open spec fn edge_joins(edges: Seq<(Tag, Tag)>, rows: int, x: int, y: int) -> bool {
    exists|k: int|
        0 <= k < edges.len() && {
            let a = flat_index((#[trigger] edges[k]).0, rows);
            let b = flat_index(edges[k].1, rows);
            (a == x && b == y) || (a == y && b == x)
        }
}

/// `x` and `y` are joined by a chain of at most `steps` constraints.
pub open spec fn connected_within(
    edges: Seq<(Tag, Tag)>,
    rows: int,
    x: int,
    y: int,
    steps: nat,
) -> bool
    decreases steps,
{
    x == y || (steps > 0 && exists|z: int|
        edge_joins(edges, rows, x, z) && connected_within(edges, rows, z, y, (steps - 1) as nat))
}

/// The transitive closure of the recorded constraints: `x` and `y` name cells
/// that must carry equal values.
pub open spec fn connected(edges: Seq<(Tag, Tag)>, rows: int, x: int, y: int) -> bool {
    exists|s: nat| connected_within(edges, rows, x, y, s)
}

pub proof fn lemma_connected_refl(edges: Seq<(Tag, Tag)>, rows: int, x: int)
    ensures
        connected(edges, rows, x, x),
{
    assert(connected_within(edges, rows, x, x, 0));
}

pub proof fn lemma_connected_step(edges: Seq<(Tag, Tag)>, rows: int, x: int, z: int, y: int)
    requires
        edge_joins(edges, rows, x, z),
        connected(edges, rows, z, y),
    ensures
        connected(edges, rows, x, y),
{
    let s = choose|s: nat| connected_within(edges, rows, z, y, s);
    assert(connected_within(edges, rows, x, y, s + 1));
}

proof fn lemma_connected_within_trans(
    edges: Seq<(Tag, Tag)>,
    rows: int,
    x: int,
    y: int,
    z: int,
    s: nat,
)
    requires
        connected_within(edges, rows, x, y, s),
        connected(edges, rows, y, z),
    ensures
        connected(edges, rows, x, z),
    decreases s,
{
    if x == y {
    } else {
        let m = choose|m: int|
            edge_joins(edges, rows, x, m) && connected_within(edges, rows, m, y, (s - 1) as nat);
        lemma_connected_within_trans(edges, rows, m, y, z, (s - 1) as nat);
        lemma_connected_step(edges, rows, x, m, z);
    }
}

pub proof fn lemma_connected_trans(edges: Seq<(Tag, Tag)>, rows: int, x: int, y: int, z: int)
    requires
        connected(edges, rows, x, y),
        connected(edges, rows, y, z),
    ensures
        connected(edges, rows, x, z),
{
    let s = choose|s: nat| connected_within(edges, rows, x, y, s);
    lemma_connected_within_trans(edges, rows, x, y, z, s);
}

/// Adding constraints never disconnects cells.
pub proof fn lemma_connected_mono(
    e1: Seq<(Tag, Tag)>,
    e2: Seq<(Tag, Tag)>,
    rows: int,
    x: int,
    y: int,
)
    requires
        connected(e1, rows, x, y),
        forall|a: int, b: int| edge_joins(e1, rows, a, b) ==> edge_joins(e2, rows, a, b),
    ensures
        connected(e2, rows, x, y),
{
    let s = choose|s: nat| connected_within(e1, rows, x, y, s);
    lemma_connected_within_mono(e1, e2, rows, x, y, s);
}

proof fn lemma_connected_within_mono(
    e1: Seq<(Tag, Tag)>,
    e2: Seq<(Tag, Tag)>,
    rows: int,
    x: int,
    y: int,
    s: nat,
)
    requires
        connected_within(e1, rows, x, y, s),
        forall|a: int, b: int| edge_joins(e1, rows, a, b) ==> edge_joins(e2, rows, a, b),
    ensures
        connected(e2, rows, x, y),
    decreases s,
{
    if x == y {
        lemma_connected_refl(e2, rows, x);
    } else {
        let m = choose|m: int|
            edge_joins(e1, rows, x, m) && connected_within(e1, rows, m, y, (s - 1) as nat);
        lemma_connected_within_mono(e1, e2, rows, m, y, (s - 1) as nat);
        lemma_connected_step(e2, rows, x, m, y);
    }
}

/// With no constraints, only a cell and itself are connected.
pub proof fn lemma_connected_empty(edges: Seq<(Tag, Tag)>, rows: int, x: int, y: int)
    requires
        edges.len() == 0,
        connected(edges, rows, x, y),
    ensures
        x == y,
{
    let s = choose|s: nat| connected_within(edges, rows, x, y, s);
    lemma_connected_within_empty(edges, rows, x, y, s);
}

proof fn lemma_connected_within_empty(edges: Seq<(Tag, Tag)>, rows: int, x: int, y: int, s: nat)
    requires
        edges.len() == 0,
        connected_within(edges, rows, x, y, s),
    ensures
        x == y,
    decreases s,
{
    if x != y {
        let m = choose|m: int|
            edge_joins(edges, rows, x, m) && connected_within(edges, rows, m, y, (s - 1) as nat);
        assert(false);
    }
}

/// A connection over `edges.push(p)` either avoids the new constraint, or
/// passes through it in one of the two directions.
pub proof fn lemma_connected_push_cases(
    edges: Seq<(Tag, Tag)>,
    p: (Tag, Tag),
    rows: int,
    x: int,
    y: int,
)
    requires
        connected(edges.push(p), rows, x, y),
    ensures
        connected(edges, rows, x, y) || (connected(edges, rows, x, flat_index(p.0, rows))
            && connected(edges, rows, flat_index(p.1, rows), y)) || (connected(
            edges,
            rows,
            x,
            flat_index(p.1, rows),
        ) && connected(edges, rows, flat_index(p.0, rows), y)),
{
    let s = choose|s: nat| connected_within(edges.push(p), rows, x, y, s);
    lemma_connected_within_push_cases(edges, p, rows, x, y, s);
}

proof fn lemma_connected_within_push_cases(
    edges: Seq<(Tag, Tag)>,
    p: (Tag, Tag),
    rows: int,
    x: int,
    y: int,
    s: nat,
)
    requires
        connected_within(edges.push(p), rows, x, y, s),
    ensures
        connected(edges, rows, x, y) || (connected(edges, rows, x, flat_index(p.0, rows))
            && connected(edges, rows, flat_index(p.1, rows), y)) || (connected(
            edges,
            rows,
            x,
            flat_index(p.1, rows),
        ) && connected(edges, rows, flat_index(p.0, rows), y)),
    decreases s,
{
    let a = flat_index(p.0, rows);
    let b = flat_index(p.1, rows);
    if x == y {
        lemma_connected_refl(edges, rows, x);
    } else {
        let m = choose|m: int|
            edge_joins(edges.push(p), rows, x, m) && connected_within(
                edges.push(p),
                rows,
                m,
                y,
                (s - 1) as nat,
            );
        lemma_connected_within_push_cases(edges, p, rows, m, y, (s - 1) as nat);
        // The first step uses either an old constraint or the new one.
        let idx = choose|idx: int|
            0 <= idx < edges.push(p).len() && {
                let u = flat_index((#[trigger] edges.push(p)[idx]).0, rows);
                let v = flat_index(edges.push(p)[idx].1, rows);
                (u == x && v == m) || (u == m && v == x)
            };
        if idx < edges.len() {
            assert(edges.push(p)[idx] == edges[idx]);
            assert(edge_joins(edges, rows, x, m));
            // Prepend the old step to each of the three cases for (m, y).
            if connected(edges, rows, m, y) {
                lemma_connected_step(edges, rows, x, m, y);
            } else if connected(edges, rows, m, a) && connected(edges, rows, b, y) {
                lemma_connected_step(edges, rows, x, m, a);
            } else {
                lemma_connected_step(edges, rows, x, m, b);
            }
        } else {
            // The step x -- m is the new constraint: {x, m} == {a, b}; in
            // every case the reflexive connections at a and b close the goal.
            assert(edges.push(p)[idx] == p);
            assert((x == a && m == b) || (x == b && m == a));
            lemma_connected_refl(edges, rows, a);
            lemma_connected_refl(edges, rows, b);
        }
    }
}

pub proof fn lemma_iter_bounded(m: Seq<usize>, n: int, x: int, k: nat)
    requires
        valid_perm(m, n),
        0 <= x < n,
    ensures
        0 <= iter_n(m, x, k) < n,
    decreases k,
{
    if k > 0 {
        lemma_iter_bounded(m, n, x, (k - 1) as nat);
    }
}

pub proof fn lemma_iter_add(m: Seq<usize>, x: int, a: nat, b: nat)
    ensures
        iter_n(m, x, a + b) == iter_n(m, iter_n(m, x, a), b),
    decreases b,
{
    if b > 0 {
        lemma_iter_add(m, x, a, (b - 1) as nat);
        assert(iter_n(m, x, a + b) == m[iter_n(m, x, (a + b - 1) as nat)] as int);
    }
}

pub proof fn lemma_in_cycle_trans(m: Seq<usize>, x: int, y: int, z: int)
    requires
        in_cycle(m, x, y),
        in_cycle(m, y, z),
    ensures
        in_cycle(m, x, z),
{
    let a = choose|a: nat| iter_n(m, x, a) == y;
    let b = choose|b: nat| iter_n(m, y, b) == z;
    lemma_iter_add(m, x, a, b);
    assert(iter_n(m, x, a + b) == z);
}

/// If `y` is reached from `x`, it is reached by some least number of steps,
/// before which it is never visited.
pub proof fn lemma_least_visit(m: Seq<usize>, x: int, y: int, k: nat)
    requires
        iter_n(m, x, k) == y,
    ensures
        exists|l: nat|
            l <= k && #[trigger] iter_n(m, x, l) == y && forall|j: nat|
                j < l ==> iter_n(m, x, j) != y,
    decreases k,
{
    if exists|j: nat| j < k && iter_n(m, x, j) == y {
        let j = choose|j: nat| j < k && iter_n(m, x, j) == y;
        lemma_least_visit(m, x, y, j);
    } else {
        assert(iter_n(m, x, k) == y && forall|j: nat| j < k ==> iter_n(m, x, j) != y);
    }
}

/// In a permutation, two equal iterates force a return to the start.
pub proof fn lemma_iter_cancel(m: Seq<usize>, n: int, x: int, j: nat, l: nat)
    requires
        valid_perm(m, n),
        0 <= x < n,
        j <= l,
        iter_n(m, x, j) == iter_n(m, x, l),
    ensures
        iter_n(m, x, (l - j) as nat) == x,
    decreases j,
{
    if j == 0 {
    } else {
        let pj = iter_n(m, x, (j - 1) as nat);
        let pl = iter_n(m, x, (l - 1) as nat);
        lemma_iter_bounded(m, n, x, (j - 1) as nat);
        lemma_iter_bounded(m, n, x, (l - 1) as nat);
        assert(m[pj] == m[pl]);
        assert(pj == pl);
        lemma_iter_cancel(m, n, x, (j - 1) as nat, (l - 1) as nat);
    }
}

/// Once a walk returns to its start after `p` steps, it is `p`-periodic.
pub proof fn lemma_iter_period(m: Seq<usize>, x: int, p: nat, k: nat)
    requires
        p > 0,
        iter_n(m, x, p) == x,
    ensures
        iter_n(m, x, k) == iter_n(m, x, ((k as int) % (p as int)) as nat),
    decreases k,
{
    if k < p {
        assert((k as int) % (p as int) == k as int) by {
            vstd::arithmetic::div_mod::lemma_small_mod(k, p);
        }
    } else {
        // k = p + (k - p); the first p steps return to x.
        lemma_iter_add(m, x, p, (k - p) as nat);
        assert(iter_n(m, x, k) == iter_n(m, x, (k - p) as nat));
        lemma_iter_period(m, x, p, (k - p) as nat);
        assert((k - p) % (p as int) == (k as int) % (p as int)) by {
            vstd::arithmetic::div_mod::lemma_mod_sub_multiples_vanish(k as int, p as int);
        }
    }
}

/// Walks that avoid every position where two permutations differ proceed
/// identically in both.
pub proof fn lemma_iter_agree(m1: Seq<usize>, m2: Seq<usize>, x: int, k: nat)
    requires
        m1.len() == m2.len(),
        forall|j: nat| j < k ==> m1[iter_n(m1, x, j)] == m2[iter_n(m1, x, j)],
    ensures
        iter_n(m2, x, k) == iter_n(m1, x, k),
    decreases k,
{
    if k > 0 {
        lemma_iter_agree(m1, m2, x, (k - 1) as nat);
        assert(m1[iter_n(m1, x, (k - 1) as nat)] == m2[iter_n(m1, x, (k - 1) as nat)]);
    }
}

/// Some position of `m` holds the value `v`.
pub open spec fn hits(m: Seq<usize>, n: int, v: int) -> bool {
    exists|i: int| 0 <= i < n && (#[trigger] m[i]) == v
}

/// Every value below `n` appears in `m`.
pub open spec fn surjective(m: Seq<usize>, n: int) -> bool {
    forall|v: int| 0 <= v < n ==> #[trigger] hits(m, n, v)
}

/// The union-find state that `build` maintains: `m` is the permutation under
/// construction and `root` assigns each cell the representative of its
/// equivalence class. Classes are exactly the cycles of `m`.
pub open spec fn uf_inv(m: Seq<usize>, root: Seq<usize>, n: int) -> bool {
    &&& valid_perm(m, n)
    &&& surjective(m, n)
    &&& root.len() == n
    &&& forall|i: int| 0 <= i < n ==> (#[trigger] root[i]) < n
    &&& forall|i: int| 0 <= i < n ==> root[(#[trigger] root[i]) as int] == root[i]
    &&& forall|i: int| 0 <= i < n ==> root[(#[trigger] m[i]) as int] == root[i]
    &&& forall|u: int, v: int|
        0 <= u < n && 0 <= v < n && root[u] == root[v] ==> in_cycle(m, u, v)
}

/// Walking the permutation never leaves the walker's equivalence class.
pub proof fn lemma_iter_class(m: Seq<usize>, root: Seq<usize>, n: int, x: int, k: nat)
    requires
        valid_perm(m, n),
        root.len() == n,
        forall|i: int| 0 <= i < n ==> root[(#[trigger] m[i]) as int] == root[i],
        0 <= x < n,
    ensures
        0 <= iter_n(m, x, k) < n,
        root[iter_n(m, x, k)] == root[x],
    decreases k,
{
    if k > 0 {
        lemma_iter_class(m, root, n, x, (k - 1) as nat);
    }
}

/// Cells on one cycle lie in one class.
pub proof fn lemma_cycle_same_class(m: Seq<usize>, root: Seq<usize>, n: int, x: int, y: int)
    requires
        valid_perm(m, n),
        root.len() == n,
        forall|i: int| 0 <= i < n ==> root[(#[trigger] m[i]) as int] == root[i],
        0 <= x < n,
        in_cycle(m, x, y),
    ensures
        root[y] == root[x],
{
    let k = choose|k: nat| iter_n(m, x, k) == y;
    lemma_iter_class(m, root, n, x, k);
}

/// A walk in `m` from `s` to `v` transfers to a permutation `m2` that differs
/// from `m` only at `x` and `y`, provided each of `x` and `y` is the target
/// `v` itself, lies in another class, or is the immediate predecessor of `s`.
proof fn lemma_cycle_transfer(
    m: Seq<usize>,
    m2: Seq<usize>,
    root: Seq<usize>,
    n: int,
    s: int,
    v: int,
    x: int,
    y: int,
)
    requires
        valid_perm(m, n),
        root.len() == n,
        forall|i: int| 0 <= i < n ==> root[(#[trigger] m[i]) as int] == root[i],
        m2.len() == n,
        forall|z: int| 0 <= z < n && z != x && z != y ==> (#[trigger] m2[z]) == m[z],
        0 <= s < n,
        0 <= v < n,
        0 <= x < n,
        0 <= y < n,
        s != x,
        s != y,
        in_cycle(m, s, v),
        x == v || root[x] != root[s] || m[x] == s,
        y == v || root[y] != root[s] || m[y] == s,
    ensures
        in_cycle(m2, s, v),
{
    let k0 = choose|k0: nat| iter_n(m, s, k0) == v;
    lemma_least_visit(m, s, v, k0);
    let l = choose|l: nat|
        l <= k0 && #[trigger] iter_n(m, s, l) == v && forall|j: nat| j < l ==> iter_n(m, s, j) != v;
    assert forall|j: nat| j < l implies m[#[trigger] iter_n(m, s, j)] == m2[iter_n(m, s, j)] by {
        lemma_iter_class(m, root, n, s, j);
        lemma_avoids_one(m, root, n, s, v, x, l, j);
        lemma_avoids_one(m, root, n, s, v, y, l, j);
    }
    lemma_iter_agree(m, m2, s, l);
    assert(iter_n(m2, s, l) == v);
}

/// One changed position `w` is avoided by the least path from `s` to `v`.
proof fn lemma_avoids_one(
    m: Seq<usize>,
    root: Seq<usize>,
    n: int,
    s: int,
    v: int,
    w: int,
    l: nat,
    j: nat,
)
    requires
        valid_perm(m, n),
        root.len() == n,
        forall|i: int| 0 <= i < n ==> root[(#[trigger] m[i]) as int] == root[i],
        0 <= s < n,
        0 <= v < n,
        s != w,
        iter_n(m, s, l) == v,
        forall|j2: nat| j2 < l ==> iter_n(m, s, j2) != v,
        w == v || root[w] != root[s] || (0 <= w < n && m[w] == s),
        j < l,
    ensures
        iter_n(m, s, j) != w,
{
    if w == v {
        assert(iter_n(m, s, j) != v);
    } else if root[w] != root[s] {
        lemma_iter_class(m, root, n, s, j);
    } else {
        // m[w] == s: a visit to w at step j < l would close the walk into a
        // cycle of period j + 1 and let it hit v before step l.
        if iter_n(m, s, j) == w {
            assert(iter_n(m, s, j + 1) == m[w] as int == s);
            lemma_iter_period(m, s, j + 1, l);
            let r = (l as int) % (j + 1 as int);
            assert(0 <= r < j + 1) by {
                vstd::arithmetic::div_mod::lemma_mod_bound(l as int, j + 1 as int);
            }
            assert(iter_n(m, s, r as nat) == v);
            assert(r < l);
            assert(false);
        }
    }
}

/// The relabelled root assignment after merging the class of `y` into the
/// class of `x`.
pub open spec fn merged_root(root: Seq<usize>, x: int, y: int) -> Seq<usize> {
    Seq::new(root.len(), |i: int| if root[i] == root[y] { root[x] } else { root[i] })
}

/// The permutation after the cycle-union swap of the images at `x` and `y`.
pub open spec fn swapped(m: Seq<usize>, x: int, y: int) -> Seq<usize> {
    m.update(x, m[y]).update(y, m[x])
}

/// Swapping the images at `x` and `y` of two distinct classes merges exactly
/// their two cycles, and preserves being a permutation.
pub proof fn lemma_swap_cycles(m: Seq<usize>, root: Seq<usize>, n: int, x: int, y: int)
    requires
        uf_inv(m, root, n),
        0 <= x < n,
        0 <= y < n,
        root[x] != root[y],
    ensures
        uf_inv(swapped(m, x, y), merged_root(root, x, y), n),
{
    let m2 = swapped(m, x, y);
    let root2 = merged_root(root, x, y);
    assert(x != y);
    assert(m2[x] == m[y] && m2[y] == m[x]);
    assert(forall|z: int| 0 <= z < n && z != x && z != y ==> (#[trigger] m2[z]) == m[z]);

    // m2 is again a permutation.
    assert forall|i: int, j: int|
        0 <= i < n && 0 <= j < n && i != j implies m2[i] != m2[j] by {
        let i0: int = if i == x { y } else if i == y { x } else { i };
        let j0: int = if j == x { y } else if j == y { x } else { j };
        assert(m2[i] == m[i0] && m2[j] == m[j0]);
        assert(i0 != j0);
    }
    assert forall|v: int| 0 <= v < n implies #[trigger] hits(m2, n, v) by {
        assert(hits(m, n, v));
        let i0 = choose|i0: int| 0 <= i0 < n && (#[trigger] m[i0]) == v;
        if i0 == x {
            assert(m2[y] == v);
        } else if i0 == y {
            assert(m2[x] == v);
        } else {
            assert(m2[i0] == v);
        }
    }
    assert(valid_perm(m2, n));

    // Basic shape of the relabelled roots.
    assert forall|i: int| 0 <= i < n implies (#[trigger] root2[i]) < n && root2[(root2[i]) as int]
        == root2[i] by {
        if root[i] == root[y] {
            assert(root2[i] == root[x]);
            assert(root[root[x] as int] == root[x]);
        } else {
            assert(root2[i] == root[i]);
            assert(root[root[i] as int] == root[i]);
        }
    }
    assert forall|i: int| 0 <= i < n implies root2[(#[trigger] m2[i]) as int] == root2[i] by {
        if i == x {
            assert(root[m[y] as int] == root[y]);
        } else if i == y {
            assert(root[m[x] as int] == root[x]);
        } else {
            assert(root[m[i] as int] == root[i]);
        }
    }

    // Every relabelled class lies within one cycle of m2.
    assert forall|u: int, v: int|
        0 <= u < n && 0 <= v < n && root2[u] == root2[v] implies in_cycle(m2, u, v) by {
        lemma_merged_class_in_cycle(m, root, n, x, y, u, v);
    }
}

/// After the swap, any two cells of the merged class (or of an untouched
/// class) still share a cycle.
proof fn lemma_merged_class_in_cycle(
    m: Seq<usize>,
    root: Seq<usize>,
    n: int,
    x: int,
    y: int,
    u: int,
    v: int,
)
    requires
        uf_inv(m, root, n),
        0 <= x < n,
        0 <= y < n,
        root[x] != root[y],
        0 <= u < n,
        0 <= v < n,
        merged_root(root, x, y)[u] == merged_root(root, x, y)[v],
    ensures
        in_cycle(swapped(m, x, y), u, v),
{
    let m2 = swapped(m, x, y);
    let rx = root[x] as int;
    let ry = root[y] as int;
    assert(x != y);
    if root[u] != rx && root[u] != ry {
        // Untouched class: the old walk avoids both x and y.
        assert(root[v] == root[u]);
        assert(in_cycle(m, u, v));
        lemma_cycle_transfer(m, m2, root, n, u, v, x, y);
    } else {
        // u and v both lie in the merged class; route u -> x -> v.
        lemma_to_x(m, root, n, x, y, u);
        lemma_from_x(m, root, n, x, y, v);
        lemma_in_cycle_trans(m2, u, x, v);
    }
}

/// Within the merged class, every cell reaches `x` in the swapped permutation.
proof fn lemma_to_x(m: Seq<usize>, root: Seq<usize>, n: int, x: int, y: int, u: int)
    requires
        uf_inv(m, root, n),
        0 <= x < n,
        0 <= y < n,
        root[x] != root[y],
        0 <= u < n,
        root[u] == root[x] || root[u] == root[y],
    ensures
        in_cycle(swapped(m, x, y), u, x),
{
    let m2 = swapped(m, x, y);
    assert(x != y);
    if root[u] == root[x] {
        if u == x {
            assert(iter_n(m2, u, 0) == x);
        } else {
            assert(in_cycle(m, u, x));
            lemma_cycle_transfer(m, m2, root, n, u, x, x, y);
        }
    } else {
        // u lies in the class of y: reach y first, then step to m[x]'s class.
        if u == y {
            lemma_y_to_x(m, root, n, x, y);
        } else {
            assert(in_cycle(m, u, y));
            lemma_cycle_transfer(m, m2, root, n, u, y, x, y);
            lemma_y_to_x(m, root, n, x, y);
            lemma_in_cycle_trans(m2, u, y, x);
        }
    }
}

/// In the swapped permutation, `y` reaches `x`.
proof fn lemma_y_to_x(m: Seq<usize>, root: Seq<usize>, n: int, x: int, y: int)
    requires
        uf_inv(m, root, n),
        0 <= x < n,
        0 <= y < n,
        root[x] != root[y],
    ensures
        in_cycle(swapped(m, x, y), y, x),
{
    let m2 = swapped(m, x, y);
    assert(x != y);
    let s = m[x] as int;
    assert(iter_n(m2, y, 0) == y);
    assert(iter_n(m2, y, 1) == m2[y] as int);
    assert(m2[y] as int == s);
    assert(root[s] == root[x]);
    if s == x {
        assert(in_cycle(m2, y, x));
    } else {
        // Walk from m[x] back to x in m; it avoids x until the end and stays
        // outside the class of y.
        assert(in_cycle(m, s, x));
        assert(s != y);
        lemma_cycle_transfer(m, m2, root, n, s, x, x, y);
        let k = choose|k: nat| iter_n(m2, s, k) == x;
        lemma_iter_add(m2, y, 1, k);
        assert(iter_n(m2, y, 1 + k) == x);
    }
}

/// In the swapped permutation, `x` reaches every cell of the merged class.
proof fn lemma_from_x(m: Seq<usize>, root: Seq<usize>, n: int, x: int, y: int, v: int)
    requires
        uf_inv(m, root, n),
        0 <= x < n,
        0 <= y < n,
        root[x] != root[y],
        0 <= v < n,
        root[v] == root[x] || root[v] == root[y],
    ensures
        in_cycle(swapped(m, x, y), x, v),
{
    let m2 = swapped(m, x, y);
    assert(x != y);
    if root[v] == root[y] {
        // Step to m[y], then walk inside the old class of y.
        let s = m[y] as int;
        assert(iter_n(m2, x, 0) == x);
    assert(iter_n(m2, x, 1) == m2[x] as int);
    assert(m2[x] as int == s);
        assert(root[s] == root[y]);
        if s == v {
            assert(in_cycle(m2, x, v));
        } else {
            assert(in_cycle(m, s, v));
            assert(s != x);
            if s == y {
                // y is a fixed point of m, so its old class is {y}; but then
                // v == y == s, already handled above.
                assert forall|k: nat| #[trigger] iter_n(m, y, k) == y by {
                    lemma_fixed_point(m, y, k);
                }
                let k = choose|k: nat| iter_n(m, s, k) == v;
                assert(false);
            } else {
                lemma_cycle_transfer(m, m2, root, n, s, v, x, y);
                let k = choose|k: nat| iter_n(m2, s, k) == v;
                lemma_iter_add(m2, x, 1, k);
                assert(iter_n(m2, x, 1 + k) == v);
            }
        }
    } else {
        // Route through y, then from y's image onward as above.
        lemma_from_x_via_y(m, root, n, x, y, v);
    }
}

/// In the swapped permutation, `x` reaches every cell of the old class of `x`
/// by first visiting `y`.
proof fn lemma_from_x_via_y(m: Seq<usize>, root: Seq<usize>, n: int, x: int, y: int, v: int)
    requires
        uf_inv(m, root, n),
        0 <= x < n,
        0 <= y < n,
        root[x] != root[y],
        0 <= v < n,
        root[v] == root[x],
    ensures
        in_cycle(swapped(m, x, y), x, v),
{
    let m2 = swapped(m, x, y);
    assert(x != y);
    if v == x {
        assert(iter_n(m2, x, 0) == v);
    } else {
        // x reaches y.
        lemma_from_x_reaches_y(m, root, n, x, y);
        // y steps to m[x] and walks the old class of x to v.
        let s = m[x] as int;
        assert(iter_n(m2, y, 0) == y);
    assert(iter_n(m2, y, 1) == m2[y] as int);
    assert(m2[y] as int == s);
        assert(root[s] == root[x]);
        if s == v {
            lemma_in_cycle_trans(m2, x, y, v);
        } else {
            assert(s != y);
            if s == x {
                // x is a fixed point of m, so its old class is {x}; but then
                // v == x, already handled above.
                assert forall|k: nat| #[trigger] iter_n(m, x, k) == x by {
                    lemma_fixed_point(m, x, k);
                }
                assert(in_cycle(m, x, v));
                let k = choose|k: nat| iter_n(m, x, k) == v;
                assert(false);
            } else {
                assert(in_cycle(m, s, v));
                lemma_cycle_transfer(m, m2, root, n, s, v, x, y);
                let k = choose|k: nat| iter_n(m2, s, k) == v;
                lemma_iter_add(m2, y, 1, k);
                assert(iter_n(m2, y, 1 + k) == v);
                lemma_in_cycle_trans(m2, x, y, v);
            }
        }
    }
}

/// In the swapped permutation, `x` reaches `y`.
proof fn lemma_from_x_reaches_y(m: Seq<usize>, root: Seq<usize>, n: int, x: int, y: int)
    requires
        uf_inv(m, root, n),
        0 <= x < n,
        0 <= y < n,
        root[x] != root[y],
    ensures
        in_cycle(swapped(m, x, y), x, y),
{
    let m2 = swapped(m, x, y);
    assert(x != y);
    let s = m[y] as int;
    assert(iter_n(m2, x, 0) == x);
    assert(iter_n(m2, x, 1) == m2[x] as int);
    assert(m2[x] as int == s);
    assert(root[s] == root[y]);
    if s == y {
        assert(in_cycle(m2, x, y));
    } else {
        assert(in_cycle(m, s, y));
        assert(s != x);
        lemma_cycle_transfer(m, m2, root, n, s, y, x, y);
        let k = choose|k: nat| iter_n(m2, s, k) == y;
        lemma_iter_add(m2, x, 1, k);
        assert(iter_n(m2, x, 1 + k) == y);
    }
}

/// How many entries of `s` differ from `v`; the relabel walk shrinks this.
pub open spec fn count_ne(s: Seq<usize>, v: usize) -> nat
    decreases s.len(),
{
    if s.len() == 0 {
        0
    } else {
        count_ne(s.drop_last(), v) + if s.last() == v {
            0nat
        } else {
            1nat
        }
    }
}

/// Overwriting an entry that differs from `v` with `v` lowers the count.
pub proof fn lemma_count_ne_update(s: Seq<usize>, v: usize, i: int)
    requires
        0 <= i < s.len(),
        s[i] != v,
    ensures
        count_ne(s.update(i, v), v) < count_ne(s, v),
    decreases s.len(),
{
    if i == s.len() - 1 {
        assert(s.update(i, v).drop_last() =~= s.drop_last());
        assert(s.update(i, v).last() == v);
    } else {
        assert(s.update(i, v).drop_last() =~= s.drop_last().update(i, v));
        assert(s.update(i, v).last() == s.last());
        lemma_count_ne_update(s.drop_last(), v, i);
    }
}

/// The class of representative `r`: all cells whose root is `r`.
pub open spec fn class_of(root: Seq<usize>, r: int) -> Set<int> {
    Set::new(|z: int| 0 <= z < root.len() && root[z] == r)
}

/// Distinct representatives have disjoint classes, so their cardinalities
/// together never exceed the number of cells.
pub proof fn lemma_class_sizes(root: Seq<usize>, n: int, r1: int, r2: int)
    requires
        root.len() == n,
        r1 != r2,
    ensures
        class_of(root, r1).finite(),
        class_of(root, r2).finite(),
        class_of(root, r1).len() + class_of(root, r2).len() <= n,
        class_of(root, r1).union(class_of(root, r2)).len() == class_of(root, r1).len()
            + class_of(root, r2).len(),
{
    let a = class_of(root, r1);
    let b = class_of(root, r2);
    let range = vstd::set_lib::set_int_range(0, n);
    vstd::set_lib::lemma_int_range(0, n);
    vstd::set_lib::lemma_len_subset(a, range);
    vstd::set_lib::lemma_len_subset(b, range);
    lemma_disjoint_union_len(a, b);
    vstd::set_lib::lemma_len_subset(a.union(b), range);
}

/// Disjoint finite sets: the union's cardinality is the sum.
proof fn lemma_disjoint_union_len<A>(s1: Set<A>, s2: Set<A>)
    requires
        s1.finite(),
        s2.finite(),
        s1.intersect(s2) =~= Set::<A>::empty(),
    ensures
        s1.union(s2).finite(),
        s1.union(s2).len() == s1.len() + s2.len(),
    decreases s1.len(),
{
    if s1.is_empty() {
        assert(s1.union(s2) =~= s2);
    } else {
        let a = s1.choose();
        assert(s1.contains(a));
        assert(!s2.contains(a)) by {
            assert(!s1.intersect(s2).contains(a));
        }
        assert(s1.remove(a).intersect(s2) =~= Set::<A>::empty());
        lemma_disjoint_union_len(s1.remove(a), s2);
        assert(s1.remove(a).union(s2) =~= s1.union(s2).remove(a));
        assert(s1.union(s2).contains(a));
        assert(s1.union(s2).remove(a).insert(a) =~= s1.union(s2));
    }
}

/// The relabel walk from `y` has already visited `z` in its first `steps`
/// steps.
pub open spec fn visited_before(m: Seq<usize>, y: int, steps: nat, z: int) -> bool {
    exists|j: nat| j < steps && iter_n(m, y, j) == z
}

/// Once the relabel walk closes (its next cell is one it has already
/// visited), the visited cells cover the whole class of `y`.
pub proof fn lemma_walk_covers_class(
    m: Seq<usize>,
    root: Seq<usize>,
    n: int,
    y: int,
    steps: nat,
    j: nat,
)
    requires
        uf_inv(m, root, n),
        0 <= y < n,
        j <= steps,
        iter_n(m, y, steps + 1) == iter_n(m, y, j),
    ensures
        forall|z: int|
            0 <= z < n && root[z] == root[y] ==> exists|k: nat| k <= steps && iter_n(m, y, k) == z,
{
    lemma_iter_cancel(m, n, y, j, steps + 1);
    let p = (steps + 1 - j) as nat;
    assert(iter_n(m, y, p) == y);
    assert forall|z: int|
        0 <= z < n && root[z] == root[y] implies exists|k: nat|
        k <= steps && iter_n(m, y, k) == z by {
        assert(in_cycle(m, y, z));
        let k0 = choose|k0: nat| iter_n(m, y, k0) == z;
        lemma_iter_period(m, y, p, k0);
        let r = (k0 as int) % (p as int);
        assert(0 <= r < p) by {
            vstd::arithmetic::div_mod::lemma_mod_bound(k0 as int, p as int);
        }
        assert(iter_n(m, y, r as nat) == z);
        assert(r as nat <= steps);
    }
}

/// A fixed point of the permutation never moves.
proof fn lemma_fixed_point(m: Seq<usize>, x: int, k: nat)
    requires
        m[x] == x,
    ensures
        iter_n(m, x, k) == x,
    decreases k,
{
    if k > 0 {
        lemma_fixed_point(m, x, (k - 1) as nat);
    }
}

} // verus!
