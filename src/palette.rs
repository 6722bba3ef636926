use vstd::prelude::*;
use crate::util::{lemma_cell_index, lemma_cell_index_distinct};

verus! {

/// Every colour starts in a component of its own, labelled by its index.
pub open spec fn initial_labels(n: nat) -> Seq<int> {
    Seq::new(n, |v: int| v)
}

/// Joins the components of `i` and `j`: the members of `j`'s component take
/// `i`'s label.
pub open spec fn merge(l: Seq<int>, i: int, j: int) -> Seq<int> {
    if l[i] == l[j] {
        l
    } else {
        Seq::new(l.len(), |v: int| if l[v] == l[j] { l[i] } else { l[v] })
    }
}

/// The component labels once the first `k` edges have been visited.
pub open spec fn labels_after(n: nat, edges: Seq<(usize, usize)>, k: nat) -> Seq<int>
    decreases k,
{
    if k == 0 {
        initial_labels(n)
    } else {
        let e = edges[k - 1];
        merge(labels_after(n, edges, (k - 1) as nat), e.0 as int, e.1 as int)
    }
}

/// Edge `m` joins two components: the pairs visited before it leave its
/// ends apart.
pub open spec fn is_union(n: nat, edges: Seq<(usize, usize)>, m: int) -> bool {
    let l = labels_after(n, edges, m as nat);
    l[edges[m].0 as int] != l[edges[m].1 as int]
}

/// `a` and `b` are the same colour, or one of the first `k` edges that
/// joined two components joins them.
pub open spec fn linked(n: nat, edges: Seq<(usize, usize)>, k: int, a: int, b: int) -> bool {
    a == b || exists|m: int|
        0 <= m < k && is_union(n, edges, m) && ((#[trigger] edges[m]).0 == a && edges[m].1 == b
            || edges[m].0 == b && edges[m].1 == a)
}

/// Some colour is linked to both `i` and `j` by the first `k` edges.
pub open spec fn two_hop(n: nat, edges: Seq<(usize, usize)>, k: int, i: int, j: int) -> bool {
    exists|m: int| 0 <= m < n && #[trigger] linked(n, edges, k, i, m) && linked(n, edges, k, m, j)
}

/// Edge `k` joins two colours of one component that no colour links
/// directly to both: it closes a cycle longer than a triangle.
pub open spec fn closes_cycle(n: nat, edges: Seq<(usize, usize)>, k: int) -> bool {
    let e = edges[k];
    let l = labels_after(n, edges, k as nat);
    l[e.0 as int] == l[e.1 as int] && !two_hop(n, edges, k, e.0 as int, e.1 as int)
}

/// Visiting the edges in order, none closes such a cycle.
pub open spec fn acyclic_order(n: nat, edges: Seq<(usize, usize)>) -> bool {
    forall|k: int| 0 <= k < edges.len() ==> !#[trigger] closes_cycle(n, edges, k)
}

proof fn lemma_labels_len(n: nat, edges: Seq<(usize, usize)>, k: nat)
    requires
        k <= edges.len(),
        forall|m: int| 0 <= m < edges.len() ==> (#[trigger] edges[m]).0 < n && edges[m].1 < n,
    ensures
        labels_after(n, edges, k).len() == n,
    decreases k,
{
    if k > 0 {
        lemma_labels_len(n, edges, (k - 1) as nat);
    }
}

/// `p` is a walk from `a` to `b` along the first `k` edges.
pub open spec fn is_walk(n: nat, edges: Seq<(usize, usize)>, k: int, p: Seq<int>, a: int, b: int) -> bool {
    &&& p.len() >= 1
    &&& p[0] == a
    &&& p.last() == b
    &&& forall|i: int| 0 <= i < p.len() - 1 ==> #[trigger] linked(n, edges, k, p[i], p[i + 1])
}

/// The first `k` edges connect `a` and `b`.
pub open spec fn joined(n: nat, edges: Seq<(usize, usize)>, k: int, a: int, b: int) -> bool {
    exists|p: Seq<int>| #[trigger] is_walk(n, edges, k, p, a, b)
}

pub open spec fn edges_within(n: nat, edges: Seq<(usize, usize)>) -> bool {
    forall|m: int| 0 <= m < edges.len() ==> (#[trigger] edges[m]).0 < n && edges[m].1 < n
}

proof fn lemma_merge_keeps_equal(l: Seq<int>, i: int, j: int, u: int, v: int)
    requires
        0 <= i < l.len(),
        0 <= j < l.len(),
        0 <= u < l.len(),
        0 <= v < l.len(),
        l[u] == l[v],
    ensures
        merge(l, i, j)[u] == merge(l, i, j)[v],
{
}

/// Each of the first `k` edges joins two colours of one component.
proof fn lemma_edges_inside(n: nat, edges: Seq<(usize, usize)>, k: nat, m: int)
    requires
        edges_within(n, edges),
        k <= edges.len(),
        0 <= m < k,
    ensures
        labels_after(n, edges, k)[edges[m].0 as int] == labels_after(n, edges, k)[edges[m].1 as int],
    decreases k,
{
    lemma_labels_len(n, edges, (k - 1) as nat);
    let l = labels_after(n, edges, (k - 1) as nat);
    let e = edges[k - 1];
    let em = edges[m];
    if m < k - 1 {
        lemma_edges_inside(n, edges, (k - 1) as nat, m);
        lemma_merge_keeps_equal(l, e.0 as int, e.1 as int, em.0 as int, em.1 as int);
    }
}

/// Linked colours share a component.
proof fn lemma_linked_inside(n: nat, edges: Seq<(usize, usize)>, k: nat, a: int, b: int)
    requires
        edges_within(n, edges),
        k <= edges.len(),
        linked(n, edges, k as int, a, b),
    ensures
        labels_after(n, edges, k)[a] == labels_after(n, edges, k)[b],
{
    if a != b {
        let m = choose|m: int|
            0 <= m < k && is_union(n, edges, m) && ((#[trigger] edges[m]).0 == a && edges[m].1 == b
                || edges[m].0 == b && edges[m].1 == a);
        lemma_edges_inside(n, edges, k, m);
    }
}

proof fn lemma_walk_inside(n: nat, edges: Seq<(usize, usize)>, k: nat, p: Seq<int>, a: int, b: int)
    requires
        edges_within(n, edges),
        k <= edges.len(),
        is_walk(n, edges, k as int, p, a, b),
    ensures
        labels_after(n, edges, k)[a] == labels_after(n, edges, k)[b],
    decreases p.len(),
{
    if p.len() > 1 {
        let q = p.drop_last();
        let c = q.last();
        assert forall|i: int| 0 <= i < q.len() - 1 implies #[trigger] linked(n, edges, k as int, q[i], q[i + 1]) by {
            assert(linked(n, edges, k as int, p[i], p[i + 1]));
        }
        assert(is_walk(n, edges, k as int, q, a, c));
        lemma_walk_inside(n, edges, k, q, a, c);
        let i = p.len() - 2;
        assert(linked(n, edges, k as int, p[i], p[i + 1]));
        lemma_linked_inside(n, edges, k, c, b);
    }
}

proof fn lemma_walk_more_edges(n: nat, edges: Seq<(usize, usize)>, k: int, k2: int, p: Seq<int>, a: int, b: int)
    requires
        k <= k2,
        is_walk(n, edges, k, p, a, b),
    ensures
        is_walk(n, edges, k2, p, a, b),
{
    assert forall|i: int| 0 <= i < p.len() - 1 implies #[trigger] linked(n, edges, k2, p[i], p[i + 1]) by {
        assert(linked(n, edges, k, p[i], p[i + 1]));
        if p[i] != p[i + 1] {
            let m = choose|m: int|
                0 <= m < k && is_union(n, edges, m) && ((#[trigger] edges[m]).0 == p[i] && edges[m].1
                    == p[i + 1] || edges[m].0 == p[i + 1] && edges[m].1 == p[i]);
            assert(0 <= m < k2);
        }
    }
}

proof fn lemma_walk_join(n: nat, edges: Seq<(usize, usize)>, k: int, p: Seq<int>, q: Seq<int>, a: int, b: int, c: int)
    requires
        is_walk(n, edges, k, p, a, b),
        is_walk(n, edges, k, q, b, c),
    ensures
        is_walk(n, edges, k, p + q.drop_first(), a, c),
{
    let r = p + q.drop_first();
    assert forall|i: int| 0 <= i < r.len() - 1 implies #[trigger] linked(n, edges, k, r[i], r[i + 1]) by {
        if i < p.len() - 1 {
            assert(linked(n, edges, k, p[i], p[i + 1]));
        } else if i == p.len() - 1 {
            let z: int = 0;
            assert(r[i] == b);
            assert(q[z] == b);
            assert(r[i + 1] == q[z + 1]);
            assert(linked(n, edges, k, q[z], q[z + 1]));
        } else {
            let j = i - p.len() + 1;
            assert(r[i] == q[j]);
            assert(r[i + 1] == q[j + 1]);
            assert(linked(n, edges, k, q[j], q[j + 1]));
        }
    }
    if q.len() == 1 {
        assert(r =~= p);
    } else {
        assert(r.last() == q.last());
    }
}

/// Colours of one component are connected by the edges visited so far.
proof fn lemma_inside_walk(n: nat, edges: Seq<(usize, usize)>, k: nat, a: int, b: int)
    requires
        edges_within(n, edges),
        k <= edges.len(),
        0 <= a < n,
        0 <= b < n,
        labels_after(n, edges, k)[a] == labels_after(n, edges, k)[b],
    ensures
        joined(n, edges, k as int, a, b),
    decreases k,
{
    if k == 0 {
        assert(a == b);
        assert(is_walk(n, edges, 0, seq![a], a, b));
    } else {
        let k1 = (k - 1) as nat;
        lemma_labels_len(n, edges, k1);
        let l = labels_after(n, edges, k1);
        let i = edges[k1 as int].0 as int;
        let j = edges[k1 as int].1 as int;
        if l[a] == l[b] {
            lemma_inside_walk(n, edges, k1, a, b);
            let p = choose|p: Seq<int>| #[trigger] is_walk(n, edges, k1 as int, p, a, b);
            lemma_walk_more_edges(n, edges, k1 as int, k as int, p, a, b);
        } else {
            assert(l[i] != l[j]);
            assert(is_union(n, edges, k1 as int));
            assert(linked(n, edges, k as int, j, i));
            let edge = seq![j, i];
            assert(is_walk(n, edges, k as int, edge, j, i));
            let (x, y) = if l[a] == l[j] { (a, b) } else { (b, a) };
            assert(l[x] == l[j] && l[y] == l[i]);
            lemma_inside_walk(n, edges, k1, x, j);
            lemma_inside_walk(n, edges, k1, i, y);
            let p1 = choose|p: Seq<int>| #[trigger] is_walk(n, edges, k1 as int, p, x, j);
            let p2 = choose|p: Seq<int>| #[trigger] is_walk(n, edges, k1 as int, p, i, y);
            lemma_walk_more_edges(n, edges, k1 as int, k as int, p1, x, j);
            lemma_walk_more_edges(n, edges, k1 as int, k as int, p2, i, y);
            lemma_walk_join(n, edges, k as int, p1, edge, x, j, i);
            let p3 = p1 + edge.drop_first();
            lemma_walk_join(n, edges, k as int, p3, p2, x, i, y);
            let w = p3 + p2.drop_first();
            if x == a {
                assert(is_walk(n, edges, k as int, w, a, b));
            } else {
                let rev = Seq::new(w.len(), |t: int| w[w.len() - 1 - t]);
                assert forall|t: int| 0 <= t < rev.len() - 1 implies #[trigger] linked(n, edges, k as int, rev[t], rev[t + 1]) by {
                    let u = w.len() - 2 - t;
                    assert(linked(n, edges, k as int, w[u], w[u + 1]));
                }
                assert(is_walk(n, edges, k as int, rev, a, b));
            }
        }
    }
}

/// The components are exactly the sets of colours that the edges visited
/// so far connect.
pub proof fn lemma_components_are_connectivity(n: nat, edges: Seq<(usize, usize)>, k: nat, a: int, b: int)
    requires
        edges_within(n, edges),
        k <= edges.len(),
        0 <= a < n,
        0 <= b < n,
    ensures
        labels_after(n, edges, k)[a] == labels_after(n, edges, k)[b] <==> joined(n, edges, k as int, a, b),
{
    if joined(n, edges, k as int, a, b) {
        let p = choose|p: Seq<int>| #[trigger] is_walk(n, edges, k as int, p, a, b);
        lemma_walk_inside(n, edges, k, p, a, b);
    }
    if labels_after(n, edges, k)[a] == labels_after(n, edges, k)[b] {
        lemma_inside_walk(n, edges, k, a, b);
    }
}

/// Pair `k` is already connected by the pairs before it while no colour is
/// linked directly to both of its ends.
pub open spec fn unshortcut(n: nat, edges: Seq<(usize, usize)>, k: int) -> bool {
    joined(n, edges, k, edges[k].0 as int, edges[k].1 as int) && !two_hop(
        n,
        edges,
        k,
        edges[k].0 as int,
        edges[k].1 as int,
    )
}

/// The acyclicity test fails exactly when some pair, at its turn in the
/// order, is already connected by the pairs before it while no colour is
/// linked directly to both of its ends.
pub proof fn lemma_acyclic_iff(n: nat, edges: Seq<(usize, usize)>)
    requires
        edges_within(n, edges),
    ensures
        acyclic_order(n, edges) <==> forall|k: int| 0 <= k < edges.len() ==> !#[trigger] unshortcut(n, edges, k),
{
    assert forall|k: int| 0 <= k < edges.len() implies #[trigger] closes_cycle(n, edges, k) == unshortcut(n, edges, k) by {
        lemma_components_are_connectivity(n, edges, k as nat, edges[k].0 as int, edges[k].1 as int);
    }
    if acyclic_order(n, edges) {
        assert forall|k: int| 0 <= k < edges.len() implies !#[trigger] unshortcut(n, edges, k) by {
            assert(!closes_cycle(n, edges, k));
        }
    }
    if forall|k: int| 0 <= k < edges.len() ==> !#[trigger] unshortcut(n, edges, k) {
        assert forall|k: int| 0 <= k < edges.len() implies !#[trigger] closes_cycle(n, edges, k) by {
            assert(!unshortcut(n, edges, k));
        }
    }
}
/// Visits the edges between `n` colours in the order given (nearest pairs
/// first) and tells whether none of them closes a cycle that no colour
/// short-cuts: each edge either joins two components, or joins two colours
/// that some colour is already linked to directly by an edge that joined
/// two components.
pub fn acyclic_in_order(n: usize, edges: &Vec<(usize, usize)>) -> (r: bool)
    requires
        n * n <= usize::MAX,
        forall|m: int| 0 <= m < edges@.len() ==> (#[trigger] edges@[m]).0 < n && edges@[m].1 < n,
    ensures
        r == acyclic_order(n as nat, edges@),
{
    let ghost es = edges@;
    let mut label: Vec<usize> = Vec::new();
    let mut v: usize = 0;
    while v < n
        invariant
            v <= n,
            label@.len() == v,
            forall|t: int| 0 <= t < v ==> label@[t] == t,
        decreases n - v,
    {
        label.push(v);
        v += 1;
    }
    let mut adj: Vec<bool> = Vec::new();
    let mut a: usize = 0;
    while a < n * n
        invariant
            n * n <= usize::MAX,
            a <= n * n,
            adj@.len() == a,
            forall|t: int| 0 <= t < a ==> adj@[t] == false,
        decreases n * n - a,
    {
        adj.push(false);
        a += 1;
    }
    proof {
        assert forall|x: int, y: int| 0 <= x < n && 0 <= y < n implies #[trigger] adj@[x * n + y] == (x == y && x < 0) by {
            lemma_cell_index(n as int, n as int, y, x);
        }
    }
    let mut a: usize = 0;
    while a < n
        invariant
            n * n <= usize::MAX,
            a <= n,
            adj@.len() == n * n,
            forall|x: int, y: int|
                0 <= x < n && 0 <= y < n ==> #[trigger] adj@[x * n + y] == (x == y && x < a),
        decreases n - a,
    {
        proof {
            lemma_cell_index(n as int, n as int, a as int, a as int);
        }
        let ghost before = adj@;
        adj.set(a * n + a, true);
        proof {
            assert forall|x: int, y: int| 0 <= x < n && 0 <= y < n implies #[trigger] adj@[x * n + y] == (x == y && x < a + 1) by {
                lemma_cell_index(n as int, n as int, y, x);
                if x * n + y == a * n + a {
                    lemma_cell_index_distinct(n as int, y, x, a as int, a as int);
                }
            }
        }
        a += 1;
    }
    proof {
        assert(label@.map_values(|t: usize| t as int) =~= labels_after(n as nat, es, 0));
    }
    let mut k: usize = 0;
    while k < edges.len()
        invariant
            es == edges@,
            n * n <= usize::MAX,
            forall|m: int| 0 <= m < es.len() ==> (#[trigger] es[m]).0 < n && es[m].1 < n,
            k <= es.len(),
            label@.len() == n,
            label@.map_values(|t: usize| t as int) == labels_after(n as nat, es, k as nat),
            adj@.len() == n * n,
            forall|x: int, y: int|
                0 <= x < n && 0 <= y < n ==> #[trigger] adj@[x * n + y] == linked(n as nat, es, k as int, x, y),
            forall|m: int| 0 <= m < k ==> !#[trigger] closes_cycle(n as nat, es, m),
        decreases es.len() - k,
    {
        let (i, j) = edges[k];
        let ghost l = labels_after(n as nat, es, k as nat);
        assert(l[i as int] == label@[i as int] as int);
        assert(l[j as int] == label@[j as int] as int);
        if label[i] != label[j] {
            let li: usize = label[i];
            let lj: usize = label[j];
            let ghost merged = merge(l, i as int, j as int);
            let mut t: usize = 0;
            while t < n
                invariant
                    label@.len() == n,
                    l.len() == n,
                    t <= n,
                    li as int == l[i as int],
                    lj as int == l[j as int],
                    li != lj,
                    merged == merge(l, i as int, j as int),
                    forall|u: int| 0 <= u < t ==> label@[u] as int == merged[u],
                    forall|u: int| t <= u < n ==> label@[u] as int == l[u],
                decreases n - t,
            {
                if label[t] == lj {
                    label.set(t, li);
                }
                t += 1;
            }
            proof {
                lemma_labels_len(n as nat, es, k as nat);
                assert(label@.map_values(|t: usize| t as int) =~= merged);
                assert(is_union(n as nat, es, k as int));
                lemma_cell_index(n as int, n as int, j as int, i as int);
                lemma_cell_index(n as int, n as int, i as int, j as int);
            }
            let ghost before = adj@;
            adj.set(i * n + j, true);
            adj.set(j * n + i, true);
            proof {
                assert forall|x: int, y: int| 0 <= x < n && 0 <= y < n implies #[trigger] adj@[x * n + y] == linked(n as nat, es, k + 1, x, y) by {
                    lemma_cell_index(n as int, n as int, y, x);
                    if x * n + y == i * n + j {
                        lemma_cell_index_distinct(n as int, y, x, j as int, i as int);
                    }
                    if x * n + y == j * n + i {
                        lemma_cell_index_distinct(n as int, y, x, i as int, j as int);
                    }
                    if linked(n as nat, es, k + 1, x, y) && !(x == i && y == j) && !(x == j && y == i) && x != y {
                        let w = choose|w: int| 0 <= w < k + 1 && is_union(n as nat, es, w) && ((#[trigger] es[w]).0 == x && es[w].1 == y || es[w].0 == y && es[w].1 == x);
                        assert(w != k);
                        assert(linked(n as nat, es, k as int, x, y));
                    }
                    if linked(n as nat, es, k as int, x, y) && x != y {
                        let w = choose|w: int| 0 <= w < k && is_union(n as nat, es, w) && ((#[trigger] es[w]).0 == x && es[w].1 == y || es[w].0 == y && es[w].1 == x);
                        assert(0 <= w < k + 1);
                    }
                    if (x == i && y == j) || (x == j && y == i) {
                        assert(es[k as int].0 == i && es[k as int].1 == j);
                    }
                }
            }
        } else {
            let mut found: bool = false;
            let mut m: usize = 0;
            while m < n
                invariant
                    n * n <= usize::MAX,
                    i < n,
                    j < n,
                    m <= n,
                    adj@.len() == n * n,
                    forall|x: int, y: int|
                        0 <= x < n && 0 <= y < n ==> #[trigger] adj@[x * n + y] == linked(n as nat, es, k as int, x, y),
                    !found ==> forall|u: int| 0 <= u < m ==> !(#[trigger] linked(n as nat, es, k as int, i as int, u)
                        && linked(n as nat, es, k as int, u, j as int)),
                    found ==> two_hop(n as nat, es, k as int, i as int, j as int),
                decreases n - m,
            {
                proof {
                    lemma_cell_index(n as int, n as int, m as int, i as int);
                    lemma_cell_index(n as int, n as int, j as int, m as int);
                }
                if adj[i * n + m] && adj[m * n + j] {
                    assert(linked(n as nat, es, k as int, i as int, m as int));
                    assert(linked(n as nat, es, k as int, m as int, j as int));
                    found = true;
                }
                m += 1;
            }
            if !found {
                assert(closes_cycle(n as nat, es, k as int));
                return false;
            }
            assert(!closes_cycle(n as nat, es, k as int));
            proof {
                assert(!is_union(n as nat, es, k as int));
                assert forall|x: int, y: int| 0 <= x < n && 0 <= y < n implies #[trigger] adj@[x * n + y] == linked(n as nat, es, k + 1, x, y) by {
                    if linked(n as nat, es, k + 1, x, y) && x != y {
                        let w = choose|w: int| 0 <= w < k + 1 && is_union(n as nat, es, w) && ((#[trigger] es[w]).0 == x && es[w].1 == y || es[w].0 == y && es[w].1 == x);
                        assert(w != k);
                        assert(linked(n as nat, es, k as int, x, y));
                    }
                    if linked(n as nat, es, k as int, x, y) && x != y {
                        let w = choose|w: int| 0 <= w < k && is_union(n as nat, es, w) && ((#[trigger] es[w]).0 == x && es[w].1 == y || es[w].0 == y && es[w].1 == x);
                        assert(0 <= w < k + 1);
                    }
                }
            }
        }
        k += 1;
    }
    true
}

} // verus!
