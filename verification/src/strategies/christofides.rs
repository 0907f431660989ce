//! The graph phases of Christofides' heuristic that do not depend on
//! geometry: the odd-degree filter applied to the spanning tree, and
//! Hierholzer's circuit of tree plus matching, shortcut into a tour.
use vstd::prelude::*;
use crate::tour::{
    extend_with_range, first_occurrences, identity_spec, in_range, is_tour, lemma_cover_is_tour,
    lemma_first_occurrences,
};

verus! {

broadcast use vstd::seq_lib::group_seq_properties;

/// Number of edge endpoints of `edges` that fall on node `w` (a loop counts twice).
pub open spec fn degree(edges: Seq<(usize, usize)>, w: usize) -> nat
    decreases edges.len(),
{
    if edges.len() == 0 {
        0
    } else {
        let e = edges.last();
        degree(edges.drop_last(), w) + (if e.0 == w { 1nat } else { 0nat }) + (if e.1 == w {
            1nat
        } else {
            0nat
        })
    }
}

/// Every endpoint of every edge is a node below `n`.
pub open spec fn edges_in_range(edges: Seq<(usize, usize)>, n: nat) -> bool {
    forall|k: int| 0 <= k < edges.len() ==> (#[trigger] edges[k]).0 < n && edges[k].1 < n
}

/// The nodes below `n` of odd degree, in increasing order.
pub open spec fn odd_degree_spec(n: nat, edges: Seq<(usize, usize)>) -> Seq<usize>
    decreases n,
{
    if n == 0 {
        Seq::empty()
    } else {
        let rest = odd_degree_spec((n - 1) as nat, edges);
        if degree(edges, (n - 1) as usize) % 2 == 1 {
            rest.push((n - 1) as usize)
        } else {
            rest
        }
    }
}

/// Sum of the degrees of the nodes below `k`.
pub open spec fn degree_sum(edges: Seq<(usize, usize)>, k: nat) -> nat
    decreases k,
{
    if k == 0 {
        0
    } else {
        degree_sum(edges, (k - 1) as nat) + degree(edges, (k - 1) as usize)
    }
}

proof fn lemma_degree_sum_push(edges: Seq<(usize, usize)>, e: (usize, usize), k: nat)
    requires
        k <= usize::MAX + 1,
    ensures
        degree_sum(edges.push(e), k) == degree_sum(edges, k) + (if e.0 < k { 1nat } else { 0nat })
            + (if e.1 < k { 1nat } else { 0nat }),
    decreases k,
{
    assert(edges.push(e).drop_last() =~= edges);
    if k > 0 {
        lemma_degree_sum_push(edges, e, (k - 1) as nat);
    }
}

proof fn lemma_degree_sum_total(edges: Seq<(usize, usize)>, n: nat)
    requires
        edges_in_range(edges, n),
        n <= usize::MAX + 1,
    ensures
        degree_sum(edges, n) == 2 * edges.len(),
    decreases edges.len(),
{
    if edges.len() == 0 {
        lemma_degree_sum_empty(edges, n);
    } else {
        let init = edges.drop_last();
        assert(edges_in_range(init, n)) by {
            assert forall|k: int| 0 <= k < init.len() implies (#[trigger] init[k]).0 < n
                && init[k].1 < n by {
                assert(init[k] == edges[k]);
            }
        }
        lemma_degree_sum_total(init, n);
        assert(init.push(edges.last()) =~= edges);
        lemma_degree_sum_push(init, edges.last(), n);
        assert(edges[edges.len() - 1] == edges.last());
    }
}

proof fn lemma_degree_sum_empty(edges: Seq<(usize, usize)>, k: nat)
    requires
        edges.len() == 0,
    ensures
        degree_sum(edges, k) == 0,
    decreases k,
{
    if k > 0 {
        lemma_degree_sum_empty(edges, (k - 1) as nat);
    }
}

proof fn lemma_odd_count_parity(edges: Seq<(usize, usize)>, k: nat)
    requires
        k <= usize::MAX + 1,
    ensures
        odd_degree_spec(k, edges).len() % 2 == degree_sum(edges, k) % 2,
    decreases k,
{
    if k > 0 {
        lemma_odd_count_parity(edges, (k - 1) as nat);
    }
}

/// Handshake lemma: whatever edges a tree over `n` nodes has, the number of
/// its odd-degree nodes is even, so they can always be matched in pairs.
pub proof fn lemma_odd_degree_count_even(n: nat, edges: Seq<(usize, usize)>)
    requires
        edges_in_range(edges, n),
        n <= usize::MAX + 1,
    ensures
        odd_degree_spec(n, edges).len() % 2 == 0,
{
    lemma_odd_count_parity(edges, n);
    lemma_degree_sum_total(edges, n);
}


proof fn lemma_degree_bound(edges: Seq<(usize, usize)>, w: usize)
    ensures
        degree(edges, w) <= 2 * edges.len(),
    decreases edges.len(),
{
    if edges.len() > 0 {
        lemma_degree_bound(edges.drop_last(), w);
    }
}

/// Degrees of the nodes `0..n` in the edge list `edges`.
fn degrees_of(n: usize, edges: &[(usize, usize)]) -> (degrees: Vec<usize>)
    requires
        edges_in_range(edges@, n as nat),
        edges@.len() <= usize::MAX / 2,
    ensures
        degrees@.len() == n,
        forall|w: int| 0 <= w < n ==> degrees@[w] == degree(edges@, w as usize),
{
    let mut degrees: Vec<usize> = vec![0; n];
    let mut i: usize = 0;
    while i < edges.len()
        invariant
            i <= edges@.len(),
            edges@.len() <= usize::MAX / 2,
            edges_in_range(edges@, n as nat),
            degrees@.len() == n,
            forall|w: int| 0 <= w < n ==> degrees@[w] == degree(edges@.take(i as int), w as usize),
        decreases edges@.len() - i,
    {
        let (u, v) = edges[i];
        assert(edges@.take(i + 1).drop_last() =~= edges@.take(i as int));
        assert(edges@.take(i + 1).last() == edges@[i as int]);
        proof {
            lemma_degree_bound(edges@.take(i as int), u);
            lemma_degree_bound(edges@.take(i as int), v);
        }
        let du = degrees[u];
        degrees.set(u, du + 1);
        let dv = degrees[v];
        degrees.set(v, dv + 1);
        i = i + 1;
    }
    assert(edges@.take(i as int) =~= edges@);
    degrees
}

/// `x` and `w` are joined by at least one edge of `edges`, in either direction.
pub open spec fn adjacent(edges: Seq<(usize, usize)>, x: usize, w: usize) -> bool {
    exists|k: int|
        0 <= k < edges.len() && ((#[trigger] edges[k]).0 == x && edges[k].1 == w || edges[k].1 == x
            && edges[k].0 == w)
}

/// No edge of `edges` leaves the node set `s`.
pub open spec fn closed_under(edges: Seq<(usize, usize)>, s: Set<usize>) -> bool {
    forall|x: usize, w: usize|
        #![trigger s.contains(x), adjacent(edges, x, w)]
        s.contains(x) && adjacent(edges, x, w) ==> s.contains(w)
}

/// `s` is the connected component of node 0: it holds 0, no edge leaves it,
/// and it lies inside every other such set.
pub open spec fn is_component_of_start(edges: Seq<(usize, usize)>, s: Set<usize>) -> bool {
    &&& s.contains(0)
    &&& closed_under(edges, s)
    &&& forall|t: Set<usize>| #[trigger] closed_under(edges, t) && t.contains(0) ==> s.subset_of(t)
}

/// The edges join every node below `n` to node 0.
pub open spec fn connects_all(edges: Seq<(usize, usize)>, n: nat) -> bool {
    forall|t: Set<usize>|
        #[trigger] closed_under(edges, t) && t.contains(0) ==> forall|v: usize|
            v < n ==> #[trigger] t.contains(v)
}

proof fn lemma_adjacent_push(edges: Seq<(usize, usize)>, e: (usize, usize), x: usize, w: usize)
    ensures
        adjacent(edges.push(e), x, w) == (adjacent(edges, x, w) || (e.0 == x && e.1 == w) || (
        e.1 == x && e.0 == w)),
{
    let es = edges.push(e);
    if adjacent(edges, x, w) {
        let k = choose|k: int|
            0 <= k < edges.len() && ((#[trigger] edges[k]).0 == x && edges[k].1 == w || edges[k].1
                == x && edges[k].0 == w);
        assert(es[k] == edges[k]);
    }
    if (e.0 == x && e.1 == w) || (e.1 == x && e.0 == w) {
        assert(es[edges.len() as int] == e);
    }
    if adjacent(es, x, w) {
        let k = choose|k: int|
            0 <= k < es.len() && ((#[trigger] es[k]).0 == x && es[k].1 == w || es[k].1 == x
                && es[k].0 == w);
        if k < edges.len() {
            assert(es[k] == edges[k]);
        }
    }
}

proof fn lemma_adjacent_concat(a: Seq<(usize, usize)>, b: Seq<(usize, usize)>, x: usize, w: usize)
    ensures
        adjacent(a + b, x, w) == (adjacent(a, x, w) || adjacent(b, x, w)),
{
    let ab = a + b;
    if adjacent(a, x, w) {
        let k = choose|k: int|
            0 <= k < a.len() && ((#[trigger] a[k]).0 == x && a[k].1 == w || a[k].1 == x && a[k].0
                == w);
        assert(ab[k] == a[k]);
    }
    if adjacent(b, x, w) {
        let k = choose|k: int|
            0 <= k < b.len() && ((#[trigger] b[k]).0 == x && b[k].1 == w || b[k].1 == x && b[k].0
                == w);
        assert(ab[a.len() + k] == b[k]);
    }
    if adjacent(ab, x, w) {
        let k = choose|k: int|
            0 <= k < ab.len() && ((#[trigger] ab[k]).0 == x && ab[k].1 == w || ab[k].1 == x
                && ab[k].0 == w);
        if k < a.len() {
            assert(ab[k] == a[k]);
        } else {
            assert(ab[k] == b[k - a.len()]);
        }
    }
}

/// Every row of the adjacency lists names a node below `n`.
pub open spec fn rows_in_range(adj: Seq<Vec<usize>>, n: nat) -> bool {
    forall|x: int, j: int| 0 <= x < adj.len() && 0 <= j < adj[x]@.len() ==> #[trigger] adj[x]@[j] < n
}

/// The adjacency lists as sequences.
pub open spec fn rows_view(adj: Seq<Vec<usize>>) -> Seq<Seq<usize>> {
    Seq::new(adj.len(), |i: int| adj[i]@)
}

/// The adjacency lists after adding the edges of `edges` in order, each edge
/// `(u, v)` appending `v` to the list of `u` and then `u` to the list of `v`.
pub open spec fn with_edges(rows: Seq<Seq<usize>>, edges: Seq<(usize, usize)>) -> Seq<Seq<usize>>
    decreases edges.len(),
{
    if edges.len() == 0 {
        rows
    } else {
        let r = with_edges(rows, edges.drop_last());
        let (u, v) = edges.last();
        let r1 = r.update(u as int, r[u as int].push(v));
        r1.update(v as int, r1[v as int].push(u))
    }
}

/// The multigraph of tree plus matching over `n` nodes, as adjacency lists
/// built from empty ones: first the tree's edges, then the matching's.
pub open spec fn multigraph(n: nat, mst: Seq<(usize, usize)>, matching: Seq<(usize, usize)>) -> Seq<Seq<usize>> {
    with_edges(with_edges(Seq::new(n, |i: int| Seq::<usize>::empty()), mst), matching)
}

/// Adds both directions of every edge of `edges` to the adjacency lists.
fn add_edges(adj: &mut Vec<Vec<usize>>, edges: &[(usize, usize)])
    requires
        edges_in_range(edges@, old(adj)@.len() as nat),
        rows_in_range(old(adj)@, old(adj)@.len() as nat),
    ensures
        final(adj)@.len() == old(adj)@.len(),
        rows_view(final(adj)@) == with_edges(rows_view(old(adj)@), edges@),
        rows_in_range(final(adj)@, old(adj)@.len() as nat),
        forall|x: usize, w: usize|
            x < old(adj)@.len() ==> (#[trigger] final(adj)@[x as int]@.contains(w) <==> (
            old(adj)@[x as int]@.contains(w) || adjacent(edges@, x, w))),
{
    let ghost start = adj@;
    let n = adj.len();
    let mut i: usize = 0;
    while i < edges.len()
        invariant
            i <= edges@.len(),
            adj@.len() == n,
            n == start.len(),
            edges_in_range(edges@, n as nat),
            rows_in_range(adj@, n as nat),
            rows_view(adj@) == with_edges(rows_view(start), edges@.take(i as int)),
            forall|x: usize, w: usize|
                x < n ==> (#[trigger] adj@[x as int]@.contains(w) <==> (start[x as int]@.contains(w)
                    || adjacent(edges@.take(i as int), x, w))),
        decreases edges@.len() - i,
    {
        let (u, v) = edges[i];
        assert(edges@[i as int].0 < n && edges@[i as int].1 < n);
        let ghost before = adj@;
        adj[u].push(v);
        let ghost mid = adj@;
        adj[v].push(u);
        proof {
            assert(edges@.take(i + 1) =~= edges@.take(i as int).push(edges@[i as int]));
            let r = rows_view(before);
            let r1 = r.update(u as int, r[u as int].push(v));
            assert(rows_view(mid) =~= r1);
            assert(rows_view(adj@) =~= r1.update(v as int, r1[v as int].push(u)));
            assert(edges@.take(i + 1).drop_last() =~= edges@.take(i as int));
            assert forall|x: usize, w: usize| x < n implies (#[trigger] adj@[x as int]@.contains(w)
                <==> (start[x as int]@.contains(w) || adjacent(edges@.take(i + 1), x, w))) by {
                lemma_adjacent_push(edges@.take(i as int), edges@[i as int], x, w);
                if x == u {
                    assert(mid[x as int]@ == before[x as int]@.push(v));
                } else {
                    assert(mid[x as int] == before[x as int]);
                }
                if x == v {
                    assert(adj@[x as int]@ == mid[x as int]@.push(u));
                } else {
                    assert(adj@[x as int] == mid[x as int]);
                }
            }
            assert forall|x: int, j: int|
                0 <= x < adj@.len() && 0 <= j < adj@[x]@.len() implies #[trigger] adj@[x]@[j] < n by {
                if x == u as int && x != v as int {
                    assert(adj@[x]@ == before[x]@.push(v));
                    if j < before[x]@.len() {
                        assert(adj@[x]@[j] == before[x]@[j]);
                    }
                } else if x == v as int && x != u as int {
                    assert(adj@[x]@ == before[x]@.push(u));
                    if j < before[x]@.len() {
                        assert(adj@[x]@[j] == before[x]@[j]);
                    }
                } else if x == u as int && x == v as int {
                    assert(adj@[x]@ == before[x]@.push(v).push(u));
                    if j < before[x]@.len() {
                        assert(adj@[x]@[j] == before[x]@[j]);
                    }
                } else {
                    assert(adj@[x] == before[x]);
                }
            }
        }
        i = i + 1;
    }
    assert(edges@.take(i as int) =~= edges@);
}

/// No adjacency list of a member of `s` names a node outside `s`.
pub open spec fn rows_closed(adj: Seq<Vec<usize>>, s: Set<usize>) -> bool {
    forall|x: usize, w: usize|
        #![trigger s.contains(x), adj[x as int]@.contains(w)]
        s.contains(x) && x < adj.len() && adj[x as int]@.contains(w) ==> s.contains(w)
}

/// Total number of entries over all adjacency lists.
pub open spec fn total_len(adj: Seq<Vec<usize>>) -> nat
    decreases adj.len(),
{
    if adj.len() == 0 {
        0
    } else {
        total_len(adj.drop_last()) + adj.last()@.len()
    }
}

proof fn lemma_total_len_update(adj: Seq<Vec<usize>>, i: int, row: Vec<usize>)
    requires
        0 <= i < adj.len(),
    ensures
        total_len(adj.update(i, row)) + adj[i]@.len() == total_len(adj) + row@.len(),
    decreases adj.len(),
{
    let up = adj.update(i, row);
    if i == adj.len() - 1 {
        assert(up.drop_last() =~= adj.drop_last());
    } else {
        assert(up.drop_last() =~= adj.drop_last().update(i, row));
        lemma_total_len_update(adj.drop_last(), i, row);
    }
}

/// Position of the first occurrence of `u` in `row`, if any.
fn position_of(row: &Vec<usize>, u: usize) -> (r: Option<usize>)
    ensures
        match r {
            Some(p) => p < row@.len() && row@[p as int] == u && forall|q: int|
                0 <= q < p ==> row@[q] != u,
            None => !row@.contains(u),
        },
{
    let mut p: usize = 0;
    while p < row.len()
        invariant
            p <= row@.len(),
            forall|q: int| 0 <= q < p ==> row@[q] != u,
        decreases row@.len() - p,
    {
        if row[p] == u {
            return Some(p);
        }
        p = p + 1;
    }
    None
}

/// Position of the first occurrence of `u` in `row`.
pub open spec fn first_position(row: Seq<usize>, u: usize) -> int {
    choose|p: int| 0 <= p < row.len() && row[p] == u && forall|q: int| 0 <= q < p ==> row[q] != u
}

proof fn lemma_first_position(row: Seq<usize>, u: usize, p: int)
    requires
        0 <= p < row.len(),
        row[p] == u,
        forall|q: int| 0 <= q < p ==> row[q] != u,
    ensures
        first_position(row, u) == p,
{
    let f = first_position(row, u);
    assert(0 <= f < row.len() && row[f] == u && forall|q: int| 0 <= q < f ==> row[q] != u);
    if f < p {
        assert(row[f] != u);
    }
    if p < f {
        assert(row[p] != u);
    }
}

/// One step of Hierholzer's walk on (adjacency lists, stack, emitted
/// circuit): a node `u` on top of the stack with no edge left is emitted and
/// popped; otherwise the last entry `v` of its list is taken off, the first
/// `u` in the list of `v` (the edge's other direction) is removed, and `v`
/// is pushed.
pub open spec fn hierholzer_step(st: (Seq<Seq<usize>>, Seq<usize>, Seq<usize>)) -> (Seq<Seq<usize>>, Seq<usize>, Seq<usize>) {
    let adj = st.0;
    let stack = st.1;
    let u = stack.last();
    if adj[u as int].len() == 0 {
        (adj, stack.drop_last(), st.2.push(u))
    } else {
        let v = adj[u as int].last();
        let a1 = adj.update(u as int, adj[u as int].drop_last());
        let a2 = if a1[v as int].contains(u) {
            a1.update(v as int, a1[v as int].remove(first_position(a1[v as int], u)))
        } else {
            a1
        };
        (a2, stack.push(v), st.2)
    }
}

/// The circuit emitted once the stack is empty, taking at most `fuel` steps.
pub open spec fn hierholzer_run(st: (Seq<Seq<usize>>, Seq<usize>, Seq<usize>), fuel: nat) -> Seq<usize>
    decreases fuel,
{
    if st.1.len() == 0 || fuel == 0 {
        st.2
    } else {
        hierholzer_run(hierholzer_step(st), (fuel - 1) as nat)
    }
}

/// Number of entries over all adjacency lists.
pub open spec fn rows_total(adj: Seq<Seq<usize>>) -> nat
    decreases adj.len(),
{
    if adj.len() == 0 {
        0
    } else {
        rows_total(adj.drop_last()) + adj.last().len()
    }
}

/// The circuit of Hierholzer's walk from node 0, in the order its nodes are
/// emitted.  Every step removes an edge entry or pops the stack, so the walk
/// ends within `2 * rows_total(adj) + 1` steps.
pub open spec fn hierholzer_circuit(adj: Seq<Seq<usize>>) -> Seq<usize> {
    hierholzer_run((adj, seq![0usize], Seq::empty()), 2 * rows_total(adj) + 1)
}

/// The tour Christofides' heuristic builds from tree plus matching over `n`
/// nodes: Hierholzer's circuit read from its start, each node kept at its
/// first visit.
pub open spec fn christofides_tour(n: nat, mst: Seq<(usize, usize)>, matching: Seq<(usize, usize)>) -> Seq<usize> {
    first_occurrences(hierholzer_circuit(multigraph(n, mst, matching)).reverse())
}

proof fn lemma_total_len_view(adj: Seq<Vec<usize>>)
    ensures
        total_len(adj) == rows_total(rows_view(adj)),
    decreases adj.len(),
{
    if adj.len() > 0 {
        lemma_total_len_view(adj.drop_last());
        assert(rows_view(adj).drop_last() =~= rows_view(adj.drop_last()));
    }
}

/// Hierholzer's walk from node 0 over the multigraph given by its adjacency
/// lists: each step follows (and removes) an unused edge of the node on top
/// of the stack, or emits that node once it has none left.  The emitted walk
/// is exactly [`hierholzer_circuit`]; it ends at node 0 and passes exactly
/// through the nodes joined to node 0.
#[verifier::spinoff_prover]
#[verifier::rlimit(60)]
fn euler_walk(adj: Vec<Vec<usize>>) -> (circuit: Vec<usize>)
    requires
        adj@.len() > 0,
        rows_in_range(adj@, adj@.len() as nat),
    ensures
        circuit@.len() > 0,
        circuit@.last() == 0,
        forall|i: int| 0 <= i < circuit@.len() ==> #[trigger] circuit@[i] < adj@.len(),
        rows_closed(adj@, circuit@.to_set()),
        forall|t: Set<usize>|
            #[trigger] rows_closed(adj@, t) && t.contains(0) ==> circuit@.to_set().subset_of(t),
        circuit@ == hierholzer_circuit(rows_view(adj@)),
{
    broadcast use vstd::seq_lib::group_to_multiset_ensures;
    broadcast use vstd::multiset::group_multiset_axioms;

    let ghost orig = adj@;
    let n = adj.len();
    let mut current_adj = adj;
    let mut circuit: Vec<usize> = Vec::new();
    let mut stack: Vec<usize> = Vec::new();
    stack.push(0);
    let ghost mut visited: Set<usize> = Set::empty().insert(0usize);
    let ghost mut remaining: nat = total_len(current_adj@);
    let ghost target = hierholzer_circuit(rows_view(orig));
    let ghost mut fuel: nat = 2 * total_len(orig) + 1;
    proof {
        lemma_total_len_view(orig);
        assert(stack@ =~= seq![0usize]);
        assert(circuit@ =~= Seq::<usize>::empty());
    }
    while stack.len() > 0
        invariant
            n == orig.len(),
            n > 0,
            rows_in_range(orig, n as nat),
            current_adj@.len() == n,
            rows_in_range(current_adj@, n as nat),
            remaining == total_len(current_adj@),
            forall|i: int| 0 <= i < stack@.len() ==> #[trigger] stack@[i] < n,
            forall|i: int| 0 <= i < circuit@.len() ==> #[trigger] circuit@[i] < n,
            forall|x: usize, w: usize|
                x < n ==> #[trigger] current_adj@[x as int]@.to_multiset().count(w)
                    <= orig[x as int]@.to_multiset().count(w),
            forall|x: usize, w: usize|
                x < n && #[trigger] current_adj@[x as int]@.to_multiset().count(w)
                    < orig[x as int]@.to_multiset().count(w) ==> visited.contains(x)
                    && visited.contains(w),
            forall|x: usize| #[trigger]
                visited.contains(x) ==> stack@.contains(x) || circuit@.contains(x),
            forall|x: usize| #[trigger] stack@.contains(x) ==> visited.contains(x),
            forall|x: usize| #[trigger] circuit@.contains(x) ==> visited.contains(x),
            forall|x: usize|
                #[trigger] visited.contains(x) && !stack@.contains(x) ==> x < n
                    && current_adj@[x as int]@.len() == 0,
            visited.contains(0),
            stack@.len() > 0 ==> stack@[0] == 0,
            stack@.len() == 0 ==> circuit@.len() > 0 && circuit@.last() == 0,
            forall|t: Set<usize>|
                #[trigger] rows_closed(orig, t) && t.contains(0) ==> visited.subset_of(t),
            hierholzer_run((rows_view(current_adj@), stack@, circuit@), fuel) == target,
            2 * remaining + stack@.len() <= fuel,
        decreases 2 * remaining + stack@.len(),
    {
        let u = stack[stack.len() - 1];
        let ghost st = (rows_view(current_adj@), stack@, circuit@);
        let ghost r0 = remaining;
        proof {
            assert(fuel > 0);
            assert(hierholzer_run(st, fuel) == hierholzer_run(hierholzer_step(st), (fuel - 1) as nat));
            assert(stack@.last() == u);
            assert(st.0[u as int] == current_adj@[u as int]@);
        }
        assert(stack@.contains(u)) by {
            assert(stack@[stack@.len() - 1] == u);
        }
        if current_adj[u].len() == 0 {
            let ghost old_stack = stack@;
            let ghost old_circuit = circuit@;
            circuit.push(u);
            stack.pop();
            proof {
                assert(stack@ == old_stack.drop_last());
                assert forall|x: usize| #[trigger] visited.contains(x) implies stack@.contains(x)
                    || circuit@.contains(x) by {
                    if old_stack.contains(x) && !stack@.contains(x) {
                        let k = choose|k: int| 0 <= k < old_stack.len() && old_stack[k] == x;
                        if k < old_stack.len() - 1 {
                            assert(stack@[k] == x);
                        }
                        assert(circuit@[circuit@.len() - 1] == x);
                    } else if !old_stack.contains(x) {
                        assert(old_circuit.contains(x));
                        let k = choose|k: int| 0 <= k < old_circuit.len() && old_circuit[k] == x;
                        assert(circuit@[k] == x);
                    }
                }
                assert forall|x: usize| #[trigger] stack@.contains(x) implies visited.contains(x) by {
                    let k = choose|k: int| 0 <= k < stack@.len() && stack@[k] == x;
                    assert(old_stack[k] == x);
                    assert(old_stack.contains(x));
                }
                assert forall|x: usize| #[trigger] circuit@.contains(x) implies visited.contains(x) by {
                    let k = choose|k: int| 0 <= k < circuit@.len() && circuit@[k] == x;
                    if k < circuit@.len() - 1 {
                        assert(old_circuit[k] == x);
                        assert(old_circuit.contains(x));
                    }
                }
                assert forall|x: usize| #[trigger]
                    visited.contains(x) && !stack@.contains(x) implies x < n
                    && current_adj@[x as int]@.len() == 0 by {
                    if x != u && old_stack.contains(x) {
                        let k = choose|k: int| 0 <= k < old_stack.len() && old_stack[k] == x;
                        assert(k < old_stack.len() - 1);
                        assert(stack@[k] == x);
                    }
                }
                if stack@.len() > 0 {
                    assert(stack@[0] == old_stack[0]);
                } else {
                    assert(old_stack[0] == u);
                }
                let next = hierholzer_step(st);
                assert(rows_view(current_adj@) =~= next.0);
                assert(stack@ =~= next.1);
                assert(circuit@ =~= next.2);
                assert((rows_view(current_adj@), stack@, circuit@) == next);
                fuel = (fuel - 1) as nat;
            }
        } else {
            let ghost before = current_adj@;
            let ghost old_stack = stack@;
            let ghost old_visited = visited;
            let v = current_adj[u].pop().unwrap();
            let ghost mid = current_adj@;
            proof {
                let row = before[u as int]@;
                assert(row.remove(row.len() - 1) =~= row.drop_last());
                assert(row[row.len() - 1] == v);
                assert(mid[u as int]@ == row.drop_last());
                assert(row.contains(v)) by {
                    assert(row[row.len() - 1] == v);
                }
                assert(orig[u as int]@.to_multiset().count(v) >= row.to_multiset().count(v));
                assert(orig[u as int]@.contains(v));
                assert(v < n) by {
                    assert(before[u as int]@[row.len() - 1] == v);
                }
                lemma_total_len_update(before, u as int, mid[u as int]);
                assert(mid == before.update(u as int, mid[u as int]));
                visited = visited.insert(v);
            }
            let found = position_of(&current_adj[v], u);
            match found {
                Some(p) => {
                    let ghost row_v = current_adj@[v as int]@;
                    current_adj[v].remove(p);
                    proof {
                        assert(current_adj@[v as int]@ == row_v.remove(p as int));
                        lemma_total_len_update(mid, v as int, current_adj@[v as int]);
                        assert(current_adj@ == mid.update(v as int, current_adj@[v as int]));
                    }
                },
                None => {},
            }
            stack.push(v);
            proof {
                remaining = total_len(current_adj@);
                assert(stack@ == old_stack.push(v));
                assert(stack@.contains(v)) by {
                    assert(stack@[stack@.len() - 1] == v);
                }
                assert forall|x: int, j: int|
                    0 <= x < current_adj@.len() && 0 <= j < current_adj@[x]@.len() implies
                    #[trigger] current_adj@[x]@[j] < n by {
                    if x == u as int && x != v as int {
                        assert(current_adj@[x]@[j] == before[x]@[j]);
                    } else if x == v as int {
                        if found is Some {
                            let p = found->0 as int;
                            let r1 = mid[x]@;
                            if j < p {
                                assert(current_adj@[x]@[j] == r1[j]);
                            } else {
                                assert(current_adj@[x]@[j] == r1[j + 1]);
                            }
                            if x == u as int {
                                assert(r1[j] == before[x]@[j]);
                                assert(r1[j + 1] == before[x]@[j + 1]) by {
                                    if j + 1 < r1.len() {
                                    }
                                }
                            }
                        } else if x == u as int {
                            assert(current_adj@[x]@[j] == before[x]@[j]);
                        }
                    }
                }
                assert forall|x: usize, w: usize| x < n implies #[trigger] current_adj@[x as int]@.to_multiset().count(w) <= orig[x as int]@.to_multiset().count(w) && (
                current_adj@[x as int]@.to_multiset().count(w)
                    < orig[x as int]@.to_multiset().count(w) ==> visited.contains(x)
                    && visited.contains(w)) by {
                    let c0 = before[x as int]@.to_multiset().count(w);
                    let c2 = current_adj@[x as int]@.to_multiset().count(w);
                    assert(c2 <= c0) by {
                        let c1 = mid[x as int]@.to_multiset().count(w);
                        assert(c1 <= c0) by {
                            if x == u {
                                let row = before[x as int]@;
                                assert(row.remove(row.len() - 1) =~= row.drop_last());
                            }
                        }
                        if x == v && found is Some {
                            let p = found->0 as int;
                            assert(current_adj@[x as int]@ == mid[x as int]@.remove(p));
                        }
                    }
                    if c2 < orig[x as int]@.to_multiset().count(w) && c0 == orig[x as int]@.to_multiset().count(w) {
                        let c1 = mid[x as int]@.to_multiset().count(w);
                        if c1 < c0 {
                            assert(x == u) by {
                                if x != u {
                                    assert(mid[x as int] == before[x as int]);
                                }
                            }
                            let row = before[x as int]@;
                            assert(row.remove(row.len() - 1) =~= row.drop_last());
                            assert(row[row.len() - 1] == v);
                            assert(w == v);
                        } else {
                            assert(x == v && found is Some) by {
                                if !(x == v && found is Some) {
                                    assert(current_adj@[x as int] == mid[x as int]);
                                }
                            }
                            let p = found->0 as int;
                            assert(current_adj@[x as int]@ == mid[x as int]@.remove(p));
                            assert(mid[x as int]@[p] == u);
                            assert(w == u);
                        }
                    }
                }
                assert forall|x: usize| #[trigger] visited.contains(x) implies stack@.contains(x)
                    || circuit@.contains(x) by {
                    if x != v && old_stack.contains(x) {
                        let k = choose|k: int| 0 <= k < old_stack.len() && old_stack[k] == x;
                        assert(stack@[k] == x);
                    }
                }
                assert forall|x: usize| #[trigger] stack@.contains(x) implies visited.contains(x) by {
                    let k = choose|k: int| 0 <= k < stack@.len() && stack@[k] == x;
                    if k < old_stack.len() {
                        assert(old_stack[k] == x);
                    }
                }
                assert forall|x: usize| #[trigger]
                    visited.contains(x) && !stack@.contains(x) implies x < n
                    && current_adj@[x as int]@.len() == 0 by {
                    assert(x != v);
                    if old_stack.contains(x) {
                        let k = choose|k: int| 0 <= k < old_stack.len() && old_stack[k] == x;
                        assert(stack@[k] == x);
                    }
                    assert(old_visited.contains(x));
                    assert(x != u);
                    assert(current_adj@[x as int] == before[x as int]);
                }
                assert(stack@[0] == old_stack[0]);
                assert forall|t: Set<usize>| #[trigger]
                    rows_closed(orig, t) && t.contains(0) implies visited.subset_of(t) by {
                    assert(old_visited.subset_of(t));
                    assert(t.contains(u));
                    assert(orig[u as int]@.contains(v));
                }
                let next = hierholzer_step(st);
                let row = before[u as int]@;
                assert(st.0[u as int].len() != 0);
                assert(st.0[u as int].last() == v);
                let a1 = st.0.update(u as int, st.0[u as int].drop_last());
                assert(rows_view(mid) =~= a1);
                assert(a1[v as int] == mid[v as int]@);
                match found {
                    Some(p) => {
                        lemma_first_position(mid[v as int]@, u, p as int);
                        assert(mid[v as int]@[p as int] == u);
                        assert(a1[v as int].contains(u));
                        assert(current_adj@[v as int]@ == mid[v as int]@.remove(p as int));
                        assert(rows_view(current_adj@) =~= a1.update(
                            v as int,
                            a1[v as int].remove(first_position(a1[v as int], u)),
                        ));
                    },
                    None => {
                        assert(!a1[v as int].contains(u));
                        assert(current_adj@ == mid);
                        assert(rows_view(current_adj@) =~= a1);
                    },
                }
                assert(rows_view(current_adj@) =~= next.0);
                assert(stack@ =~= next.1);
                assert(circuit@ =~= next.2);
                assert((rows_view(current_adj@), stack@, circuit@) == next);
                assert(total_len(mid) + 1 == r0);
                assert(remaining <= total_len(mid));
                fuel = (fuel - 1) as nat;
            }
        }
    }
    proof {
        let cs = circuit@.to_set();
        assert forall|x: usize, w: usize|
            #![trigger cs.contains(x), orig[x as int]@.contains(w)]
            cs.contains(x) && x < orig.len() && orig[x as int]@.contains(w) implies cs.contains(w) by {
            assert(circuit@.contains(x));
            assert(visited.contains(x));
            assert(!stack@.contains(x));
            assert(current_adj@[x as int]@.to_multiset().count(w) == 0);
            assert(orig[x as int]@.to_multiset().count(w) > 0);
            assert(visited.contains(w));
            assert(circuit@.contains(w));
        }
        assert forall|t: Set<usize>| #[trigger]
            rows_closed(orig, t) && t.contains(0) implies cs.subset_of(t) by {
            assert forall|x: usize| cs.contains(x) implies t.contains(x) by {
                assert(circuit@.contains(x));
            }
        }
    }
    circuit
}

proof fn lemma_first_element(s: Seq<usize>)
    requires
        s.len() > 0,
    ensures
        first_occurrences(s).len() > 0,
        first_occurrences(s)[0] == s[0],
    decreases s.len(),
{
    if s.len() > 1 {
        lemma_first_element(s.drop_last());
        assert(s.drop_last()[0] == s[0]);
        let r = first_occurrences(s.drop_last());
        assert(r.push(s.last())[0] == r[0]);
    } else {
        assert(s.drop_last().len() == 0);
        assert(first_occurrences(s.drop_last()) == Seq::<usize>::empty());
        assert(!Seq::<usize>::empty().contains(s.last()));
        assert(s.last() == s[0]);
        assert(first_occurrences(s) == Seq::<usize>::empty().push(s.last()));
    }
}

/// `circuit` read backwards.
fn reversed(circuit: &Vec<usize>) -> (r: Vec<usize>)
    ensures
        r@ == circuit@.reverse(),
{
    let mut r: Vec<usize> = Vec::new();
    let mut i = circuit.len();
    while i > 0
        invariant
            i <= circuit@.len(),
            r@.len() == circuit@.len() - i,
            forall|k: int| 0 <= k < r@.len() ==> r@[k] == circuit@[circuit@.len() - 1 - k],
        decreases i,
    {
        i = i - 1;
        r.push(circuit[i]);
    }
    assert(r@ =~= circuit@.reverse());
    r
}

/// Keeps the first visit of every node of `circuit` (all below `n`) and
/// skips the later ones.
fn shortcut(n: usize, circuit: &Vec<usize>) -> (path: Vec<usize>)
    requires
        forall|i: int| 0 <= i < circuit@.len() ==> #[trigger] circuit@[i] < n,
    ensures
        path@ == first_occurrences(circuit@),
{
    let mut visited: Vec<bool> = vec![false; n];
    let mut path: Vec<usize> = Vec::new();
    let mut i: usize = 0;
    while i < circuit.len()
        invariant
            i <= circuit@.len(),
            visited@.len() == n,
            forall|k: int| 0 <= k < circuit@.len() ==> #[trigger] circuit@[k] < n,
            path@ == first_occurrences(circuit@.take(i as int)),
            forall|w: int| 0 <= w < n ==> visited@[w] == path@.contains(w as usize),
        decreases circuit@.len() - i,
    {
        let node = circuit[i];
        assert(circuit@.take(i + 1).drop_last() =~= circuit@.take(i as int));
        assert(circuit@.take(i + 1).last() == node);
        if !visited[node] {
            visited.set(node, true);
            path.push(node);
            assert forall|w: int| 0 <= w < n implies visited@[w] == path@.contains(w as usize) by {
                if w == node as int {
                    assert(path@[path@.len() - 1] == node);
                } else {
                    let prev = first_occurrences(circuit@.take(i as int));
                    if path@.contains(w as usize) {
                        let k = choose|k: int| 0 <= k < path@.len() && path@[k] == w as usize;
                        assert(prev[k] == w as usize);
                    }
                    if prev.contains(w as usize) {
                        let k = choose|k: int| 0 <= k < prev.len() && prev[k] == w as usize;
                        assert(path@[k] == w as usize);
                    }
                }
            }
        }
        i = i + 1;
    }
    assert(circuit@.take(i as int) =~= circuit@);
    path
}

/// Every edge hangs off node 0 or off the second end of an earlier edge:
/// the edges were added one node at a time, growing from node 0.
pub open spec fn grown_from_root(edges: Seq<(usize, usize)>) -> bool {
    forall|k: int|
        0 <= k < edges.len() ==> (#[trigger] edges[k]).0 == 0 || exists|j: int|
            0 <= j < k && edges[j].1 == edges[k].0
}

/// Node `v` is node 0 or the second end of one of the edges.
pub open spec fn reached(edges: Seq<(usize, usize)>, v: usize) -> bool {
    v == 0 || exists|k: int| 0 <= k < edges.len() && (#[trigger] edges[k]).1 == v
}

/// The state of Prim's construction over `n` nodes: before node 0 is taken
/// nothing is in the tree, no edge exists and every node is attached to 0;
/// afterwards the tree's nodes are exactly node 0 and the nodes its edges
/// reached, the edges grow from node 0, and every node outside the tree is
/// attached to a node inside it.
pub open spec fn prim_ok(in_tree: Seq<bool>, parent: Seq<usize>, edges: Seq<(usize, usize)>) -> bool {
    let n = in_tree.len();
    &&& parent.len() == n
    &&& edges_in_range(edges, n)
    &&& grown_from_root(edges)
    &&& forall|v: int| 0 <= v < n ==> #[trigger] parent[v] < n
    &&& if n > 0 && in_tree[0] {
        &&& forall|v: usize| v < n ==> (#[trigger] in_tree[v as int] <==> reached(edges, v))
        &&& forall|v: int| 0 <= v < n && !#[trigger] in_tree[v] ==> in_tree[parent[v] as int]
    } else {
        &&& edges.len() == 0
        &&& forall|v: int| 0 <= v < n ==> !#[trigger] in_tree[v] && parent[v] == 0
    }
}

/// Prim's spanning tree under construction.  Which node joins next, and
/// which tree node a waiting node is attached to, depend on distances and
/// are chosen by the caller; the tree's structure is kept here.
pub struct PrimTree {
    /// Whether each node is in the tree.
    pub in_tree: Vec<bool>,
    /// The tree node each node is attached to.
    pub parent: Vec<usize>,
    /// The tree's edges (attachment, node), in the order the nodes joined.
    pub edges: Vec<(usize, usize)>,
}

impl PrimTree {
    /// An empty tree over `n` nodes, every node attached to node 0.
    pub fn new(n: usize) -> (t: Self)
        ensures
            t.in_tree@ == Seq::new(n as nat, |i: int| false),
            t.parent@ == Seq::new(n as nat, |i: int| 0usize),
            t.edges@.len() == 0,
            prim_ok(t.in_tree@, t.parent@, t.edges@),
    {
        let mut in_tree: Vec<bool> = Vec::new();
        let mut parent: Vec<usize> = Vec::new();
        let mut k: usize = 0;
        while k < n
            invariant
                k <= n,
                in_tree@ == Seq::new(k as nat, |i: int| false),
                parent@ == Seq::new(k as nat, |i: int| 0usize),
            decreases n - k,
        {
            in_tree.push(false);
            parent.push(0);
            k = k + 1;
            assert(in_tree@ =~= Seq::new(k as nat, |i: int| false));
            assert(parent@ =~= Seq::new(k as nat, |i: int| 0usize));
        }
        PrimTree { in_tree, parent, edges: Vec::new() }
    }

    /// Node `u` joins the tree: node 0 first, any other node through the
    /// edge to the tree node it is attached to.
    pub fn add(&mut self, u: usize)
        requires
            prim_ok(old(self).in_tree@, old(self).parent@, old(self).edges@),
            u < old(self).in_tree@.len(),
            !old(self).in_tree@[u as int],
            u == 0 || old(self).in_tree@[0],
        ensures
            prim_ok(final(self).in_tree@, final(self).parent@, final(self).edges@),
            final(self).in_tree@ == old(self).in_tree@.update(u as int, true),
            final(self).parent@ == old(self).parent@,
            final(self).edges@ == (if u != 0 {
                old(self).edges@.push((old(self).parent@[u as int], u))
            } else {
                old(self).edges@
            }),
    {
        let ghost it = self.in_tree@;
        let ghost e = self.edges@;
        let n = self.in_tree.len();
        self.in_tree.set(u, true);
        if u != 0 {
            let p = self.parent[u];
            self.edges.push((p, u));
            proof {
                let e2 = self.edges@;
                assert(it[p as int]);
                assert(reached(e, p));
                assert forall|k: int| 0 <= k < e2.len() implies (#[trigger] e2[k]).0 == 0 || exists|j: int|
                    0 <= j < k && e2[j].1 == e2[k].0 by {
                    if k < e.len() {
                        assert(e2[k] == e[k]);
                        if e[k].0 != 0 {
                            let j = choose|j: int| 0 <= j < k && e[j].1 == e[k].0;
                            assert(e2[j] == e[j]);
                        }
                    } else if p != 0 {
                        let j = choose|j: int| 0 <= j < e.len() && (#[trigger] e[j]).1 == p;
                        assert(e2[j] == e[j]);
                    }
                }
                assert forall|v: usize| v < n implies (#[trigger] self.in_tree@[v as int] <==> reached(e2, v)) by {
                    if reached(e, v) && v != 0 {
                        let k = choose|k: int| 0 <= k < e.len() && (#[trigger] e[k]).1 == v;
                        assert(e2[k] == e[k]);
                    }
                    if v == u {
                        assert(e2[e.len() as int].1 == u);
                    }
                    if reached(e2, v) && v != 0 && v != u {
                        let k = choose|k: int| 0 <= k < e2.len() && (#[trigger] e2[k]).1 == v;
                        assert(k < e.len());
                        assert(e[k] == e2[k]);
                    }
                }
            }
        } else {
            proof {
                assert forall|v: usize| v < n implies (#[trigger] self.in_tree@[v as int] <==> reached(e, v)) by {
                    if v != 0 && reached(e, v) {
                        let k = choose|k: int| 0 <= k < e.len() && (#[trigger] e[k]).1 == v;
                    }
                }
            }
        }
    }

    /// Attaches node `v`, not yet in the tree, to tree node `u`.
    pub fn set_parent(&mut self, v: usize, u: usize)
        requires
            prim_ok(old(self).in_tree@, old(self).parent@, old(self).edges@),
            v < old(self).in_tree@.len(),
            u < old(self).in_tree@.len(),
            !old(self).in_tree@[v as int],
            old(self).in_tree@[u as int],
        ensures
            prim_ok(final(self).in_tree@, final(self).parent@, final(self).edges@),
            final(self).parent@ == old(self).parent@.update(v as int, u),
            final(self).in_tree@ == old(self).in_tree@,
            final(self).edges@ == old(self).edges@,
    {
        proof {
            assert(self.in_tree@[0]) by {
                if !self.in_tree@[0] {
                    assert(!self.in_tree@[u as int]);
                }
            }
        }
        self.parent.set(v, u);
    }
}

proof fn lemma_grown_reaches(edges: Seq<(usize, usize)>, t: Set<usize>, k: int)
    requires
        grown_from_root(edges),
        closed_under(edges, t),
        t.contains(0),
        0 <= k < edges.len(),
    ensures
        t.contains(edges[k].1),
    decreases k,
{
    let e = edges[k];
    if e.0 != 0 {
        let j = choose|j: int| 0 <= j < k && edges[j].1 == e.0;
        lemma_grown_reaches(edges, t, j);
    }
    assert(adjacent(edges, e.0, e.1));
}

/// A Prim tree that has taken every node joins every node to node 0.
pub proof fn lemma_full_tree_connects(in_tree: Seq<bool>, parent: Seq<usize>, edges: Seq<(usize, usize)>)
    requires
        prim_ok(in_tree, parent, edges),
        in_tree.len() > 0,
        forall|v: int| 0 <= v < in_tree.len() ==> #[trigger] in_tree[v],
    ensures
        connects_all(edges, in_tree.len()),
{
    let n = in_tree.len();
    assert(in_tree[0]);
    assert forall|t: Set<usize>| #[trigger] closed_under(edges, t) && t.contains(0) implies forall|v: usize|
        v < n ==> #[trigger] t.contains(v) by {
        assert forall|v: usize| v < n implies #[trigger] t.contains(v) by {
            assert(in_tree[v as int]);
            assert(reached(edges, v));
            if v != 0 {
                let k = choose|k: int| 0 <= k < edges.len() && (#[trigger] edges[k]).1 == v;
                lemma_grown_reaches(edges, t, k);
            }
        }
    }
}

/// Adding edges keeps every node joined to node 0: once the tree connects
/// all nodes, tree plus matching does too.
pub proof fn lemma_connects_with_more(a: Seq<(usize, usize)>, b: Seq<(usize, usize)>, n: nat)
    requires
        connects_all(a, n),
    ensures
        connects_all(a + b, n),
{
    assert forall|t: Set<usize>| #[trigger] closed_under(a + b, t) && t.contains(0) implies forall|v: usize|
        v < n ==> #[trigger] t.contains(v) by {
        assert(closed_under(a, t)) by {
            assert forall|x: usize, w: usize|
                #![trigger t.contains(x), adjacent(a, x, w)]
                t.contains(x) && adjacent(a, x, w) implies t.contains(w) by {
                lemma_adjacent_concat(a, b, x, w);
            }
        }
    }
}

/// Christofides' strategy state; the phases hold the edges computed so far.
pub struct ChristofidesStrategy {
    pub phase: ChristofidesPhase,
}

/// The phase reached by [`ChristofidesStrategy`].
#[derive(Debug, PartialEq)]
pub enum ChristofidesPhase {
    NotStarted,
    MstComputed { mst_edges: Vec<(usize, usize)> },
    MatchingComputed { mst_edges: Vec<(usize, usize)>, matching_edges: Vec<(usize, usize)> },
    Finished,
}

/// What one step of Christofides' strategy asks of its caller.
#[derive(Debug)]
pub enum ChristofidesPlan {
    /// The run is over.
    Finished,
    /// Compute the minimum spanning tree and record it.
    BuildTree,
    /// Match these odd-degree nodes in pairs and record the matching.
    Match(Vec<usize>),
    /// The tour is in place: polish it with 2-opt, then the run is over.
    Polish,
}

/// The edges stored in a phase name nodes below `n`, and the tree is small
/// enough for its degrees to be counted.
pub open spec fn phase_fits(phase: ChristofidesPhase, n: nat) -> bool {
    match phase {
        ChristofidesPhase::MstComputed { mst_edges } => edges_in_range(mst_edges@, n)
            && mst_edges@.len() <= usize::MAX / 2,
        ChristofidesPhase::MatchingComputed { mst_edges, matching_edges } => edges_in_range(
            mst_edges@,
            n,
        ) && edges_in_range(matching_edges@, n),
        _ => true,
    }
}

/// The phase after the spanning tree is recorded, whatever came before.
pub open spec fn record_tree_spec(phase: ChristofidesPhase, mst_edges: Vec<(usize, usize)>) -> ChristofidesPhase {
    ChristofidesPhase::MstComputed { mst_edges }
}

/// The phase after the matching is recorded: next to a stored tree it moves
/// on; in any other phase nothing changes.
pub open spec fn record_matching_spec(phase: ChristofidesPhase, matching_edges: Vec<(usize, usize)>) -> ChristofidesPhase {
    match phase {
        ChristofidesPhase::MstComputed { mst_edges } => ChristofidesPhase::MatchingComputed {
            mst_edges,
            matching_edges,
        },
        _ => phase,
    }
}

/// One step of Christofides' strategy over `n` nodes, from `phase` and tour
/// `path` to `new_phase` and `new_path`, answering `plan`.  Fewer than three
/// nodes: the tour becomes `0..n` and the run ends.  Otherwise, by phase:
/// ask for the spanning tree; hand out the tree's odd-degree nodes; build
/// [`christofides_tour`] from tree plus matching (a tour whenever they
/// connect the nodes) and ask for polishing; or end.
pub open spec fn christofides_plan(
    phase: ChristofidesPhase,
    n: nat,
    path: Seq<usize>,
    plan: ChristofidesPlan,
    new_phase: ChristofidesPhase,
    new_path: Seq<usize>,
) -> bool {
    if n < 3 {
        plan is Finished && new_path == identity_spec(n) && new_phase == phase
    } else {
        match phase {
            ChristofidesPhase::NotStarted => plan is BuildTree && new_path == path && new_phase == phase,
            ChristofidesPhase::MstComputed { mst_edges } => new_path == path && new_phase == phase && (
            plan matches ChristofidesPlan::Match(odd) && odd@ == odd_degree_spec(n, mst_edges@)),
            ChristofidesPhase::MatchingComputed { mst_edges, matching_edges } => {
                let e = mst_edges@ + matching_edges@;
                &&& plan is Polish
                &&& new_phase is Finished
                &&& new_path == christofides_tour(n, mst_edges@, matching_edges@)
                &&& new_path.len() > 0 && new_path[0] == 0
                &&& new_path.no_duplicates()
                &&& in_range(new_path, n)
                &&& is_component_of_start(e, new_path.to_set())
                &&& connects_all(e, n) ==> is_tour(new_path, n)
            },
            ChristofidesPhase::Finished => plan is Finished && new_path == path && new_phase == phase,
        }
    }
}

/// A whole run of Christofides' strategy from a fresh start over `n` nodes,
/// with the tree and the matching recorded after the steps that ask for
/// them.  With fewer than three nodes every step makes the tour `0..n` and
/// ends the run.  Otherwise the first step asks for the tree and the second
/// hands out the tree's odd-degree nodes, both leaving the tour alone.  The
/// third builds [`christofides_tour`] (starting at node 0, without repeats,
/// a tour of all `n` nodes whenever tree plus matching connect them) and
/// asks for polishing.  Every later step ends the run and leaves the tour
/// alone.
pub proof fn lemma_christofides_run(
    n: nat,
    mst: Vec<(usize, usize)>,
    matching: Vec<(usize, usize)>,
    path0: Seq<usize>,
    plan1: ChristofidesPlan,
    phase1: ChristofidesPhase,
    path1: Seq<usize>,
    plan2: ChristofidesPlan,
    phase2: ChristofidesPhase,
    path2: Seq<usize>,
    plan3: ChristofidesPlan,
    phase3: ChristofidesPhase,
    path3: Seq<usize>,
    plan4: ChristofidesPlan,
    phase4: ChristofidesPhase,
    path4: Seq<usize>,
)
    requires
        christofides_plan(ChristofidesPhase::NotStarted, n, path0, plan1, phase1, path1),
        christofides_plan(record_tree_spec(phase1, mst), n, path1, plan2, phase2, path2),
        christofides_plan(record_matching_spec(phase2, matching), n, path2, plan3, phase3, path3),
        christofides_plan(phase3, n, path3, plan4, phase4, path4),
    ensures
        n < 3 ==> {
            &&& plan1 is Finished && plan2 is Finished && plan3 is Finished && plan4 is Finished
            &&& path1 == identity_spec(n) && path2 == identity_spec(n)
            &&& path3 == identity_spec(n) && path4 == identity_spec(n)
        },
        n >= 3 ==> {
            &&& plan1 is BuildTree && path1 == path0
            &&& (plan2 matches ChristofidesPlan::Match(odd) && odd@ == odd_degree_spec(n, mst@))
            &&& path2 == path1
            &&& plan3 is Polish
            &&& path3 == christofides_tour(n, mst@, matching@)
            &&& path3.len() > 0 && path3[0] == 0 && path3.no_duplicates() && in_range(path3, n)
            &&& connects_all(mst@ + matching@, n) ==> is_tour(path3, n)
            &&& plan4 is Finished && path4 == path3 && phase4 is Finished
        },
{
}

impl ChristofidesStrategy {
    pub fn new() -> (s: Self)
        ensures
            s.phase is NotStarted,
    {
        ChristofidesStrategy { phase: ChristofidesPhase::NotStarted }
    }

    /// Back to the first phase.
    pub fn reset(&mut self)
        ensures
            final(self).phase is NotStarted,
    {
        self.phase = ChristofidesPhase::NotStarted;
    }

    /// Records the spanning tree computed by the caller; the next step
    /// matches its odd-degree nodes.
    pub fn record_tree(&mut self, mst_edges: Vec<(usize, usize)>)
        ensures
            final(self).phase == record_tree_spec(old(self).phase, mst_edges),
    {
        self.phase = ChristofidesPhase::MstComputed { mst_edges };
    }

    /// Records the matching computed by the caller next to the stored tree;
    /// in any other phase nothing changes.
    pub fn record_matching(&mut self, matching_edges: Vec<(usize, usize)>)
        ensures
            final(self).phase == record_matching_spec(old(self).phase, matching_edges),
    {
        let mut phase = ChristofidesPhase::NotStarted;
        std::mem::swap(&mut phase, &mut self.phase);
        match phase {
            ChristofidesPhase::MstComputed { mst_edges } => {
                self.phase = ChristofidesPhase::MatchingComputed { mst_edges, matching_edges };
            },
            other => {
                self.phase = other;
            },
        }
    }

    /// One step over a problem of `n` nodes.  Fewer than three nodes: the
    /// tour becomes `0..n` and the run ends.  Otherwise, by phase: ask for
    /// the spanning tree; hand out the tree's odd-degree nodes for matching;
    /// build the tour from tree plus matching (see
    /// [`Self::build_hamiltonian_cycle`]) and ask for polishing; or end.
    pub fn plan_step(&mut self, path: &mut Vec<usize>, n: usize) -> (plan: ChristofidesPlan)
        requires
            phase_fits(old(self).phase, n as nat),
        ensures
            christofides_plan(old(self).phase, n as nat, old(path)@, plan, final(self).phase, final(path)@),
    {
        if n < 3 {
            path.clear();
            extend_with_range(path, n);
            assert(path@ =~= identity_spec(n as nat));
            return ChristofidesPlan::Finished;
        }
        let mut phase = ChristofidesPhase::NotStarted;
        std::mem::swap(&mut phase, &mut self.phase);
        match phase {
            ChristofidesPhase::NotStarted => {
                self.phase = ChristofidesPhase::NotStarted;
                ChristofidesPlan::BuildTree
            },
            ChristofidesPhase::MstComputed { mst_edges } => {
                let odd = Self::find_odd_degree_nodes(n, mst_edges.as_slice());
                self.phase = ChristofidesPhase::MstComputed { mst_edges };
                ChristofidesPlan::Match(odd)
            },
            ChristofidesPhase::MatchingComputed { mst_edges, matching_edges } => {
                let cycle = Self::build_hamiltonian_cycle(
                    n,
                    mst_edges.as_slice(),
                    matching_edges.as_slice(),
                );
                *path = cycle;
                self.phase = ChristofidesPhase::Finished;
                ChristofidesPlan::Polish
            },
            ChristofidesPhase::Finished => {
                self.phase = ChristofidesPhase::Finished;
                ChristofidesPlan::Finished
            },
        }
    }

    /// Builds the multigraph of tree plus matching over `n` nodes, walks
    /// Hierholzer's circuit from node 0 and shortcuts repeated visits: the
    /// result is exactly [`christofides_tour`].  It starts at node 0, visits
    /// each node of node 0's component exactly once, and is a tour of all
    /// `n` nodes whenever the edges connect them.
    pub fn build_hamiltonian_cycle(
        n: usize,
        mst: &[(usize, usize)],
        matching: &[(usize, usize)],
    ) -> (path: Vec<usize>)
        requires
            n > 0,
            edges_in_range(mst@, n as nat),
            edges_in_range(matching@, n as nat),
        ensures
            path@.len() > 0,
            path@[0] == 0,
            path@.no_duplicates(),
            in_range(path@, n as nat),
            is_component_of_start(mst@ + matching@, path@.to_set()),
            connects_all(mst@ + matching@, n as nat) ==> is_tour(path@, n as nat),
            path@ == christofides_tour(n as nat, mst@, matching@),
    {
        let ghost edges = mst@ + matching@;
        let mut adj: Vec<Vec<usize>> = Vec::new();
        let mut k: usize = 0;
        while k < n
            invariant
                k <= n,
                adj@.len() == k,
                forall|x: int| 0 <= x < k ==> (#[trigger] adj@[x])@.len() == 0,
            decreases n - k,
        {
            adj.push(Vec::new());
            k = k + 1;
        }
        let ghost empty_rows = adj@;
        assert(rows_view(empty_rows) =~= Seq::new(n as nat, |i: int| Seq::<usize>::empty()));
        add_edges(&mut adj, mst);
        let ghost after_mst = adj@;
        add_edges(&mut adj, matching);
        let ghost rows = adj@;
        proof {
            assert forall|x: usize, w: usize| x < n implies (#[trigger] rows[x as int]@.contains(w)
                <==> adjacent(edges, x, w)) by {
                lemma_adjacent_concat(mst@, matching@, x, w);
                assert(!empty_rows[x as int]@.contains(w));
                assert(after_mst[x as int]@.contains(w) <==> adjacent(mst@, x, w));
            }
            assert forall|x: usize, w: usize| x >= n implies !adjacent(edges, x, w) by {
                if adjacent(edges, x, w) {
                    let j = choose|j: int|
                        0 <= j < edges.len() && ((#[trigger] edges[j]).0 == x && edges[j].1 == w
                            || edges[j].1 == x && edges[j].0 == w);
                    if j < mst@.len() {
                        assert(edges[j] == mst@[j]);
                    } else {
                        assert(edges[j] == matching@[j - mst@.len()]);
                    }
                }
            }
        }
        assert(rows_view(rows) == multigraph(n as nat, mst@, matching@));
        let circuit = euler_walk(adj);
        let ordered = reversed(&circuit);
        proof {
            assert forall|i: int| 0 <= i < ordered@.len() implies #[trigger] ordered@[i] < n by {
                assert(ordered@[i] == circuit@[circuit@.len() - 1 - i]);
            }
        }
        let path = shortcut(n, &ordered);
        proof {
            lemma_first_occurrences(ordered@);
            let ps = path@.to_set();
            let cs = circuit@.to_set();
            assert(ordered@[0] == circuit@[circuit@.len() - 1]);
            assert forall|w: usize| ps.contains(w) <==> cs.contains(w) by {
                if ordered@.contains(w) {
                    let j = choose|j: int| 0 <= j < ordered@.len() && ordered@[j] == w;
                    assert(circuit@[circuit@.len() - 1 - j] == w);
                }
                if circuit@.contains(w) {
                    let j = choose|j: int| 0 <= j < circuit@.len() && circuit@[j] == w;
                    assert(ordered@[circuit@.len() - 1 - j] == w);
                }
            }
            assert(ps =~= cs);
            // the first kept node is the first node of the reversed circuit: node 0
            assert(path@.len() > 0) by {
                assert(ordered@.contains(0usize));
            }
            assert(path@[0] == 0) by {
                lemma_first_element(ordered@);
            }
            assert forall|i: int| 0 <= i < path@.len() implies #[trigger] path@[i] < n by {
                assert(path@.contains(path@[i]));
                assert(first_occurrences(ordered@).contains(path@[i]));
                assert(ordered@.contains(path@[i]));
                let j = choose|j: int| 0 <= j < ordered@.len() && ordered@[j] == path@[i];
            }
            assert(closed_under(edges, ps)) by {
                assert forall|x: usize, w: usize|
                    #![trigger ps.contains(x), adjacent(edges, x, w)]
                    ps.contains(x) && adjacent(edges, x, w) implies ps.contains(w) by {
                    assert(rows[x as int]@.contains(w));
                }
            }
            assert forall|t: Set<usize>| #[trigger]
                closed_under(edges, t) && t.contains(0) implies ps.subset_of(t) by {
                assert(rows_closed(rows, t)) by {
                    assert forall|x: usize, w: usize|
                        #![trigger t.contains(x), rows[x as int]@.contains(w)]
                        t.contains(x) && x < rows.len() && rows[x as int]@.contains(w) implies t.contains(w) by {
                        assert(adjacent(edges, x, w));
                    }
                }
            }
            if connects_all(edges, n as nat) {
                assert forall|v: usize| v < n implies #[trigger] path@.contains(v) by {
                    assert(closed_under(edges, ps) && ps.contains(0));
                    assert(ps.contains(v));
                }
                lemma_cover_is_tour(path@, n as nat);
            }
        }
        path
    }

    /// The nodes of odd degree in the spanning tree `mst_edges` over `n`
    /// nodes, in increasing order; by the handshake lemma there is an even
    /// number of them.
    pub fn find_odd_degree_nodes(n: usize, mst_edges: &[(usize, usize)]) -> (odd: Vec<usize>)
        requires
            edges_in_range(mst_edges@, n as nat),
            mst_edges@.len() <= usize::MAX / 2,
        ensures
            odd@ == odd_degree_spec(n as nat, mst_edges@),
            odd@.len() % 2 == 0,
    {
        let degrees = degrees_of(n, mst_edges);
        let mut odd: Vec<usize> = Vec::new();
        let mut i: usize = 0;
        while i < n
            invariant
                i <= n,
                degrees@.len() == n,
                forall|w: int| 0 <= w < n ==> degrees@[w] == degree(mst_edges@, w as usize),
                odd@ == odd_degree_spec(i as nat, mst_edges@),
            decreases n - i,
        {
            if degrees[i] % 2 != 0 {
                odd.push(i);
            }
            i = i + 1;
        }
        proof {
            lemma_odd_degree_count_even(n as nat, mst_edges@);
        }
        odd
    }
}

} // verus!
