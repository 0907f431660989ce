//! Triangle insertion V8: the whole convex hull seeds the tour and the
//! remaining nodes are inserted from the outside in, tracked in a pool of
//! unvisited nodes.
use vstd::prelude::*;
use crate::strategies::StepPlan;
use crate::tour::{
    extend_with_range, identity_spec, insert_node, is_tour, lemma_swap_remove_first, push_range,
    swap_remove_first, swap_remove_first_spec, in_range,
};

verus! {

broadcast use vstd::seq_lib::group_seq_properties;

/// State of triangle insertion V8.
pub struct TriangleInsertionV8 {
    /// Whether the hull has been laid down.
    pub initialized: bool,
    /// The nodes not yet on the tour.
    pub unvisited: Vec<usize>,
    /// How many nearby candidates each insertion considers.
    pub k_neighbors: usize,
}

/// The pool after swap-removing each entry of `items` in turn.
pub open spec fn remove_all_spec(pool: Seq<usize>, items: Seq<usize>) -> Seq<usize>
    decreases items.len(),
{
    if items.len() == 0 {
        pool
    } else {
        swap_remove_first_spec(remove_all_spec(pool, items.drop_last()), items.last())
    }
}

/// The tour and the pool of unvisited nodes together hold each of the nodes
/// `0..n` exactly once.
pub open spec fn partitions_nodes(path: Seq<usize>, pool: Seq<usize>, n: nat) -> bool {
    (path + pool).to_multiset() == identity_spec(n).to_multiset()
}

/// One step of V8 over `n` nodes, with `pool0` the pool it works on (the
/// whole of `0..n` when both tour and pool start empty): polish once the pool
/// is empty; an empty tour of fewer than three nodes becomes `0..n` and the
/// run ends, a larger one asks for the hull; an unseeded strategy ends the
/// run; otherwise the pool is handed out for insertion.
pub open spec fn v8_plan(
    old_s: TriangleInsertionV8,
    path: Seq<usize>,
    n: nat,
    plan: StepPlan,
    new_s: TriangleInsertionV8,
    new_path: Seq<usize>,
) -> bool {
    let pool0 = if path.len() == 0 && old_s.unvisited@.len() == 0 {
        identity_spec(n)
    } else {
        old_s.unvisited@
    };
    &&& new_s.initialized == old_s.initialized
    &&& new_s.k_neighbors == old_s.k_neighbors
    &&& if pool0.len() == 0 {
        plan is Polish && new_path == path && new_s.unvisited@ == pool0
    } else if path.len() == 0 {
        if n < 3 {
            plan is Finished && new_path == identity_spec(n) && new_s.unvisited@.len() == 0
        } else {
            plan is Seed && new_path == path && new_s.unvisited@ == pool0
        }
    } else if !old_s.initialized {
        plan is Finished && new_path == path && new_s.unvisited@ == pool0
    } else {
        new_path == path && new_s.unvisited@ == pool0 && (plan matches StepPlan::Grow(u) && u@
            == pool0)
    }
}

impl TriangleInsertionV8 {
    pub fn new() -> (s: Self)
        ensures
            !s.initialized,
            s.unvisited@.len() == 0,
            s.k_neighbors == 8,
    {
        TriangleInsertionV8 { initialized: false, unvisited: Vec::new(), k_neighbors: 8 }
    }

    /// Forgets the hull and the pool, as a fresh strategy.
    pub fn reset(&mut self)
        ensures
            !final(self).initialized,
            final(self).unvisited@.len() == 0,
            final(self).k_neighbors == old(self).k_neighbors,
    {
        self.initialized = false;
        self.unvisited.clear();
    }

    /// One step over a problem of `n` nodes (see [`v8_plan`]).
    pub fn plan_step(&mut self, path: &mut Vec<usize>, n: usize) -> (plan: StepPlan)
        ensures
            v8_plan(*old(self), old(path)@, n as nat, plan, *final(self), final(path)@),
    {
        if path.len() == 0 && self.unvisited.len() == 0 {
            let mut all: Vec<usize> = Vec::new();
            extend_with_range(&mut all, n);
            assert(all@ =~= identity_spec(n as nat));
            self.unvisited = all;
        }
        if self.unvisited.len() == 0 {
            return StepPlan::Polish;
        }
        if path.len() == 0 {
            if n < 3 {
                extend_with_range(path, n);
                assert(path@ =~= identity_spec(n as nat));
                self.unvisited.clear();
                return StepPlan::Finished;
            }
            return StepPlan::Seed;
        }
        if !self.initialized {
            return StepPlan::Finished;
        }
        let mut pool: Vec<usize> = Vec::new();
        push_range(&mut pool, &self.unvisited, 0, self.unvisited.len());
        assert(pool@ =~= self.unvisited@);
        StepPlan::Grow(pool)
    }

    /// Lays down the hull chosen by the caller, taking its nodes out of the
    /// pool.
    pub fn begin(&mut self, path: &mut Vec<usize>, hull: &Vec<usize>)
        ensures
            final(path)@ == old(path)@ + hull@,
            final(self).unvisited@ == remove_all_spec(old(self).unvisited@, hull@),
            final(self).initialized,
            final(self).k_neighbors == old(self).k_neighbors,
    {
        let ghost start = self.unvisited@;
        let mut k: usize = 0;
        while k < hull.len()
            invariant
                k <= hull@.len(),
                self.unvisited@ == remove_all_spec(start, hull@.take(k as int)),
                self.k_neighbors == old(self).k_neighbors,
            decreases hull@.len() - k,
        {
            swap_remove_first(&mut self.unvisited, hull[k]);
            assert(hull@.take(k + 1).drop_last() =~= hull@.take(k as int));
            k = k + 1;
        }
        assert(hull@.take(k as int) =~= hull@);
        push_range(path, hull, 0, hull.len());
        assert(hull@.subrange(0, hull@.len() as int) =~= hull@);
        self.initialized = true;
    }

    /// Places `node`, chosen by the caller, at position `pos` of the tour and
    /// takes it out of the pool.
    pub fn commit(&mut self, path: &mut Vec<usize>, node: usize, pos: usize)
        requires
            pos <= old(path)@.len(),
        ensures
            final(path)@ == old(path)@.insert(pos as int, node),
            final(self).unvisited@ == swap_remove_first_spec(old(self).unvisited@, node),
            final(self).initialized == old(self).initialized,
            final(self).k_neighbors == old(self).k_neighbors,
    {
        swap_remove_first(&mut self.unvisited, node);
        insert_node(path, pos, node);
    }
}

/// Laying a repeat-free hull of nodes below `n` onto an empty tour, with the
/// pool holding every node, leaves each node either on the tour or in the
/// pool, exactly once.
pub proof fn lemma_begin_partitions(hull: Seq<usize>, n: nat)
    requires
        hull.no_duplicates(),
        in_range(hull, n),
    ensures
        partitions_nodes(hull, remove_all_spec(identity_spec(n), hull), n),
{
    broadcast use vstd::seq_lib::group_to_multiset_ensures;

    let id = identity_spec(n);
    assert forall|i: int| 0 <= i < hull.len() implies id.to_multiset().count(#[trigger] hull[i]) >= 1 by {
        assert(id[hull[i] as int] == hull[i]);
        assert(id.contains(hull[i]));
    }
    lemma_remove_all_prefix(id, hull, hull.len() as int);
    assert(hull.take(hull.len() as int) =~= hull);
}

proof fn lemma_remove_all_prefix(pool: Seq<usize>, hull: Seq<usize>, k: int)
    requires
        hull.no_duplicates(),
        0 <= k <= hull.len(),
        forall|i: int| 0 <= i < hull.len() ==> pool.to_multiset().count(#[trigger] hull[i]) >= 1,
    ensures
        (hull.take(k) + remove_all_spec(pool, hull.take(k))).to_multiset() == pool.to_multiset(),
    decreases k,
{
    broadcast use vstd::seq_lib::group_to_multiset_ensures;
    broadcast use vstd::multiset::group_multiset_axioms;
    broadcast use vstd::seq_lib::lemma_multiset_commutative;

    if k == 0 {
        assert(hull.take(0) =~= Seq::<usize>::empty());
        assert(Seq::<usize>::empty() + pool =~= pool);
    } else {
        lemma_remove_all_prefix(pool, hull, k - 1);
        let h = hull.take(k - 1);
        let x = hull[k - 1];
        assert(hull.take(k).drop_last() =~= h);
        assert(hull.take(k) =~= h.push(x));
        let r = remove_all_spec(pool, h);
        assert(!h.contains(x)) by {
            if h.contains(x) {
                let j = choose|j: int| 0 <= j < h.len() && h[j] == x;
                assert(hull[j] == x);
            }
        }
        assert(h.to_multiset().count(x) == 0);
        assert((h + r).to_multiset() == h.to_multiset().add(r.to_multiset()));
        assert(r.to_multiset().count(x) >= 1);
        assert(r.contains(x));
        lemma_swap_remove_first(r, x);
        let r2 = swap_remove_first_spec(r, x);
        assert(remove_all_spec(pool, h.push(x)) == r2) by {
            assert(h.push(x).drop_last() =~= h);
        }
        assert((h.push(x) + r2).to_multiset() =~= h.to_multiset().insert(x).add(r.to_multiset().remove(x)));
        assert((h.push(x) + r2).to_multiset() =~= pool.to_multiset());
    }
}

/// Placing a pool node into the tour keeps every node either on the tour or
/// in the pool, exactly once.
pub proof fn lemma_commit_partitions(path: Seq<usize>, pool: Seq<usize>, n: nat, node: usize, pos: int)
    requires
        partitions_nodes(path, pool, n),
        pool.contains(node),
        0 <= pos <= path.len(),
    ensures
        partitions_nodes(path.insert(pos, node), swap_remove_first_spec(pool, node), n),
{
    broadcast use vstd::seq_lib::group_to_multiset_ensures;
    broadcast use vstd::multiset::group_multiset_axioms;
    broadcast use vstd::seq_lib::lemma_multiset_commutative;

    lemma_swap_remove_first(pool, node);
    let r = swap_remove_first_spec(pool, node);
    assert((path.insert(pos, node) + r).to_multiset() =~= path.to_multiset().insert(node).add(
        pool.to_multiset().remove(node),
    ));
    assert((path + pool).to_multiset() == path.to_multiset().add(pool.to_multiset()));
    assert(pool.to_multiset().count(node) >= 1);
    assert((path.insert(pos, node) + r).to_multiset() =~= (path + pool).to_multiset());
}

/// Once the pool is empty, the tour visits each of the `n` nodes exactly once.
pub proof fn lemma_empty_pool_is_tour(path: Seq<usize>, pool: Seq<usize>, n: nat)
    requires
        partitions_nodes(path, pool, n),
        pool.len() == 0,
        n <= usize::MAX + 1,
    ensures
        is_tour(path, n),
{
    broadcast use vstd::seq_lib::group_to_multiset_ensures;
    broadcast use vstd::multiset::group_multiset_axioms;

    let id = identity_spec(n);
    assert(path + pool =~= path);
    crate::tour::lemma_identity_is_tour(n);
    id.lemma_multiset_has_no_duplicates();
    path.lemma_multiset_has_no_duplicates_conv();
    assert(path.len() == n) by {
        assert(path.to_multiset().len() == id.to_multiset().len());
    }
    assert forall|i: int| 0 <= i < path.len() implies #[trigger] path[i] < n by {
        assert(path.to_multiset().count(path[i]) > 0);
        assert(id.to_multiset().count(path[i]) > 0);
        assert(id.contains(path[i]));
        let j = choose|j: int| 0 <= j < id.len() && id[j] == path[i];
    }
}

} // verus!
