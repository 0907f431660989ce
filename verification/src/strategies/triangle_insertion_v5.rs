//! Triangle insertion V5: exact branch and bound from the hull triangle.
//! Every node of the search tree is a partial tour together with the nodes
//! still to place; a branch inserts one of them after one position of the
//! tour.  Which branches are explored, and in what order, depends on tour
//! lengths and is decided by the caller; what the tree itself guarantees is
//! stated here: every search node splits the nodes between tour and
//! remainder, and every leaf is a tour.
use vstd::prelude::*;
use crate::strategies::triangle_insertion_v8::{lemma_empty_pool_is_tour, partitions_nodes};
use crate::tour::{
    extend_with_range, identity_spec, in_range, insert_node, is_tour, lemma_identity_is_tour,
    lemma_unvisited, push_range, unvisited_nodes, unvisited_spec,
};

verus! {

/// A node of the search tree: the tour built so far and the nodes not yet
/// on it.
pub struct SearchState {
    pub path: Vec<usize>,
    pub unvisited: Vec<usize>,
}

impl SearchState {
    /// The root of the search: the seed triangle, with every other node of
    /// `0..n` still to place, in increasing order.
    pub fn root(triangle: &Vec<usize>, n: usize) -> (s: SearchState)
        ensures
            s.path@ == triangle@,
            s.unvisited@ == unvisited_spec(triangle@, n as nat),
    {
        let mut path: Vec<usize> = Vec::new();
        push_range(&mut path, triangle, 0, triangle.len());
        assert(path@ =~= triangle@);
        let unvisited = unvisited_nodes(triangle, n);
        SearchState { path, unvisited }
    }

    /// A leaf of the search: no node is left to place.
    pub fn is_leaf(&self) -> (r: bool)
        ensures
            r == (self.unvisited@.len() == 0),
    {
        self.unvisited.len() == 0
    }

    /// The child that takes the node at `u_idx` of the remainder and inserts
    /// it after position `i` of the tour.
    pub fn branch(&self, u_idx: usize, i: usize) -> (child: SearchState)
        requires
            u_idx < self.unvisited@.len(),
            i < self.path@.len(),
        ensures
            child.path@ == self.path@.insert(i + 1, self.unvisited@[u_idx as int]),
            child.unvisited@ == self.unvisited@.remove(u_idx as int),
    {
        let u = self.unvisited[u_idx];
        let mut path: Vec<usize> = Vec::new();
        push_range(&mut path, &self.path, 0, self.path.len());
        assert(path@ =~= self.path@);
        insert_node(&mut path, i + 1, u);
        let mut unvisited: Vec<usize> = Vec::new();
        push_range(&mut unvisited, &self.unvisited, 0, self.unvisited.len());
        assert(unvisited@ =~= self.unvisited@);
        unvisited.remove(u_idx);
        SearchState { path, unvisited }
    }
}

/// Search nodes explored in all before the best tour so far is accepted.
pub const MAX_TOTAL_ITERS: usize = 5_000_000;

/// The search's bookkeeping that does not depend on tour lengths: whether it
/// has started or ended, the best tour found, and how many search nodes have
/// been explored.  The bound and the stack of search nodes with their
/// lengths are kept by the caller.
pub struct TriangleInsertionV5 {
    /// Whether the root has been laid down.
    pub initialized: bool,
    /// Whether the search is over.
    pub finished: bool,
    /// The best complete tour found so far.
    pub best_path: Vec<usize>,
    /// Search nodes explored since the root.
    pub total_iters: usize,
}

/// What one step of V5 asks of its caller.
#[derive(Debug)]
pub enum SearchPlan {
    /// The search is over and the tour is the best one found.
    Finished,
    /// Lay down the root of the search (then call `begin`).
    Seed,
    /// Explore search nodes.
    Search,
}

impl TriangleInsertionV5 {
    pub fn new() -> (s: Self)
        ensures
            !s.initialized,
            !s.finished,
            s.best_path@.len() == 0,
            s.total_iters == 0,
    {
        TriangleInsertionV5 { initialized: false, finished: false, best_path: Vec::new(), total_iters: 0 }
    }

    /// Forgets the search, as a fresh strategy.
    pub fn reset(&mut self)
        ensures
            !final(self).initialized,
            !final(self).finished,
            final(self).best_path@.len() == 0,
            final(self).total_iters == 0,
    {
        self.initialized = false;
        self.finished = false;
        self.best_path.clear();
        self.total_iters = 0;
    }

    /// One step over a problem of `n` nodes: once finished, the tour becomes
    /// the best one found; before the root, fewer than three nodes make
    /// `0..n` the best tour and end the search, otherwise the root is asked
    /// for; after it, search nodes are to be explored.
    pub fn plan_step(&mut self, path: &mut Vec<usize>, n: usize) -> (plan: SearchPlan)
        ensures
            old(self).finished ==> plan is Finished && final(path)@ == old(self).best_path@
                && *final(self) == *old(self),
            !old(self).finished && !old(self).initialized && n < 3 ==> {
                &&& plan is Finished
                &&& final(self).best_path@ == identity_spec(n as nat)
                &&& final(path)@ == identity_spec(n as nat)
                &&& final(self).finished
                &&& final(self).initialized == old(self).initialized
                &&& final(self).total_iters == old(self).total_iters
            },
            !old(self).finished && !old(self).initialized && n >= 3 ==> plan is Seed && final(path)@
                == old(path)@ && *final(self) == *old(self),
            !old(self).finished && old(self).initialized ==> plan is Search && final(path)@
                == old(path)@ && *final(self) == *old(self),
    {
        if self.finished {
            self.copy_best(path);
            return SearchPlan::Finished;
        }
        if !self.initialized {
            if n < 3 {
                let mut all: Vec<usize> = Vec::new();
                extend_with_range(&mut all, n);
                assert(all@ =~= identity_spec(n as nat));
                self.best_path = all;
                self.copy_best(path);
                self.finished = true;
                return SearchPlan::Finished;
            }
            return SearchPlan::Seed;
        }
        SearchPlan::Search
    }

    /// Replaces the tour by the best one found.
    fn copy_best(&self, path: &mut Vec<usize>)
        ensures
            final(path)@ == self.best_path@,
    {
        let mut copy: Vec<usize> = Vec::new();
        push_range(&mut copy, &self.best_path, 0, self.best_path.len());
        assert(copy@ =~= self.best_path@);
        *path = copy;
    }

    /// The root has been laid down: the search starts its count.
    pub fn begin(&mut self)
        ensures
            final(self).initialized,
            final(self).total_iters == 0,
            final(self).finished == old(self).finished,
            final(self).best_path@ == old(self).best_path@,
    {
        self.initialized = true;
        self.total_iters = 0;
    }

    /// Counts one explored search node; true once more than
    /// [`MAX_TOTAL_ITERS`] have been explored.
    pub fn tick(&mut self) -> (over: bool)
        requires
            old(self).total_iters < usize::MAX,
        ensures
            final(self).total_iters == old(self).total_iters + 1,
            over == (final(self).total_iters > MAX_TOTAL_ITERS),
            final(self).initialized == old(self).initialized,
            final(self).finished == old(self).finished,
            final(self).best_path@ == old(self).best_path@,
    {
        self.total_iters = self.total_iters + 1;
        self.total_iters > MAX_TOTAL_ITERS
    }

    /// A complete tour shorter than the best so far (the caller compares
    /// lengths) becomes the best.
    pub fn record_best(&mut self, leaf: &SearchState)
        ensures
            final(self).best_path@ == leaf.path@,
            final(self).initialized == old(self).initialized,
            final(self).finished == old(self).finished,
            final(self).total_iters == old(self).total_iters,
    {
        let mut copy: Vec<usize> = Vec::new();
        push_range(&mut copy, &leaf.path, 0, leaf.path.len());
        assert(copy@ =~= leaf.path@);
        self.best_path = copy;
    }

    /// Ends the search: the tour becomes the best one found.
    pub fn finish(&mut self, path: &mut Vec<usize>)
        ensures
            final(self).finished,
            final(path)@ == old(self).best_path@,
            final(self).best_path@ == old(self).best_path@,
            final(self).initialized == old(self).initialized,
            final(self).total_iters == old(self).total_iters,
    {
        self.finished = true;
        self.copy_best(path);
    }
}

/// The root of the search splits the nodes: a repeat-free seed of nodes
/// below `n` and the remaining nodes of `0..n` hold each node exactly once.
pub proof fn lemma_root_partitions(triangle: Seq<usize>, n: nat)
    requires
        triangle.no_duplicates(),
        in_range(triangle, n),
        n <= usize::MAX + 1,
    ensures
        partitions_nodes(triangle, unvisited_spec(triangle, n), n),
{
    broadcast use vstd::seq_lib::group_to_multiset_ensures;
    broadcast use vstd::multiset::group_multiset_axioms;

    let rest = unvisited_spec(triangle, n);
    let id = identity_spec(n);
    lemma_unvisited(triangle, n);
    lemma_identity_is_tour(n);
    triangle.lemma_multiset_has_no_duplicates();
    rest.lemma_multiset_has_no_duplicates();
    id.lemma_multiset_has_no_duplicates();
    assert forall|x: usize| #[trigger] (triangle + rest).to_multiset().count(x) == id.to_multiset().count(x) by {
        assert((triangle + rest).to_multiset() == triangle.to_multiset().add(rest.to_multiset())) by {
            vstd::seq_lib::lemma_multiset_commutative(triangle, rest);
        }
        if x < n {
            assert(id[x as int] == x);
            assert(id.contains(x));
            assert(id.to_multiset().count(x) == 1);
            if triangle.contains(x) {
                assert(triangle.to_multiset().count(x) == 1);
                assert(rest.to_multiset().count(x) == 0);
            } else {
                assert(triangle.to_multiset().count(x) == 0);
                assert(rest.contains(x));
                assert(rest.to_multiset().count(x) == 1);
            }
        } else {
            assert(!triangle.contains(x)) by {
                if triangle.contains(x) {
                    let k = choose|k: int| 0 <= k < triangle.len() && triangle[k] == x;
                }
            }
            assert(!id.contains(x)) by {
                if id.contains(x) {
                    let k = choose|k: int| 0 <= k < id.len() && id[k] == x;
                }
            }
            assert(triangle.to_multiset().count(x) == 0);
            assert(rest.to_multiset().count(x) == 0);
            assert(id.to_multiset().count(x) == 0);
        }
    }
    assert((triangle + rest).to_multiset() =~= id.to_multiset());
}

/// A branch keeps the split: the node taken from the remainder is on the
/// tour, every other node stays where it was.
pub proof fn lemma_branch_partitions(path: Seq<usize>, rest: Seq<usize>, n: nat, u_idx: int, i: int)
    requires
        partitions_nodes(path, rest, n),
        0 <= u_idx < rest.len(),
        0 <= i < path.len(),
    ensures
        partitions_nodes(path.insert(i + 1, rest[u_idx]), rest.remove(u_idx), n),
{
    broadcast use vstd::seq_lib::group_to_multiset_ensures;
    broadcast use vstd::multiset::group_multiset_axioms;
    broadcast use vstd::seq_lib::lemma_multiset_commutative;

    let u = rest[u_idx];
    assert(rest.to_multiset().count(u) >= 1);
    assert((path.insert(i + 1, u) + rest.remove(u_idx)).to_multiset() =~= path.to_multiset().insert(u).add(
        rest.to_multiset().remove(u),
    ));
    assert((path + rest).to_multiset() == path.to_multiset().add(rest.to_multiset()));
    assert((path.insert(i + 1, u) + rest.remove(u_idx)).to_multiset() =~= (path + rest).to_multiset());
}

/// Every leaf reached from the root of a search over `n` nodes is a tour of
/// the `n` nodes.
pub proof fn lemma_leaf_is_tour(path: Seq<usize>, rest: Seq<usize>, n: nat)
    requires
        partitions_nodes(path, rest, n),
        rest.len() == 0,
        n <= usize::MAX + 1,
    ensures
        is_tour(path, n),
{
    lemma_empty_pool_is_tour(path, rest, n);
}

} // verus!
