//! Triangle insertion V8.7: onion peeling.  The nodes are split into the
//! layers of nested convex hulls (computed by the caller); the outer layer
//! seeds the tour, and each further step places a whole layer, innermost
//! last, before any node left over is placed one at a time.  The pool of
//! nodes not yet on the tour is kept as in V8.
use vstd::prelude::*;
use crate::strategies::triangle_insertion_v8::remove_all_spec;
use crate::tour::{
    extend_with_range, identity_spec, insert_node, push_range, swap_remove_first,
    swap_remove_first_spec,
};

verus! {

broadcast use vstd::seq_lib::group_seq_properties;

/// State of triangle insertion V8.7.
pub struct TriangleInsertionV87 {
    /// Whether the outer layer has been laid down.
    pub initialized: bool,
    /// The nodes not yet on the tour.
    pub unvisited: Vec<usize>,
    /// The onion layers, outermost first.
    pub layers: Vec<Vec<usize>>,
    /// The next layer to place.
    pub current_layer: usize,
}

/// What one step of V8.7 asks of its caller.
#[derive(Debug)]
pub enum LayerPlan {
    /// The run is over.
    Finished,
    /// The step has already advanced the tour.
    Advanced,
    /// The onion layers of the problem are to be computed and loaded.
    NeedLayers,
    /// Every node is on the tour: polish it, then the run is over.
    Polish,
    /// Place each of these nodes, in order, at its best position.
    PlaceLayer(Vec<usize>),
    /// Place this node at its best position.
    PlaceOne(usize),
}

/// The layers seen as sequences.
pub open spec fn layers_view(layers: Seq<Vec<usize>>) -> Seq<Seq<usize>> {
    Seq::new(layers.len(), |i: int| layers[i]@)
}

/// One step of V8.7 over `n` nodes: layers are asked for while tour, pool
/// and layers are all empty; polish once the pool is empty; an empty tour
/// of fewer than three nodes becomes `0..n` and the run ends, a larger one
/// is seeded with the outer layer (its nodes leave the pool); an unseeded
/// strategy ends the run; then the next layer is handed out whole, and once
/// the layers are used up the first node of the pool.
pub open spec fn v87_plan(
    old_s: TriangleInsertionV87,
    path: Seq<usize>,
    n: nat,
    plan: LayerPlan,
    new_s: TriangleInsertionV87,
    new_path: Seq<usize>,
) -> bool {
    let pool = old_s.unvisited@;
    let layers = layers_view(old_s.layers@);
    &&& new_s.layers@ == old_s.layers@
    &&& if path.len() == 0 && pool.len() == 0 && layers.len() == 0 {
        plan is NeedLayers && new_path == path && new_s == old_s
    } else if pool.len() == 0 {
        plan is Polish && new_path == path && new_s == old_s
    } else if path.len() == 0 {
        if n < 3 {
            &&& plan is Finished
            &&& new_path == identity_spec(n)
            &&& new_s.unvisited@.len() == 0
            &&& new_s.initialized == old_s.initialized
            &&& new_s.current_layer == old_s.current_layer
        } else {
            let first = if layers.len() > 0 { layers[0] } else { Seq::empty() };
            &&& plan is Advanced
            &&& new_path == first
            &&& new_s.unvisited@ == remove_all_spec(pool, first)
            &&& new_s.current_layer == 1
            &&& new_s.initialized
        }
    } else if !old_s.initialized {
        plan is Finished && new_path == path && new_s == old_s
    } else if old_s.current_layer < layers.len() {
        &&& (plan matches LayerPlan::PlaceLayer(l) && l@ == layers[old_s.current_layer as int])
        &&& new_path == path
        &&& new_s.unvisited@ == pool
        &&& new_s.current_layer == old_s.current_layer + 1
        &&& new_s.initialized == old_s.initialized
    } else {
        plan == LayerPlan::PlaceOne(pool[0]) && new_path == path && new_s == old_s
    }
}

impl TriangleInsertionV87 {
    pub fn new() -> (s: Self)
        ensures
            !s.initialized,
            s.unvisited@.len() == 0,
            s.layers@.len() == 0,
            s.current_layer == 0,
    {
        TriangleInsertionV87 { initialized: false, unvisited: Vec::new(), layers: Vec::new(), current_layer: 0 }
    }

    /// Forgets the layers, the pool and the seeding, as a fresh strategy.
    pub fn reset(&mut self)
        ensures
            !final(self).initialized,
            final(self).unvisited@.len() == 0,
            final(self).layers@.len() == 0,
            final(self).current_layer == 0,
    {
        self.initialized = false;
        self.unvisited.clear();
        self.layers = Vec::new();
        self.current_layer = 0;
    }

    /// Loads the onion layers computed by the caller for a problem of `n`
    /// nodes; every node starts in the pool and the first layer is next.
    pub fn load_layers(&mut self, layers: Vec<Vec<usize>>, n: usize)
        ensures
            final(self).layers@ == layers@,
            final(self).unvisited@ == identity_spec(n as nat),
            final(self).current_layer == 0,
            final(self).initialized == old(self).initialized,
    {
        let mut all: Vec<usize> = Vec::new();
        extend_with_range(&mut all, n);
        assert(all@ =~= identity_spec(n as nat));
        self.layers = layers;
        self.unvisited = all;
        self.current_layer = 0;
    }

    /// One step over a problem of `n` nodes (see [`v87_plan`]).
    pub fn plan_step(&mut self, path: &mut Vec<usize>, n: usize) -> (plan: LayerPlan)
        ensures
            v87_plan(*old(self), old(path)@, n as nat, plan, *final(self), final(path)@),
    {
        if path.len() == 0 && self.unvisited.len() == 0 && self.layers.len() == 0 {
            assert(layers_view(self.layers@).len() == 0);
            return LayerPlan::NeedLayers;
        }
        if self.unvisited.len() == 0 {
            return LayerPlan::Polish;
        }
        if path.len() == 0 {
            if n < 3 {
                extend_with_range(path, n);
                assert(path@ =~= identity_spec(n as nat));
                self.unvisited.clear();
                return LayerPlan::Finished;
            }
            let mut first: Vec<usize> = Vec::new();
            if self.layers.len() > 0 {
                push_range(&mut first, &self.layers[0], 0, self.layers[0].len());
                assert(first@ =~= self.layers@[0]@);
            }
            assert(first@ == (if layers_view(self.layers@).len() > 0 {
                layers_view(self.layers@)[0]
            } else {
                Seq::empty()
            }));
            let ghost start = self.unvisited@;
            let mut k: usize = 0;
            while k < first.len()
                invariant
                    k <= first@.len(),
                    self.unvisited@ == remove_all_spec(start, first@.take(k as int)),
                    self.layers@ == old(self).layers@,
                decreases first@.len() - k,
            {
                swap_remove_first(&mut self.unvisited, first[k]);
                assert(first@.take(k + 1).drop_last() =~= first@.take(k as int));
                k = k + 1;
            }
            assert(first@.take(k as int) =~= first@);
            push_range(path, &first, 0, first.len());
            assert(first@.subrange(0, first@.len() as int) =~= first@);
            self.current_layer = 1;
            self.initialized = true;
            return LayerPlan::Advanced;
        }
        if !self.initialized {
            return LayerPlan::Finished;
        }
        if self.current_layer < self.layers.len() {
            let mut layer: Vec<usize> = Vec::new();
            let c = self.current_layer;
            push_range(&mut layer, &self.layers[c], 0, self.layers[c].len());
            assert(layer@ =~= self.layers@[c as int]@);
            self.current_layer = c + 1;
            return LayerPlan::PlaceLayer(layer);
        }
        LayerPlan::PlaceOne(self.unvisited[0])
    }

    /// Places `node`, chosen by the caller, at position `pos` of the tour and
    /// takes it out of the pool.
    pub fn commit(&mut self, path: &mut Vec<usize>, node: usize, pos: usize)
        requires
            pos <= old(path)@.len(),
        ensures
            final(path)@ == old(path)@.insert(pos as int, node),
            final(self).unvisited@ == swap_remove_first_spec(old(self).unvisited@, node),
            final(self).layers@ == old(self).layers@,
            final(self).current_layer == old(self).current_layer,
            final(self).initialized == old(self).initialized,
    {
        swap_remove_first(&mut self.unvisited, node);
        insert_node(path, pos, node);
    }
}

/// The layers are placed one after another: a step that hands out a layer
/// hands out the layer the counter names and moves the counter on by
/// exactly one, and seeding lays down the outer layer and makes layer 1 the
/// next; so layers `1, 2, ...` are handed out in turn, none skipped.
pub proof fn lemma_layers_in_turn(
    old_s: TriangleInsertionV87,
    path: Seq<usize>,
    n: nat,
    plan: LayerPlan,
    new_s: TriangleInsertionV87,
    new_path: Seq<usize>,
)
    requires
        v87_plan(old_s, path, n, plan, new_s, new_path),
    ensures
        plan matches LayerPlan::PlaceLayer(l) ==> {
            &&& old_s.current_layer < old_s.layers@.len()
            &&& l@ == old_s.layers@[old_s.current_layer as int]@
            &&& new_s.current_layer == old_s.current_layer + 1
            &&& new_s.layers@ == old_s.layers@
        },
        plan is Advanced ==> new_s.current_layer == 1 && new_s.layers@ == old_s.layers@ && (
        old_s.layers@.len() > 0 ==> new_path == old_s.layers@[0]@),
        plan is PlaceOne ==> old_s.current_layer >= old_s.layers@.len() && new_s == old_s,
{
}

} // verus!
