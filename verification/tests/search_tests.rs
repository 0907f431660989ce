use traveler::strategies::triangle_insertion_v5::{SearchPlan, SearchState, TriangleInsertionV5, MAX_TOTAL_ITERS};
use traveler::strategies::triangle_insertion_v7::TriangleInsertionV7;
use traveler::strategies::triangle_insertion_v8_7::{LayerPlan, TriangleInsertionV87};
use traveler::strategies::StepPlan;

#[test]
fn branch_and_bound_root_holds_the_rest_in_order() {
    let root = SearchState::root(&vec![4, 0, 2], 6);
    assert_eq!(root.path, vec![4, 0, 2]);
    assert_eq!(root.unvisited, vec![1, 3, 5]);
    assert!(!root.is_leaf());
}

#[test]
fn branch_and_bound_branch_moves_one_node() {
    let root = SearchState::root(&vec![0, 1, 2], 5);
    let child = root.branch(1, 2);
    assert_eq!(child.path, vec![0, 1, 2, 4]);
    assert_eq!(child.unvisited, vec![3]);
    let leaf = child.branch(0, 0);
    assert_eq!(leaf.path, vec![0, 3, 1, 2, 4]);
    assert!(leaf.is_leaf());
    let mut sorted = leaf.path.clone();
    sorted.sort();
    assert_eq!(sorted, vec![0, 1, 2, 3, 4]);
    // The parent is left as it was.
    assert_eq!(root.unvisited, vec![3, 4]);
}

#[test]
fn annealed_insertion_counts_growth_steps() {
    let mut v7 = TriangleInsertionV7::new();
    assert_eq!((v7.iteration, v7.total_iterations, v7.k_neighbors), (0, 1000, 15));
    let mut path: Vec<usize> = vec![];
    assert!(matches!(v7.plan_step(&mut path, 8), StepPlan::Seed));
    assert_eq!(v7.iteration, 0);
    v7.begin(&mut path, &vec![0, 3, 6]);
    assert!(v7.initialized);
    for k in 1..=5 {
        match v7.plan_step(&mut path, 8) {
            StepPlan::Grow(u) => path.push(u[0]),
            other => panic!("expected a growth step, got {:?}", other),
        }
        assert_eq!(v7.iteration, k);
    }
    assert!(v7.ejection_due(8));
    assert!(!v7.ejection_due(6));
    v7.reset();
    assert_eq!(v7.iteration, 0);
    assert!(!v7.initialized);
}

#[test]
fn annealed_insertion_finishes_small_problems() {
    let mut v7 = TriangleInsertionV7::new();
    let mut path: Vec<usize> = vec![];
    assert!(matches!(v7.plan_step(&mut path, 2), StepPlan::Finished));
    assert_eq!(path, vec![0, 1]);
    assert_eq!(v7.iteration, 0);
}

#[test]
fn onion_peeling_places_layers_in_turn() {
    let mut v87 = TriangleInsertionV87::new();
    let mut path: Vec<usize> = vec![];
    assert!(matches!(v87.plan_step(&mut path, 7), LayerPlan::NeedLayers));
    v87.load_layers(vec![vec![0, 2, 4, 6], vec![1, 5]], 7);
    assert_eq!(v87.unvisited, vec![0, 1, 2, 3, 4, 5, 6]);
    assert!(matches!(v87.plan_step(&mut path, 7), LayerPlan::Advanced));
    assert_eq!(path, vec![0, 2, 4, 6]);
    let mut pool = v87.unvisited.clone();
    pool.sort();
    assert_eq!(pool, vec![1, 3, 5]);
    assert_eq!(v87.current_layer, 1);
    match v87.plan_step(&mut path, 7) {
        LayerPlan::PlaceLayer(layer) => {
            assert_eq!(layer, vec![1, 5]);
            v87.commit(&mut path, 1, 1);
            v87.commit(&mut path, 5, 4);
        }
        other => panic!("expected a layer, got {:?}", other),
    }
    assert_eq!(path, vec![0, 1, 2, 4, 5, 6]);
    assert_eq!(v87.unvisited, vec![3]);
    assert!(matches!(v87.plan_step(&mut path, 7), LayerPlan::PlaceOne(3)));
    v87.commit(&mut path, 3, 3);
    assert!(matches!(v87.plan_step(&mut path, 7), LayerPlan::Polish));
    v87.reset();
    assert!(v87.layers.is_empty() && v87.unvisited.is_empty() && v87.current_layer == 0);
}

#[test]
fn onion_peeling_small_problem_is_identity() {
    let mut v87 = TriangleInsertionV87::new();
    let mut path: Vec<usize> = vec![];
    v87.load_layers(vec![vec![0, 1]], 2);
    assert!(matches!(v87.plan_step(&mut path, 2), LayerPlan::Finished));
    assert_eq!(path, vec![0, 1]);
    assert!(v87.unvisited.is_empty());
}

#[test]
fn branch_and_bound_bookkeeping() {
    let mut v5 = TriangleInsertionV5::new();
    let mut path: Vec<usize> = vec![];
    assert!(matches!(v5.plan_step(&mut path, 5), SearchPlan::Seed));
    v5.begin();
    assert!(matches!(v5.plan_step(&mut path, 5), SearchPlan::Search));
    assert!(!v5.tick());
    assert_eq!(v5.total_iters, 1);
    let leaf = SearchState::root(&vec![0, 2, 1, 4, 3], 5);
    v5.record_best(&leaf);
    v5.finish(&mut path);
    assert_eq!(path, vec![0, 2, 1, 4, 3]);
    let mut other = vec![7];
    assert!(matches!(v5.plan_step(&mut other, 5), SearchPlan::Finished));
    assert_eq!(other, vec![0, 2, 1, 4, 3]);
    v5.total_iters = MAX_TOTAL_ITERS;
    assert!(v5.tick());
    v5.reset();
    let mut small: Vec<usize> = vec![];
    assert!(matches!(v5.plan_step(&mut small, 2), SearchPlan::Finished));
    assert_eq!(small, vec![0, 1]);
    assert!(v5.finished);
}
