use traveler::strategies::christofides::{ChristofidesPhase, ChristofidesPlan, ChristofidesStrategy, PrimTree};
use traveler::strategies::v9_ils::perturbation::{double_bridge, double_bridge_at};

#[test]
fn odd_degree_nodes_of_a_path() {
    // 0 - 1 - 2 - 3: the two ends have degree one.
    let edges = vec![(0, 1), (1, 2), (2, 3)];
    assert_eq!(ChristofidesStrategy::find_odd_degree_nodes(4, &edges), vec![0, 3]);
}

#[test]
fn odd_degree_nodes_of_a_star_are_even_in_number() {
    let edges = vec![(0, 1), (0, 2), (0, 3), (0, 4), (4, 5)];
    let odd = ChristofidesStrategy::find_odd_degree_nodes(6, &edges);
    assert_eq!(odd, vec![1, 2, 3, 5]);
    assert_eq!(odd.len() % 2, 0);
}

#[test]
fn odd_degree_nodes_count_loops_twice() {
    let edges = vec![(1, 1), (0, 2)];
    assert_eq!(ChristofidesStrategy::find_odd_degree_nodes(3, &edges), vec![0, 2]);
}

#[test]
fn hamiltonian_cycle_of_tree_plus_matching_is_a_tour() {
    let mst = vec![(0, 1), (1, 2), (1, 3), (3, 4)];
    let odd = ChristofidesStrategy::find_odd_degree_nodes(5, &mst);
    assert_eq!(odd, vec![0, 1, 2, 4]);
    let matching = vec![(0, 1), (2, 4)];
    let path = ChristofidesStrategy::build_hamiltonian_cycle(5, &mst, &matching);
    assert_eq!(path[0], 0);
    let mut s = path.clone();
    s.sort();
    assert_eq!(s, vec![0, 1, 2, 3, 4]);
}

#[test]
fn hamiltonian_cycle_stays_in_the_component_of_node_zero() {
    let mst = vec![(0, 1), (2, 3)];
    let path = ChristofidesStrategy::build_hamiltonian_cycle(4, &mst, &[]);
    assert_eq!(path, vec![0, 1]);
}

#[test]
fn hamiltonian_cycle_of_single_node() {
    assert_eq!(ChristofidesStrategy::build_hamiltonian_cycle(1, &[], &[]), vec![0]);
}

#[test]
fn christofides_phases_in_order() {
    let mut s = ChristofidesStrategy::new();
    let mut path: Vec<usize> = Vec::new();
    assert!(matches!(s.plan_step(&mut path, 4), ChristofidesPlan::BuildTree));
    s.record_tree(vec![(0, 1), (1, 2), (2, 3)]);
    match s.plan_step(&mut path, 4) {
        ChristofidesPlan::Match(odd) => assert_eq!(odd, vec![0, 3]),
        other => panic!("unexpected plan {:?}", other),
    }
    s.record_matching(vec![(0, 3)]);
    assert!(matches!(s.plan_step(&mut path, 4), ChristofidesPlan::Polish));
    let mut sorted = path.clone();
    sorted.sort();
    assert_eq!(sorted, vec![0, 1, 2, 3]);
    assert_eq!(path[0], 0);
    assert_eq!(s.phase, ChristofidesPhase::Finished);
    assert!(matches!(s.plan_step(&mut path, 4), ChristofidesPlan::Finished));
    s.reset();
    assert_eq!(s.phase, ChristofidesPhase::NotStarted);
}

#[test]
fn christofides_small_problem_is_identity() {
    let mut s = ChristofidesStrategy::new();
    let mut path = vec![5, 6];
    assert!(matches!(s.plan_step(&mut path, 2), ChristofidesPlan::Finished));
    assert_eq!(path, vec![0, 1]);
}

#[test]
fn record_matching_outside_tree_phase_changes_nothing() {
    let mut s = ChristofidesStrategy::new();
    s.record_matching(vec![(0, 1)]);
    assert_eq!(s.phase, ChristofidesPhase::NotStarted);
}

#[test]
fn double_bridge_at_reconnects_pieces() {
    let path: Vec<usize> = (0..10).collect();
    let r = double_bridge_at(&path, 2, 4, 6, 8);
    assert_eq!(r, vec![0, 1, 6, 7, 4, 5, 2, 3, 8, 9]);
}

#[test]
fn double_bridge_leaves_short_tours_alone() {
    let path = vec![3, 1, 4, 0, 2, 6, 5];
    assert_eq!(double_bridge(&path), path);
}

#[test]
fn double_bridge_keeps_endpoints_and_nodes() {
    let path: Vec<usize> = (0..20).map(|i| (i * 7) % 20).collect();
    for _ in 0..20 {
        let r = double_bridge(&path);
        assert_eq!(r.len(), path.len());
        assert_eq!(r[0], path[0]);
        assert_eq!(r[19], path[19]);
        let mut a = r.clone();
        a.sort();
        let mut b = path.clone();
        b.sort();
        assert_eq!(a, b);
    }
}

#[test]
fn double_bridge_draws_its_cuts_at_random() {
    // With the cut candidates left in order the cuts would always be 1, 2, 3, 4.
    let path: Vec<usize> = (0..30).collect();
    let first_four: Vec<usize> = vec![0, 3, 2, 1, 4];
    let mut other_cuts_seen = false;
    for _ in 0..40 {
        let r = double_bridge(&path);
        assert_ne!(r, path);
        if r[..5] != first_four[..] {
            other_cuts_seen = true;
        }
    }
    assert!(other_cuts_seen);
}

#[test]
fn hamiltonian_cycle_follows_hierholzer_order() {
    // Square 0-1-2-3 with the matching edge (0, 3): the walk from 0 takes the
    // last-added neighbour first.
    let mst = vec![(0, 1), (1, 2), (2, 3)];
    let path = ChristofidesStrategy::build_hamiltonian_cycle(4, &mst, &[(0, 3)]);
    assert_eq!(path, vec![0, 3, 2, 1]);
    // Star around 0 with matching (0, 1), (2, 3): circuit 0 2 3 0 1 0,
    // read from its start and shortcut.
    let star = vec![(0, 1), (0, 2), (0, 3)];
    let path = ChristofidesStrategy::build_hamiltonian_cycle(4, &star, &[(0, 1), (2, 3)]);
    assert_eq!(path, vec![0, 1, 3, 2]);
}

#[test]
fn prim_tree_grows_from_node_zero() {
    let mut t = PrimTree::new(4);
    assert_eq!(t.in_tree, vec![false; 4]);
    assert_eq!(t.parent, vec![0; 4]);
    t.add(0);
    assert!(t.edges.is_empty());
    t.set_parent(2, 0);
    t.add(2);
    t.set_parent(1, 2);
    t.set_parent(3, 2);
    t.add(1);
    t.add(3);
    assert_eq!(t.in_tree, vec![true; 4]);
    assert_eq!(t.edges, vec![(0, 2), (2, 1), (2, 3)]);
    let path = ChristofidesStrategy::build_hamiltonian_cycle(4, &t.edges, &[(0, 1)]);
    let mut s = path.clone();
    s.sort();
    assert_eq!(s, vec![0, 1, 2, 3]);
}
