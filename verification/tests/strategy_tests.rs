use traveler::scenario::TestScenario;
use traveler::strategies::lin_kernighan::LinKernighan;
use traveler::strategies::nearest_neighbor::NearestNeighbor;
use traveler::strategies::triangle_insertion::TriangleInsertion;
use traveler::strategies::triangle_insertion_v2::TriangleInsertionV2;
use traveler::strategies::triangle_insertion_v3::TriangleInsertionV3;
use traveler::strategies::triangle_insertion_v4::TriangleInsertionV4;
use traveler::strategies::triangle_insertion_v6::TriangleInsertionV6;
use traveler::strategies::triangle_insertion_v8::TriangleInsertionV8;
use traveler::strategies::v9_ils::local_search::LocalSearchConfig;
use traveler::strategies::StepPlan;
use traveler::tour::insert_node;
use traveler::ui::{AppState, InputKey, RandomGeneratorState};

#[test]
fn test_triangle_initialization() {
    let mut strategy = TriangleInsertion::new();
    let mut path = vec![];
    strategy.plan_step(&mut path, 4);

    assert_eq!(path, vec![0, 1, 2]);
    assert!(strategy.triangle_initialized);
}

#[test]
fn test_triangle_requires_3_nodes() {
    let mut strategy = TriangleInsertion::new();
    let mut path = vec![];
    let finished = matches!(strategy.plan_step(&mut path, 2), StepPlan::Finished);

    assert!(finished);
    assert!(path.is_empty());
}

#[test]
fn test_reset() {
    let mut strategy = TriangleInsertion::new();
    let mut path = vec![];

    strategy.plan_step(&mut path, 3);
    assert!(!path.is_empty());

    strategy.reset();
    assert!(!strategy.triangle_initialized);
}

#[test]
fn test_nearest_neighbor_starts_at_node_0() {
    let mut strategy = NearestNeighbor::new();
    let mut path = vec![];
    strategy.plan_step(&mut path, 3);
    assert_eq!(path, vec![0]);
}

#[test]
fn triangle_insertion_grows_until_every_node_is_placed() {
    let mut strategy = TriangleInsertion::new();
    let mut path = vec![];
    let mut steps = 0;
    loop {
        steps += 1;
        match strategy.plan_step(&mut path, 6) {
            StepPlan::Finished => break,
            StepPlan::Grow(unvisited) => {
                let node = unvisited[unvisited.len() - 1];
                insert_node(&mut path, 1, node);
            }
            _ => {}
        }
        assert!(steps < 10);
    }
    let mut s = path.clone();
    s.sort();
    assert_eq!(s, vec![0, 1, 2, 3, 4, 5]);
}

#[test]
fn nearest_neighbor_hands_out_unvisited() {
    let mut strategy = NearestNeighbor::new();
    let mut path = vec![0, 2];
    match strategy.plan_step(&mut path, 4) {
        StepPlan::Grow(u) => assert_eq!(u, vec![1, 3]),
        other => panic!("unexpected {:?}", other),
    }
    let mut full = vec![2, 0, 1];
    assert!(matches!(strategy.plan_step(&mut full, 3), StepPlan::Finished));
}

#[test]
fn v2_asks_for_seed_then_grows_then_polishes() {
    let mut s = TriangleInsertionV2::new();
    let mut path = vec![];
    assert!(matches!(s.plan_step(&mut path, 4), StepPlan::Seed));
    s.begin(&mut path, &vec![3, 1, 0]);
    assert!(s.triangle_initialized);
    match s.plan_step(&mut path, 4) {
        StepPlan::Grow(u) => assert_eq!(u, vec![2]),
        other => panic!("unexpected {:?}", other),
    }
    path.push(2);
    assert!(matches!(s.plan_step(&mut path, 4), StepPlan::Polish));
}

#[test]
fn seeded_strategies_finish_small_problems_with_identity() {
    let mut v3 = TriangleInsertionV3::new();
    let mut p3 = vec![];
    assert!(matches!(v3.plan_step(&mut p3, 2), StepPlan::Finished));
    assert_eq!(p3, vec![0, 1]);
    let mut v4 = TriangleInsertionV4::new();
    let mut p4 = vec![];
    assert!(matches!(v4.plan_step(&mut p4, 5), StepPlan::Seed));
    v4.begin(&mut p4, &vec![0, 4, 2]);
    assert!(matches!(v4.plan_step(&mut p4, 5), StepPlan::Grow(_)));
    let mut v6 = TriangleInsertionV6::new();
    let mut p6 = vec![1];
    assert!(matches!(v6.plan_step(&mut p6, 3), StepPlan::Finished));
    v6.reset();
    assert!(!v6.initialized);
}

#[test]
fn v8_pool_follows_hull_and_insertions() {
    let mut s = TriangleInsertionV8::new();
    assert_eq!(s.k_neighbors, 8);
    let mut path = vec![];
    assert!(matches!(s.plan_step(&mut path, 6), StepPlan::Seed));
    assert_eq!(s.unvisited, vec![0, 1, 2, 3, 4, 5]);
    s.begin(&mut path, &vec![0, 2, 5, 3]);
    assert_eq!(path, vec![0, 2, 5, 3]);
    assert_eq!(s.unvisited, vec![4, 1]);
    match s.plan_step(&mut path, 6) {
        StepPlan::Grow(u) => assert_eq!(u, vec![4, 1]),
        other => panic!("unexpected {:?}", other),
    }
    s.commit(&mut path, 1, 1);
    assert_eq!(path, vec![0, 1, 2, 5, 3]);
    assert_eq!(s.unvisited, vec![4]);
    s.commit(&mut path, 4, 5);
    assert!(matches!(s.plan_step(&mut path, 6), StepPlan::Polish));
    s.reset();
    assert!(s.unvisited.is_empty() && !s.initialized);
}

#[test]
fn lin_kernighan_states() {
    let mut lk = LinKernighan::new();
    assert_eq!(lk.lkh_path, "./LKH-3.0.14/LKH");
    assert_eq!(lk.work_dir, "/tmp/lkh_work");
    let mut path = vec![];
    assert!(matches!(lk.plan_step(&mut path, 4), StepPlan::Solve));
    lk.record_solution(&mut path, vec![0, 2, 1, 3]);
    assert!(lk.solved);
    let mut again = vec![9];
    assert!(matches!(lk.plan_step(&mut again, 4), StepPlan::Finished));
    assert_eq!(again, vec![0, 2, 1, 3]);
    lk.reset();
    assert!(!lk.solved && lk.solved_path.is_empty());
    let mut small = vec![];
    assert!(matches!(lk.plan_step(&mut small, 2), StepPlan::Finished));
    assert_eq!(small, vec![0, 1]);
}

#[test]
fn local_search_config_defaults() {
    let c = LocalSearchConfig::default();
    assert_eq!(c.candidate_size, 20);
    assert_eq!(c.max_2opt_rounds, 5);
    assert_eq!(c.max_reinsert_rounds, 2);
    assert_eq!(c.max_oropt_rounds, 1);
}

#[test]
fn scenario_cycle() {
    assert_eq!(TestScenario::Manual.next(), TestScenario::CirculoPerfecto);
    assert_eq!(TestScenario::CirculoPerfecto.next(), TestScenario::RejillaCuadrada);
    assert_eq!(TestScenario::RejillaCuadrada.next(), TestScenario::Manual);
}

#[test]
fn test_app_state_equality() {
    assert_eq!(AppState::Edit, AppState::Edit);
    assert_ne!(AppState::Edit, AppState::Running);
}

#[test]
fn run_key_toggles_between_editing_and_running() {
    let start = AppState::Edit.toggle_execution(5);
    assert_eq!(start.state, AppState::Running);
    assert!(start.clear_path && !start.reset_strategy);
    let refused = AppState::Edit.toggle_execution(2);
    assert_eq!(refused.state, AppState::Edit);
    assert!(!refused.clear_path);
    let stop = AppState::Finished.toggle_execution(5);
    assert_eq!(stop.state, AppState::Edit);
    assert!(stop.clear_path && stop.reset_strategy);
    assert_eq!(AppState::Running.after_step(true), AppState::Finished);
    assert_eq!(AppState::Running.after_step(false), AppState::Running);
    assert_eq!(AppState::Edit.after_step(true), AppState::Edit);
}

#[test]
fn point_count_dialog() {
    let mut d = RandomGeneratorState::default();
    d.handle_key(InputKey::Digit(4));
    assert!(d.input_text.is_empty());
    d.is_active = true;
    d.handle_key(InputKey::Digit(1));
    d.handle_key(InputKey::Digit(2));
    d.handle_key(InputKey::Digit(7));
    d.handle_key(InputKey::Backspace);
    assert_eq!(d.get_count(), Some(12));
    d.handle_key(InputKey::Escape);
    assert!(!d.is_active);
    assert_eq!(d.get_count(), None);
    d.input_text = "99999999999999999999999".chars().collect();
    assert_eq!(d.get_count(), None);
    d.input_text = "+7".chars().collect();
    assert_eq!(d.get_count(), Some(7));
}
