use traveler::scenario::TestScenario;
use traveler::strategies::triangle_insertion_v2::TriangleInsertionV2;
use traveler::strategies::triangle_insertion_v3::TriangleInsertionV3;
use traveler::strategies::v9_ils::perturbation::double_bridge;

#[test]
fn test_scenario_names() {
    assert_eq!(TestScenario::Manual.name(), "Manual (Click en pantalla)");
    assert_eq!(
        TestScenario::CirculoPerfecto.name(),
        "Test: Círculo Perfecto (Óptimo obvio)"
    );
    assert_eq!(
        TestScenario::RejillaCuadrada.name(),
        "Test: Rejilla 4x4 (Óptimo simétrico)"
    );
}

#[test]
fn test_smart_triangle_insertion_v2_reset() {
    let mut strategy = TriangleInsertionV2::new();
    strategy.triangle_initialized = true;

    strategy.reset();
    assert!(!strategy.triangle_initialized);
}

#[test]
fn test_v3_reset() {
    let mut strategy = TriangleInsertionV3::new();
    strategy.initialized = true;
    strategy.reset();
    assert!(!strategy.initialized);
}

#[test]
fn test_double_bridge_preserves_nodes() {
    let path: Vec<usize> = (0..12).collect();
    let perturbed = double_bridge(&path);
    let mut sorted = perturbed.clone();
    sorted.sort();
    assert_eq!(sorted, path);
}
