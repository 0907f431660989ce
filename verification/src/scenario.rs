use vstd::prelude::*;

verus! {

/// The predefined test scenarios offered by the visualizer.
#[derive(Copy, Clone, PartialEq, Eq, Debug)]
pub enum TestScenario {
    Manual,
    CirculoPerfecto,
    RejillaCuadrada,
}

/// The display name of each scenario.
pub open spec fn scenario_name_spec(s: TestScenario) -> Seq<char> {
    match s {
        TestScenario::Manual => "Manual (Click en pantalla)"@,
        TestScenario::CirculoPerfecto => "Test: Círculo Perfecto (Óptimo obvio)"@,
        TestScenario::RejillaCuadrada => "Test: Rejilla 4x4 (Óptimo simétrico)"@,
    }
}

impl TestScenario {
    /// The scenario that the scenario key switches to, in the cycle
    /// Manual, perfect circle, square grid.
    pub fn next(self) -> (r: TestScenario)
        ensures
            self == TestScenario::Manual ==> r == TestScenario::CirculoPerfecto,
            self == TestScenario::CirculoPerfecto ==> r == TestScenario::RejillaCuadrada,
            self == TestScenario::RejillaCuadrada ==> r == TestScenario::Manual,
    {
        match self {
            TestScenario::Manual => TestScenario::CirculoPerfecto,
            TestScenario::CirculoPerfecto => TestScenario::RejillaCuadrada,
            TestScenario::RejillaCuadrada => TestScenario::Manual,
        }
    }

    /// Human-readable name shown in the HUD.
    pub fn name(&self) -> (r: &str)
        ensures
            r@ == scenario_name_spec(*self),
    {
        match self {
            TestScenario::Manual => "Manual (Click en pantalla)",
            TestScenario::CirculoPerfecto => "Test: Círculo Perfecto (Óptimo obvio)",
            TestScenario::RejillaCuadrada => "Test: Rejilla 4x4 (Óptimo simétrico)",
        }
    }
}

} // verus!
