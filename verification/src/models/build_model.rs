use vstd::prelude::*;

verus! {

/// What a `flutter build --verbose` run left behind.
#[derive(Debug)]
pub struct BuildOutput {
    pub stdout: String,
    pub stderr: String,
    pub total_duration_ms: u128,
    pub success: bool,
}

/// The time spent in one build phase.
#[derive(Debug)]
pub struct BuildPhaseInfo {
    pub phase_name: String,
    pub duration_ms: u128,
}

/// The total build time and the time per phase, longest phase first.
#[derive(Debug)]
pub struct BuildTimingResult {
    pub total_duration_ms: u128,
    pub phases: Vec<BuildPhaseInfo>,
}

} // verus!
