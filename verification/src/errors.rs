use vstd::prelude::*;

verus! {

/// Error returned by the engine's public operations.
#[derive(Clone, Copy, Debug, PartialEq, Eq, Structural)]
pub enum EngineError {
    /// The engine is not in the `Running` state, so price submissions
    /// are refused.
    EngineNotRunning,
}

} // verus!
