//! What is reported during a run.
use vstd::prelude::*;

verus! {

/// What kind of solution is reported.
#[derive(Debug, Clone, Copy, PartialEq, Eq, Structural)]
pub enum ReportType {
    /// A feasible one of the exploration.
    ExplFeas,
    /// An infeasible one of the exploration.
    ExplInfeas,
    /// One that a separation improved.
    ExplImproving,
    /// A feasible one of the compression.
    CmprFeas,
    /// The result of the run.
    Final,
}

} // verus!
