//! Appliers.

use crate::engine::planner::SyncPlan;
use crate::error::ApplyError;
use crate::path::SyncPath;
use vstd::prelude::*;

verus! {

/// Something that carries a plan out.
pub trait Applier: Send + Sync {
    fn apply(&self, destination_root: &SyncPath, plan: &SyncPlan) -> Result<(), ApplyError>;
}

/// An applier that applies nothing.
#[derive(Debug)]
pub struct StubApplier;

impl Default for StubApplier {
    fn default() -> Self {
        StubApplier
    }
}

impl Applier for StubApplier {
    fn apply(&self, destination_root: &SyncPath, plan: &SyncPlan) -> (outcome: Result<
        (),
        ApplyError,
    >)
        ensures
            outcome matches Err(ApplyError::NotImplemented { feature }) && feature@
                == "plan application"@,
    {
        Err(ApplyError::NotImplemented { feature: "plan application" })
    }
}

} // verus!
