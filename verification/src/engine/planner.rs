//! Planners.

use crate::engine::manifest::{Manifest, RelativePath};
use crate::error::PlanError;
use vstd::prelude::*;

verus! {

/// What is to be done about one file.
#[derive(Debug, Clone, PartialEq, Eq)]
pub enum FileOperation {
    CreateOrUpdate(RelativePath),
    Delete(RelativePath),
    Skip(RelativePath),
}

/// What is to be done.
#[derive(Debug, Clone, PartialEq, Eq)]
pub struct SyncPlan {
    pub operations: Vec<FileOperation>,
}

impl Default for SyncPlan {
    fn default() -> (plan: Self)
        ensures
            plan.operations@ == Seq::<FileOperation>::empty(),
    {
        SyncPlan { operations: Vec::new() }
    }
}

/// Something that plans how a destination comes to equal a source.
pub trait Planner: Send + Sync {
    fn build_plan(&self, source: &Manifest, destination: &Manifest) -> Result<SyncPlan, PlanError>;
}

/// A planner that plans nothing.
#[derive(Debug)]
pub struct StubPlanner;

impl Default for StubPlanner {
    fn default() -> Self {
        StubPlanner
    }
}

impl Planner for StubPlanner {
    fn build_plan(&self, source: &Manifest, destination: &Manifest) -> (plan: Result<
        SyncPlan,
        PlanError,
    >)
        ensures
            plan matches Err(PlanError::NotImplemented { feature }) && feature@
                == "sync planner"@,
    {
        Err(PlanError::NotImplemented { feature: "sync planner" })
    }
}

} // verus!
