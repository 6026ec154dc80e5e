use vstd::prelude::*;

verus! {

/// Lifecycle of a crawl job: `Pending` before any worker starts, `Running`
/// while the frontier is drained, then exactly one of three absorbing
/// terminal states.
#[derive(Clone, Copy, Debug, PartialEq, Eq, Structural)]
pub enum JobStatus {
    Pending,
    Running,
    Completed,
    Failed,
    Cancelled,
}

impl JobStatus {
    /// A terminal status is one the job never leaves again.
    pub open spec fn is_terminal(self) -> bool {
        match self {
            JobStatus::Completed => true,
            JobStatus::Failed => true,
            JobStatus::Cancelled => true,
            _ => false,
        }
    }

    /// Position of a status along the lifecycle; transitions never decrease it.
    pub open spec fn rank(self) -> int {
        match self {
            JobStatus::Pending => 0,
            JobStatus::Running => 1,
            _ => 2,
        }
    }

    /// The transitions the orchestrator may take in one step: stay put,
    /// start running, or move from a live state into a terminal one.
    pub open spec fn can_step_to(self, next: JobStatus) -> bool {
        ||| next == self
        ||| (self == JobStatus::Pending && next == JobStatus::Running)
        ||| (!self.is_terminal() && next.is_terminal())
    }

    /// Executable terminal check, matching the spec-level one.
    pub fn terminal(&self) -> (r: bool)
        ensures
            r == self.is_terminal(),
    {
        match self {
            JobStatus::Completed => true,
            JobStatus::Failed => true,
            JobStatus::Cancelled => true,
            _ => false,
        }
    }

    /// The wire name of the status, as the control surface reports it.
    pub fn name(&self) -> (r: &'static str)
        ensures
            *self == JobStatus::Pending ==> r@ == "pending"@,
            *self == JobStatus::Running ==> r@ == "running"@,
            *self == JobStatus::Completed ==> r@ == "completed"@,
            *self == JobStatus::Failed ==> r@ == "failed"@,
            *self == JobStatus::Cancelled ==> r@ == "cancelled"@,
    {
        match self {
            JobStatus::Pending => "pending",
            JobStatus::Running => "running",
            JobStatus::Completed => "completed",
            JobStatus::Failed => "failed",
            JobStatus::Cancelled => "cancelled",
        }
    }
}

/// Status steps only move forward along the lifecycle, and a terminal
/// status is absorbing: no step leaves it.  `Running` is only ever entered
/// from `Pending`, so the `Pending -> Running` transition happens at most
/// once over any sequence of allowed steps.
pub proof fn lemma_status_step_monotone(a: JobStatus, b: JobStatus)
    requires
        a.can_step_to(b),
    ensures
        a.rank() <= b.rank(),
        a.is_terminal() ==> b == a,
        b == JobStatus::Running ==> a == JobStatus::Pending || a == JobStatus::Running,
{
}

} // verus!
