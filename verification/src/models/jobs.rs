use vstd::prelude::*;

verus! {

/// The state of a background fingerprinting job.
#[derive(Debug, Clone, Copy, PartialEq, Eq)]
pub enum JobStatus {
    Queued,
    Processing,
    Completed,
    Failed,
}

impl JobStatus {
    /// The status as shown to clients: the variant name in lowercase.
    pub fn label(&self) -> (label: &'static str)
        ensures
            *self == JobStatus::Queued ==> label@ == "queued"@,
            *self == JobStatus::Processing ==> label@ == "processing"@,
            *self == JobStatus::Completed ==> label@ == "completed"@,
            *self == JobStatus::Failed ==> label@ == "failed"@,
    {
        match self {
            JobStatus::Queued => "queued",
            JobStatus::Processing => "processing",
            JobStatus::Completed => "completed",
            JobStatus::Failed => "failed",
        }
    }
}

} // verus!
