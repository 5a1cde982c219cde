use vstd::prelude::*;

verus! {

/// What fetching the next queued job gave.
#[derive(Debug, Clone, Copy, PartialEq, Eq)]
pub enum FetchOutcome {
    /// A job was claimed.
    Claimed,
    /// The queue is empty.
    Empty,
    /// The database could not be queried.
    Failed,
}

/// What the worker does next.
#[derive(Debug, Clone, Copy, PartialEq, Eq)]
pub enum WorkerAction {
    /// Process the claimed job.
    Process,
    /// Wait this many seconds before polling again.
    Sleep(u64),
}

/// The worker loop's decision: process a claimed job, poll again after 2 s
/// on an empty queue and after 5 s on a database error.
pub fn next_action(outcome: FetchOutcome) -> (action: WorkerAction)
    ensures
        outcome == FetchOutcome::Claimed ==> action == WorkerAction::Process,
        outcome == FetchOutcome::Empty ==> action == WorkerAction::Sleep(2),
        outcome == FetchOutcome::Failed ==> action == WorkerAction::Sleep(5),
{
    match outcome {
        FetchOutcome::Claimed => WorkerAction::Process,
        FetchOutcome::Empty => WorkerAction::Sleep(2),
        FetchOutcome::Failed => WorkerAction::Sleep(5),
    }
}

/// The steps of fingerprinting a track, in order, each reported to the
/// clients that watch the track.
#[derive(Debug, Clone, Copy, PartialEq, Eq)]
pub enum ProcessingStage {
    Claimed,
    TrackMarked,
    Downloaded,
    Decoded,
    SpectrogramReady,
    ConstellationReady,
    HashesReady,
    Completed,
}

/// A progress report: status, percentage done and message.
#[derive(Debug, Clone, Copy)]
pub struct StageNotice {
    pub status: &'static str,
    pub progress: u8,
    pub message: &'static str,
}

/// The percentage reported at each stage.
pub open spec fn stage_progress(stage: ProcessingStage) -> u8 {
    match stage {
        ProcessingStage::Claimed => 5,
        ProcessingStage::TrackMarked => 10,
        ProcessingStage::Downloaded => 20,
        ProcessingStage::Decoded => 40,
        ProcessingStage::SpectrogramReady => 50,
        ProcessingStage::ConstellationReady => 70,
        ProcessingStage::HashesReady => 90,
        ProcessingStage::Completed => 100,
    }
}

/// The stage that follows `stage`, if any.
pub open spec fn stage_after(stage: ProcessingStage) -> Option<ProcessingStage> {
    match stage {
        ProcessingStage::Claimed => Some(ProcessingStage::TrackMarked),
        ProcessingStage::TrackMarked => Some(ProcessingStage::Downloaded),
        ProcessingStage::Downloaded => Some(ProcessingStage::Decoded),
        ProcessingStage::Decoded => Some(ProcessingStage::SpectrogramReady),
        ProcessingStage::SpectrogramReady => Some(ProcessingStage::ConstellationReady),
        ProcessingStage::ConstellationReady => Some(ProcessingStage::HashesReady),
        ProcessingStage::HashesReady => Some(ProcessingStage::Completed),
        ProcessingStage::Completed => None,
    }
}

/// The message sent to the client at each stage.
pub open spec fn stage_message(stage: ProcessingStage) -> Seq<char> {
    match stage {
        ProcessingStage::Claimed => "Job claimed, starting processing"@,
        ProcessingStage::TrackMarked => "Track status updated to fingerprinting"@,
        ProcessingStage::Downloaded => "Audio downloaded from storage"@,
        ProcessingStage::Decoded => "Audio decoded successfully"@,
        ProcessingStage::SpectrogramReady => "Spectrogram generated"@,
        ProcessingStage::ConstellationReady => "Peaks extracted and constellation created"@,
        ProcessingStage::HashesReady => "Fingerprint hashes generated"@,
        ProcessingStage::Completed => "Fingerprinting completed successfully"@,
    }
}

impl ProcessingStage {
    /// The stage that follows this one; none after completion.
    pub fn next(&self) -> (next: Option<ProcessingStage>)
        ensures
            next == stage_after(*self),
    {
        match self {
            ProcessingStage::Claimed => Some(ProcessingStage::TrackMarked),
            ProcessingStage::TrackMarked => Some(ProcessingStage::Downloaded),
            ProcessingStage::Downloaded => Some(ProcessingStage::Decoded),
            ProcessingStage::Decoded => Some(ProcessingStage::SpectrogramReady),
            ProcessingStage::SpectrogramReady => Some(ProcessingStage::ConstellationReady),
            ProcessingStage::ConstellationReady => Some(ProcessingStage::HashesReady),
            ProcessingStage::HashesReady => Some(ProcessingStage::Completed),
            ProcessingStage::Completed => None,
        }
    }

    /// The report sent when this stage is reached: "processing" until the
    /// job completes, with the stage's percentage and message.
    pub fn notice(&self) -> (notice: StageNotice)
        ensures
            notice.progress == stage_progress(*self),
            notice.message@ == stage_message(*self),
            *self == ProcessingStage::Completed ==> notice.status@ == "completed"@,
            *self != ProcessingStage::Completed ==> notice.status@ == "processing"@,
    {
        match self {
            ProcessingStage::Claimed => StageNotice {
                status: "processing",
                progress: 5,
                message: "Job claimed, starting processing",
            },
            ProcessingStage::TrackMarked => StageNotice {
                status: "processing",
                progress: 10,
                message: "Track status updated to fingerprinting",
            },
            ProcessingStage::Downloaded => StageNotice {
                status: "processing",
                progress: 20,
                message: "Audio downloaded from storage",
            },
            ProcessingStage::Decoded => StageNotice {
                status: "processing",
                progress: 40,
                message: "Audio decoded successfully",
            },
            ProcessingStage::SpectrogramReady => StageNotice {
                status: "processing",
                progress: 50,
                message: "Spectrogram generated",
            },
            ProcessingStage::ConstellationReady => StageNotice {
                status: "processing",
                progress: 70,
                message: "Peaks extracted and constellation created",
            },
            ProcessingStage::HashesReady => StageNotice {
                status: "processing",
                progress: 90,
                message: "Fingerprint hashes generated",
            },
            ProcessingStage::Completed => StageNotice {
                status: "completed",
                progress: 100,
                message: "Fingerprinting completed successfully",
            },
        }
    }
}

/// Progress only grows from one stage to the next, and the last stage is
/// the only one without a successor, at 100 percent.
pub proof fn lemma_progress_increases(stage: ProcessingStage)
    ensures
        stage_after(stage) matches Some(next) ==> stage_progress(stage) < stage_progress(next),
        stage_after(stage) is None <==> stage == ProcessingStage::Completed,
        stage == ProcessingStage::Completed ==> stage_progress(stage) == 100,
{
}

} // verus!
