//! The computations behind the shell's commands: the recording status
//! report, the length of the recent-meetings list, and the order of the
//! steps of a recording session.

use std::sync::atomic::AtomicBool;
use std::sync::Arc;
use vstd::prelude::*;

verus! {

/// State shared with the commands.
pub struct AppState {
    /// Whether the shell is recording.
    pub recording: Arc<AtomicBool>,
}

/// The status that the status command reports.
#[derive(Clone, Copy, Debug, PartialEq, Eq)]
pub struct StatusReport {
    /// Whether a recording runs, in this shell or in another process.
    pub recording: bool,
    /// The process id in the recording PID file, if any.
    pub pid: Option<u32>,
}

/// The status report from this shell's recording flag and the PID file's
/// status: recording when either says so.
pub fn recording_status(app_recording: bool, pid_recording: bool, pid: Option<u32>) -> (r:
    StatusReport)
    ensures
        r.recording == (app_recording || pid_recording),
        r.pid == pid,
{
    StatusReport { recording: app_recording || pid_recording, pid }
}

/// How many meetings the list command shows when no limit is given.
pub const DEFAULT_MEETING_LIMIT: usize = 10;

/// The number of meetings to show for a requested limit.
pub open spec fn meeting_limit(limit: Option<usize>) -> usize {
    match limit {
        Some(n) => n,
        None => DEFAULT_MEETING_LIMIT,
    }
}

/// The first `limit` search results (ten when no limit is given), in order.
pub fn limit_meetings<T>(results: Vec<T>, limit: Option<usize>) -> (r: Vec<T>)
    ensures
        r@ == (if meeting_limit(limit) <= results@.len() {
            results@.take(meeting_limit(limit) as int)
        } else {
            results@
        }),
{
    let n = match limit {
        Some(n) => n,
        None => DEFAULT_MEETING_LIMIT,
    };
    let mut r = results;
    r.truncate(n);
    r
}

/// The steps of a recording session.
#[derive(Clone, Copy, Debug, PartialEq, Eq)]
pub enum RecordingStage {
    /// Write the PID file.
    CreatePid,
    /// Record audio until the recording flag is cleared.
    Capture,
    /// Run the transcription pipeline on the recording.
    Process,
    /// Remove the PID file and the recorded audio.
    Cleanup,
    /// Clear the recording flag; the session is over.
    Done,
}

/// The step after `stage`, given whether it succeeded: a session whose PID
/// file could not be written ends at once; a failed capture skips the
/// pipeline but still cleans up; the pipeline's outcome changes nothing.
pub open spec fn next_stage(stage: RecordingStage, succeeded: bool) -> RecordingStage {
    match stage {
        RecordingStage::CreatePid => if succeeded {
            RecordingStage::Capture
        } else {
            RecordingStage::Done
        },
        RecordingStage::Capture => if succeeded {
            RecordingStage::Process
        } else {
            RecordingStage::Cleanup
        },
        RecordingStage::Process => RecordingStage::Cleanup,
        RecordingStage::Cleanup => RecordingStage::Done,
        RecordingStage::Done => RecordingStage::Done,
    }
}

/// The step of a recording session after `stage`.
pub fn next_recording_stage(stage: RecordingStage, succeeded: bool) -> (r: RecordingStage)
    ensures
        r == next_stage(stage, succeeded),
{
    match stage {
        RecordingStage::CreatePid => if succeeded {
            RecordingStage::Capture
        } else {
            RecordingStage::Done
        },
        RecordingStage::Capture => if succeeded {
            RecordingStage::Process
        } else {
            RecordingStage::Cleanup
        },
        RecordingStage::Process => RecordingStage::Cleanup,
        RecordingStage::Cleanup => RecordingStage::Done,
        RecordingStage::Done => RecordingStage::Done,
    }
}

/// The stage reached from `stage` after steps with the given outcomes.
pub open spec fn run_stages(stage: RecordingStage, outcomes: Seq<bool>) -> RecordingStage
    decreases outcomes.len(),
{
    if outcomes.len() == 0 {
        stage
    } else {
        run_stages(next_stage(stage, outcomes[0]), outcomes.drop_first())
    }
}

/// Whether the session passes through the cleanup step on its way from
/// `stage` with the given outcomes.
pub open spec fn cleans_up(stage: RecordingStage, outcomes: Seq<bool>) -> bool
    decreases outcomes.len(),
{
    stage == RecordingStage::Cleanup || (outcomes.len() > 0 && cleans_up(
        next_stage(stage, outcomes[0]),
        outcomes.drop_first(),
    ))
}

/// Every session ends within four steps, whatever their outcomes.
pub proof fn law_session_ends(outcomes: Seq<bool>)
    requires
        outcomes.len() >= 4,
    ensures
        run_stages(RecordingStage::CreatePid, outcomes) == RecordingStage::Done,
    decreases outcomes.len(),
{
    reveal_with_fuel(run_stages, 5);
    lemma_done_stays(next_stage(
        next_stage(next_stage(next_stage(RecordingStage::CreatePid, outcomes[0]), outcomes[1]), outcomes[2]),
        outcomes[3],
    ), outcomes.skip(4));
    assert(outcomes.drop_first().drop_first().drop_first().drop_first() =~= outcomes.skip(4));
}

/// Once done, a session stays done.
proof fn lemma_done_stays(stage: RecordingStage, outcomes: Seq<bool>)
    requires
        stage == RecordingStage::Done,
    ensures
        run_stages(stage, outcomes) == RecordingStage::Done,
    decreases outcomes.len(),
{
    if outcomes.len() > 0 {
        lemma_done_stays(next_stage(stage, outcomes[0]), outcomes.drop_first());
    }
}

/// The PID file and the audio are cleaned up exactly when the PID file was
/// written: a session that wrote it passes through cleanup within three
/// steps, whatever the capture and the pipeline did; one that could not
/// write it never does.
pub proof fn law_cleanup_iff_pid_written(outcomes: Seq<bool>)
    requires
        outcomes.len() >= 3,
    ensures
        cleans_up(RecordingStage::CreatePid, outcomes) == outcomes[0],
    decreases outcomes.len(),
{
    reveal_with_fuel(cleans_up, 4);
    if !outcomes[0] {
        lemma_done_never_cleans(outcomes.drop_first());
    }
}

/// A finished session does not clean up again.
proof fn lemma_done_never_cleans(outcomes: Seq<bool>)
    ensures
        !cleans_up(RecordingStage::Done, outcomes),
    decreases outcomes.len(),
{
    if outcomes.len() > 0 {
        lemma_done_never_cleans(outcomes.drop_first());
    }
}

} // verus!
