use minutes_app::commands::{limit_meetings, next_recording_stage, recording_status, RecordingStage};

#[test]
fn status_report() {
    let r = recording_status(false, true, Some(42));
    assert!(r.recording);
    assert_eq!(r.pid, Some(42));
    let r = recording_status(true, false, None);
    assert!(r.recording);
    assert_eq!(r.pid, None);
    assert!(!recording_status(false, false, None).recording);
}

#[test]
fn meeting_list_limit() {
    let all: Vec<u32> = (0..15).collect();
    assert_eq!(limit_meetings(all.clone(), None), (0..10).collect::<Vec<u32>>());
    assert_eq!(limit_meetings(all.clone(), Some(3)), vec![0, 1, 2]);
    assert_eq!(limit_meetings(all.clone(), Some(0)), Vec::<u32>::new());
    assert_eq!(limit_meetings(all.clone(), Some(100)), all);
}

#[test]
fn recording_session_steps() {
    assert_eq!(next_recording_stage(RecordingStage::CreatePid, true), RecordingStage::Capture);
    assert_eq!(next_recording_stage(RecordingStage::CreatePid, false), RecordingStage::Done);
    assert_eq!(next_recording_stage(RecordingStage::Capture, true), RecordingStage::Process);
    assert_eq!(next_recording_stage(RecordingStage::Capture, false), RecordingStage::Cleanup);
    assert_eq!(next_recording_stage(RecordingStage::Process, false), RecordingStage::Cleanup);
    assert_eq!(next_recording_stage(RecordingStage::Process, true), RecordingStage::Cleanup);
    assert_eq!(next_recording_stage(RecordingStage::Cleanup, true), RecordingStage::Done);
    assert_eq!(next_recording_stage(RecordingStage::Done, false), RecordingStage::Done);
}
