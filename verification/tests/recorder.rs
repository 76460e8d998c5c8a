use geodesic_wallpaper::recorder::{
    PhasePortraitRecorder, RecorderAction, RecorderError, RecordingState,
};

fn make_recorder(w: u32, h: u32) -> PhasePortraitRecorder {
    PhasePortraitRecorder::new(w, h, 30, 10, String::from("test-output.gif"))
}

/// Starts recording the way the application does: `start` asks for a frames
/// directory, which is then handed to `begin`.
fn start_recording(r: &mut PhasePortraitRecorder, dir: &str) {
    match r.start().unwrap() {
        RecorderAction::CreateFramesDir => r.begin(dir.to_string()),
        other => panic!("unexpected action {:?}", other),
    }
}

#[test]
fn initial_state_idle() {
    let r = make_recorder(64, 64);
    assert_eq!(r.state(), RecordingState::Idle);
    assert_eq!(r.frame_count(), 0);
}

#[test]
fn start_changes_state() {
    let mut r = make_recorder(64, 64);
    start_recording(&mut r, "frames");
    assert_eq!(r.state(), RecordingState::Recording);
}

#[test]
fn push_frame_wrong_size_skipped() {
    let mut r = make_recorder(64, 64);
    start_recording(&mut r, "frames");
    // Intentionally wrong size — should not error, just skip.
    let result = r.push_frame([0u8; 16].len());
    assert!(result.is_ok());
    assert_eq!(r.frame_count(), 0, "frame should be skipped");
}

#[test]
fn push_frame_correct_size_stored() {
    let mut r = make_recorder(4, 4);
    start_recording(&mut r, "frames");
    let frame = vec![128u8; 4 * 4 * 4];
    match r.push_frame(frame.len()).unwrap() {
        RecorderAction::WriteFrame { dir, file_name } => {
            assert_eq!(dir, "frames");
            assert_eq!(file_name, "frame_000000.png");
            r.frame_written();
        }
        other => panic!("unexpected action {:?}", other),
    }
    assert_eq!(r.frame_count(), 1);
}

#[test]
fn zero_dimensions_returns_error() {
    let mut r = make_recorder(0, 64);
    let result = r.start();
    assert!(matches!(result, Err(RecorderError::InvalidDimensions)));
}

#[test]
fn status_text_idle_is_empty() {
    let r = make_recorder(64, 64);
    assert!(r.status_text().is_empty());
}

#[test]
fn status_text_recording_non_empty() {
    let mut r = make_recorder(4, 4);
    start_recording(&mut r, "frames");
    let text = r.status_text();
    assert!(text.contains("REC"), "status should mention REC");
}

#[test]
fn defaults_for_zero_fps_and_duration() {
    let mut r = PhasePortraitRecorder::new(2, 2, 0, 0, String::from("out.gif"));
    start_recording(&mut r, "d");
    assert_eq!(r.status_text(), " [REC 0s / 10s  0 frames]");
    match r.finish().unwrap() {
        RecorderAction::Encode { frames_dir, output, fps } => {
            assert_eq!(frames_dir, "d");
            assert_eq!(output, "out.gif");
            assert_eq!(fps, 30);
        }
        other => panic!("unexpected action {:?}", other),
    }
}

#[test]
fn status_text_counts_elapsed_seconds_and_frames() {
    let mut r = make_recorder(1, 1);
    r.tick(5_000);
    start_recording(&mut r, "d");
    for i in 0..3u64 {
        match r.push_frame(4).unwrap() {
            RecorderAction::WriteFrame { file_name, .. } => {
                assert_eq!(file_name, format!("frame_{:06}.png", i));
                r.frame_written();
            }
            other => panic!("unexpected action {:?}", other),
        }
    }
    r.tick(7_999);
    assert_eq!(r.status_text(), " [REC 2s / 10s  3 frames]");
}

#[test]
fn duration_limit_stops_recording() {
    let mut r = PhasePortraitRecorder::new(1, 1, 30, 1, String::from("out.gif"));
    r.tick(100);
    start_recording(&mut r, "d");
    r.tick(1_099);
    assert!(matches!(r.push_frame(4), Ok(RecorderAction::WriteFrame { .. })));
    r.tick(1_100);
    assert!(matches!(r.push_frame(4), Ok(RecorderAction::Nothing)));
    assert_eq!(r.state(), RecordingState::Idle);
    assert!(!r.is_recording());
}

#[test]
fn push_frame_ignored_when_idle() {
    let mut r = make_recorder(1, 1);
    assert!(matches!(r.push_frame(4), Ok(RecorderAction::Nothing)));
    assert_eq!(r.frame_count(), 0);
}

#[test]
fn toggle_cycles_through_states() {
    let mut r = make_recorder(2, 2);
    assert!(matches!(r.toggle(), Ok(RecorderAction::CreateFramesDir)));
    assert_eq!(r.state(), RecordingState::Idle);
    r.begin(String::from("frames"));
    assert!(r.is_recording());
    assert!(matches!(r.toggle(), Ok(RecorderAction::Encode { .. })));
    assert_eq!(r.state(), RecordingState::Encoding);
    assert_eq!(r.status_text(), " [ENCODING 0 frames\u{2026}]");
    assert!(matches!(r.toggle(), Ok(RecorderAction::Nothing)));
    r.encoding_done();
    assert_eq!(r.state(), RecordingState::Idle);
    assert_eq!(r.frame_count(), 0);
}

#[test]
fn finish_without_frames_dir_fails() {
    let mut r = make_recorder(2, 2);
    assert!(matches!(r.finish(), Err(RecorderError::NoFramesDir)));
    assert_eq!(r.state(), RecordingState::Encoding);
}

#[test]
fn start_while_recording_is_noop() {
    let mut r = make_recorder(2, 2);
    start_recording(&mut r, "frames");
    assert!(matches!(r.start(), Ok(RecorderAction::Nothing)));
    assert!(r.is_recording());
}

#[test]
fn recorder_error_messages() {
    assert_eq!(RecorderError::NoFramesDir.message(), "no frames directory available");
    assert_eq!(RecorderError::InvalidDimensions.message(), "invalid frame dimensions (0)");
    assert_eq!(RecorderError::Io("x".to_string()).message(), "IO error: x");
    assert_eq!(RecorderError::Image("y".to_string()).message(), "image error: y");
}
