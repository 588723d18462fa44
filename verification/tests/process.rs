use scene_engine::media::MediaError;
use scene_engine::process::{
    beat, capture_result, disarm, heartbeat, keep_tail, stream_end, tail_text, tool_failure,
    watch_io, watch_step, Capture, CaptureStep, Exit, ProcOutput, Waited, WatchStep, KEEP,
};

fn exit(success: bool) -> Exit {
    Exit { success, text: "exit status: 3".to_string() }
}

#[test]
fn drain_empties_the_pipe_and_keeps_the_tail() {
    // 700 KB in chunks: the tail holds the last KEEP bytes.
    let mut tail = Vec::new();
    let chunk = vec![b'x'; 4096];
    let mut left: usize = 700_000;
    while left > 0 {
        let n = left.min(chunk.len());
        keep_tail(&mut tail, &chunk[..n]);
        left -= n;
    }
    assert_eq!(tail.len(), KEEP);
    assert!(tail_text(&tail).bytes().all(|b| b == b'x'));
}

#[test]
fn the_tail_does_not_depend_on_the_chunks() {
    let bytes: Vec<u8> = (0..KEEP + 1000).map(|i| (i % 251) as u8).collect();
    let mut whole = Vec::new();
    keep_tail(&mut whole, &bytes);
    let mut pieces = Vec::new();
    for chunk in bytes.chunks(777) {
        keep_tail(&mut pieces, chunk);
    }
    assert_eq!(whole, pieces);
    assert_eq!(whole, bytes[1000..]);
    assert_eq!(tail_text(&b" \xffno\n".to_vec()), "\u{fffd}no");
}

#[test]
fn output_timeout_collects_like_output() {
    let mut wait = Capture::new();
    assert!(!wait.exited());
    assert!(matches!(
        wait.poll(Waited::Running, false, false, false, "sh", 10),
        CaptureStep::Sleep
    ));
    // The child is gone, but its pipes are still open.
    assert!(matches!(
        wait.poll(Waited::Exited(exit(false)), true, false, false, "sh", 10),
        CaptureStep::Sleep
    ));
    assert!(wait.exited());
    let status = match wait.poll(Waited::Running, true, true, false, "sh", 10) {
        CaptureStep::Finish(result) => result,
        other => panic!("{other:?}"),
    };
    let out = capture_result(status, Ok(b"hello\n".to_vec()), b"oops\n".to_vec()).unwrap();
    assert!(!out.status.success);
    assert_eq!(tail_text(&out.stdout), "hello");
    assert_eq!(tail_text(&out.stderr), "oops");
}

#[test]
fn deadline_covers_pipes_after_parent_exit() {
    let mut wait = Capture::new();
    let step = wait.poll(Waited::Exited(exit(true)), true, false, true, "fixture", 1_000);
    assert!(matches!(
        step,
        CaptureStep::Finish(Err(MediaError::TimedOut { tool, limit_ms: 1_000 })) if tool == "fixture"
    ));
    // An exit that is complete at the deadline still counts.
    let mut wait = Capture::new();
    assert!(matches!(
        wait.poll(Waited::Exited(exit(true)), true, true, true, "fixture", 1_000),
        CaptureStep::Finish(Ok(e)) if e.success
    ));
    let mut wait = Capture::new();
    assert!(matches!(
        wait.poll(Waited::Failed("gone".into()), true, true, false, "fixture", 1_000),
        CaptureStep::Finish(Err(MediaError::Io(m))) if m == "gone"
    ));
}

#[test]
fn failures_carry_their_stderr() {
    let out = |success: bool| ProcOutput {
        status: exit(success),
        stdout: Vec::new(),
        stderr: b" bad input \n".to_vec(),
    };
    assert!(tool_failure("ffmpeg", &out(true)).is_none());
    assert_eq!(
        tool_failure("ffmpeg", &out(false)).unwrap().message(),
        "ffmpeg exited with exit status: 3: bad input"
    );
    assert!(stream_end("ffmpeg", Ok(exit(true)), "x".into()).is_none());
    assert_eq!(
        stream_end("ffmpeg", Ok(exit(false)), "x".into()).unwrap().message(),
        "ffmpeg exited with exit status: 3: x"
    );
    let lost = stream_end("ffmpeg", Err(MediaError::Io("gone".into())), "x".into());
    assert!(matches!(lost, Some(MediaError::Io(m)) if m == "gone"));
    let unread = capture_result(Ok(exit(true)), Err("broken pipe".into()), Vec::new());
    assert!(matches!(unread, Err(MediaError::Io(m)) if m == "broken pipe"));
}

#[test]
fn idle_and_completed_operations_survive_past_stall_limit() {
    let mut heart = heartbeat();
    assert_eq!(watch_step(&heart, 150, 50), WatchStep::Wait);
    let guard = watch_io(&mut heart, 150);
    beat(&mut heart, 160);
    guard.end(&mut heart);
    assert_eq!(watch_step(&heart, 400, 50), WatchStep::Wait);
    // A beat of nothing starts nothing.
    beat(&mut heart, 410);
    assert_eq!(watch_step(&heart, 900, 50), WatchStep::Wait);
}

#[test]
fn outstanding_read_still_terminates_hung_child() {
    let mut heart = heartbeat();
    let guard = watch_io(&mut heart, 1_000);
    assert_eq!(watch_step(&heart, 1_030, 100), WatchStep::WaitFor(70));
    beat(&mut heart, 1_060);
    assert_eq!(watch_step(&heart, 1_100, 100), WatchStep::WaitFor(60));
    assert_eq!(watch_step(&heart, 1_160, 100), WatchStep::Kill);
    guard.end(&mut heart);
    disarm(&mut heart);
    assert_eq!(watch_step(&heart, 9_999, 100), WatchStep::Done);
}

#[test]
fn disarm_wakes_inactive_watchdog_promptly() {
    let mut heart = heartbeat();
    assert_eq!(watch_step(&heart, 0, 600_000), WatchStep::Wait);
    disarm(&mut heart);
    assert_eq!(watch_step(&heart, 1, 600_000), WatchStep::Done);
}
