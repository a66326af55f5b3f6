//! A running command, from its start to its report.
use nian_workspace::tools::command::{
    shell_command, start_failed, CommandAction, CommandEvent, CommandReport, CommandRun, ExitInfo, Phase, Stream,
};
use nian_workspace::tools::CappedBytes;

const EXITED: ExitInfo = ExitInfo {
    code: Some(0),
    signal: None,
};

fn capped(bytes: &[u8], cap: usize) -> Option<CappedBytes> {
    let mut capped = CappedBytes::empty();
    for chunk in bytes.chunks(16) {
        capped.accept(chunk, cap);
    }
    Some(capped)
}

fn out(bytes: &[u8]) -> CommandEvent {
    CommandEvent::StreamEnded(Stream::Stdout, capped(bytes, 256))
}

fn err(bytes: &[u8]) -> CommandEvent {
    CommandEvent::StreamEnded(Stream::Stderr, capped(bytes, 256))
}

/// Plays events; tells the actions and the report.
fn play(timeout: u64, events: Vec<CommandEvent>) -> (Vec<CommandAction>, CommandReport) {
    let mut run = CommandRun::start(timeout);
    let mut actions = Vec::new();
    for event in events {
        let (next, action) = run.step(event);
        run = next;
        actions.push(action);
    }
    assert_eq!(run.phase, Phase::Finished);
    (actions, run.report(1234).unwrap())
}

#[test]
fn successful_command_reports_exit_and_output() {
    let (actions, report) = play(
        5,
        vec![out(b"hello\n"), err(b""), CommandEvent::Exited(EXITED)],
    );
    assert_eq!(actions.last(), Some(&CommandAction::Finish));
    assert_eq!(report.exit_code, Some(0));
    assert_eq!(report.stdout, "hello\n");
    assert_eq!(report.stderr, "");
    assert!(!report.timed_out);
    assert!(!report.truncated);
    assert_eq!(report.lossy_decoding, Some(false));
    assert_eq!(report.message, None);
    assert_eq!(report.duration_ms, 1234);
}

#[test]
fn failed_command_reports_nonzero_exit() {
    let exit = ExitInfo {
        code: Some(3),
        signal: None,
    };
    let (_, report) = play(5, vec![CommandEvent::Exited(exit), out(b""), err(b"no\n")]);
    assert_eq!(report.exit_code, Some(3));
    assert_eq!(report.stderr, "no\n");
    assert!(!report.timed_out);
}

#[test]
fn timeout_kills_process_and_reports_metadata() {
    let (actions, report) = play(
        1,
        vec![
            CommandEvent::Lapsed,
            CommandEvent::Reaped(true),
            out(b""),
            err(b""),
        ],
    );
    assert_eq!(
        actions,
        vec![
            CommandAction::TerminateTree,
            CommandAction::Wait,
            CommandAction::Wait,
            CommandAction::Finish
        ]
    );
    assert!(report.timed_out);
    assert_eq!(report.exit_code, None);
    assert_eq!(report.lossy_decoding, None);
    assert_eq!(
        report.message.unwrap(),
        "Command exceeded the 1 second timeout and was terminated."
    );
}

#[test]
fn output_emitted_before_timeout_is_preserved() {
    let (_, report) = play(
        1,
        vec![
            CommandEvent::Lapsed,
            out(b"early\n"),
            err(b"warn\n"),
            CommandEvent::Reaped(true),
        ],
    );
    assert!(report.timed_out);
    assert_eq!(report.stdout, "early\n");
    assert_eq!(report.stderr, "warn\n");
    assert!(!report.truncated);
}

#[test]
fn escaped_pipe_holder_cannot_turn_normal_exit_into_timeout() {
    let (actions, report) = play(
        5,
        vec![
            CommandEvent::Exited(EXITED),
            CommandEvent::Lapsed,
            CommandEvent::Lapsed,
        ],
    );
    assert_eq!(
        actions,
        vec![
            CommandAction::Wait,
            CommandAction::TerminateDescendants,
            CommandAction::Finish
        ]
    );
    assert!(!report.timed_out);
    assert_eq!(report.exit_code, Some(0));
    assert!(report.truncated);
    assert!(report.message.unwrap().contains("incomplete"));
}

#[test]
fn completed_stdout_survives_pending_stderr_holder() {
    let (_, report) = play(
        5,
        vec![
            out(b"kept\n"),
            CommandEvent::Exited(EXITED),
            CommandEvent::Lapsed,
            CommandEvent::Lapsed,
        ],
    );
    assert_eq!(report.stdout, "kept\n");
    assert_eq!(report.stderr, "");
    assert!(!report.timed_out);
}

#[test]
fn completed_stderr_survives_pending_stdout_holder() {
    let (_, report) = play(
        5,
        vec![
            CommandEvent::Exited(EXITED),
            err(b"kept\n"),
            CommandEvent::Lapsed,
            CommandEvent::Lapsed,
        ],
    );
    assert_eq!(report.stderr, "kept\n");
    assert_eq!(report.stdout, "");
}

#[test]
fn post_timeout_cleanup_cannot_block_indefinitely() {
    let run = CommandRun::start(7);
    assert_eq!(run.window_secs(), 7);
    let (run, action) = run.step(CommandEvent::Lapsed);
    assert_eq!(action, CommandAction::TerminateTree);
    assert_eq!(run.window_secs(), 3);
    let (run, action) = run.step(CommandEvent::Lapsed);
    assert_eq!(action, CommandAction::Finish);
    assert_eq!(run.window_secs(), 0);
    let report = run.report(u128::MAX).unwrap();
    assert!(report.timed_out);
    assert_eq!(report.duration_ms, u64::MAX);
    assert_eq!(
        report.message.unwrap(),
        "Command exceeded the 7 second timeout and was terminated; some post-kill cleanup did not finish within its grace period."
    );
}

#[test]
fn output_truncation_is_reported() {
    let (_, report) = play(
        5,
        vec![
            CommandEvent::StreamEnded(Stream::Stdout, capped(&[b'x'; 100], 64)),
            err(b""),
            CommandEvent::Exited(EXITED),
        ],
    );
    assert!(report.truncated);
    assert!(report.stdout.len() <= 64);
}

#[test]
fn terminated_child_exit_reflects_signal() {
    let exit = ExitInfo {
        code: None,
        signal: Some(9),
    };
    let (_, report) = play(5, vec![out(b""), err(b""), CommandEvent::Exited(exit)]);
    assert_eq!(report.exit_code, Some(-1));
    assert_eq!(report.signal.unwrap(), "SIG9");
    assert!(!report.timed_out);
}

#[test]
fn undecodable_output_is_flagged() {
    let (_, report) = play(
        5,
        vec![out(b"a\xffb"), err(b""), CommandEvent::Exited(EXITED)],
    );
    assert_eq!(report.stdout, "a\u{FFFD}b");
    assert_eq!(report.lossy_decoding, Some(true));
}

#[test]
fn failed_waits_are_errors() {
    let (run, action) =
        CommandRun::start(5).step(CommandEvent::WaitFailed("interrupted".to_string()));
    assert_eq!(action, CommandAction::Finish);
    assert_eq!(
        run.report(0).unwrap_err().message(),
        "Command I/O failed: interrupted"
    );
}

#[test]
fn missing_program_yields_clear_error() {
    let err = start_failed("No such file or directory (os error 2)").message();
    assert_eq!(
        err,
        "Failed to start command: No such file or directory (os error 2)"
    );
}

#[test]
fn capped_reader_reports_truncation() {
    let capped = capped(&[b'x'; 100], 10).unwrap();
    assert_eq!(capped.bytes.len(), 10);
    assert!(capped.truncated);

    let mut short = CappedBytes::empty();
    short.accept(b"short", 10);
    assert_eq!(short.bytes, b"short");
    assert!(!short.truncated);
}

#[test]
fn shells_follow_the_platform() {
    assert_eq!(
        shell_command(false, "echo hi"),
        vec!["/bin/sh".to_string(), "-c".to_string(), "echo hi".to_string()]
    );
    assert_eq!(
        shell_command(true, "echo hi"),
        vec!["cmd".to_string(), "/C".to_string(), "echo hi".to_string()]
    );
}
