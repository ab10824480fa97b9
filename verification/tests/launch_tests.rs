use vshell::launch::{
    captured_report, plain_report, status_warns, wire_pipeline, ChildOutcome, Stage, StdinWiring,
    StdoutWiring,
};

fn outcome(code: Option<i32>, stdout: &[u8], stderr: &[u8]) -> ChildOutcome {
    ChildOutcome { code, stdout: stdout.to_vec(), stderr: stderr.to_vec() }
}

#[test]
fn successful_command_prints_its_output() {
    let r = plain_report(&outcome(Some(0), b"hello\n", b""));
    assert!(r.print_stdout);
    assert!(!r.print_stderr);
    assert!(!r.warn_failure);
}

#[test]
fn successful_command_with_empty_output_prints_nothing() {
    let r = plain_report(&outcome(Some(0), b"", b""));
    assert!(!r.print_stdout);
    assert!(!r.print_stderr);
    assert!(!r.warn_failure);
}

#[test]
fn failed_command_warns_and_shows_stderr() {
    let r = plain_report(&outcome(Some(2), b"partial", b"oops\n"));
    assert!(!r.print_stdout);
    assert!(r.print_stderr);
    assert!(r.warn_failure);
}

#[test]
fn signal_ended_command_warns() {
    let r = plain_report(&outcome(None, b"", b""));
    assert!(r.warn_failure);
}

#[test]
fn captured_report_shows_both_streams_when_nonempty() {
    let r = captured_report(&outcome(Some(0), b"out", b"err"));
    assert!(r.print_stdout);
    assert!(r.print_stderr);
    assert!(!r.warn_failure);
    let quiet = captured_report(&outcome(Some(1), b"", b""));
    assert!(!quiet.print_stdout);
    assert!(!quiet.print_stderr);
    assert!(quiet.warn_failure);
}

#[test]
fn status_only_invocations_warn_on_failure() {
    assert!(!status_warns(&Some(0)));
    assert!(status_warns(&Some(1)));
    assert!(status_warns(&None));
}

#[test]
fn two_stage_pipe_shows_output_only_from_the_right() {
    let stages = vec![
        Stage { command: "echo".to_string(), args: vec!["hello".to_string()] },
        Stage { command: "wc".to_string(), args: vec!["-l".to_string()] },
    ];
    let wired = wire_pipeline(stages);
    assert_eq!(wired.len(), 2);
    assert_eq!(wired[0].command, "echo");
    assert_eq!(wired[0].stdin, StdinWiring::Inherited);
    assert_eq!(wired[0].stdout, StdoutWiring::ToNextStage);
    assert_eq!(wired[1].command, "wc");
    assert_eq!(wired[1].stdin, StdinWiring::FromPreviousStage);
    assert_eq!(wired[1].stdout, StdoutWiring::Inherited);
    let writers: Vec<_> =
        wired.iter().filter(|s| s.stdout == StdoutWiring::Inherited).collect();
    assert_eq!(writers.len(), 1);
}

#[test]
fn single_stage_inherits_both_ends() {
    let stages = vec![Stage { command: "ls".to_string(), args: Vec::new() }];
    let wired = wire_pipeline(stages);
    assert_eq!(wired.len(), 1);
    assert_eq!(wired[0].stdin, StdinWiring::Inherited);
    assert_eq!(wired[0].stdout, StdoutWiring::Inherited);
}
