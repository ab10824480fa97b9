use vshell::classify::{classify_line, tokenize, ClassifyError, ExecutionRequest, RedirectKind};

fn strs(v: &[&str]) -> Vec<String> {
    v.iter().map(|s| s.to_string()).collect()
}

#[test]
fn tokenize_splits_on_whitespace() {
    assert_eq!(tokenize("echo hello world"), strs(&["echo", "hello", "world"]));
}

#[test]
fn tokenize_collapses_runs_and_trims() {
    assert_eq!(tokenize("  ls \t -l  \n"), strs(&["ls", "-l"]));
}

#[test]
fn tokenize_empty_and_blank() {
    assert_eq!(tokenize(""), Vec::<String>::new());
    assert_eq!(tokenize(" \t "), Vec::<String>::new());
}

#[test]
fn plain_line_first_token_is_command() {
    match classify_line("ls -l -a").unwrap() {
        ExecutionRequest::Plain { command, args } => {
            assert_eq!(command, "ls");
            assert_eq!(args, strs(&["-l", "-a"]));
        }
        other => panic!("expected a plain request, got {:?}", other),
    }
}

#[test]
fn plain_line_no_args() {
    match classify_line("pwd").unwrap() {
        ExecutionRequest::Plain { command, args } => {
            assert_eq!(command, "pwd");
            assert!(args.is_empty());
        }
        other => panic!("expected a plain request, got {:?}", other),
    }
}

#[test]
fn blank_line_is_rejected() {
    assert_eq!(classify_line("").unwrap_err(), ClassifyError::EmptyLine);
    assert_eq!(classify_line("   ").unwrap_err(), ClassifyError::EmptyLine);
}

#[test]
fn pipe_splits_at_first_separator() {
    match classify_line("echo hello | wc -l").unwrap() {
        ExecutionRequest::Piped { left_command, left_args, right_command, right_args } => {
            assert_eq!(left_command, "echo");
            assert_eq!(left_args, strs(&["hello"]));
            assert_eq!(right_command, "wc");
            assert_eq!(right_args, strs(&["-l"]));
        }
        other => panic!("expected a piped request, got {:?}", other),
    }
}

#[test]
fn pipe_missing_right_side_is_reported() {
    assert_eq!(classify_line("echo hi |").unwrap_err(), ClassifyError::EmptyPipeSide);
}

#[test]
fn pipe_missing_left_side_is_reported() {
    assert_eq!(classify_line("| wc").unwrap_err(), ClassifyError::EmptyPipeSide);
}

#[test]
fn output_redirection_takes_file_after_symbol() {
    match classify_line("echo hi > out.txt").unwrap() {
        ExecutionRequest::Redirected { command, args, direction, file } => {
            assert_eq!(command, "echo");
            assert_eq!(args, strs(&["hi"]));
            assert_eq!(direction, RedirectKind::Output);
            assert_eq!(file, "out.txt");
        }
        other => panic!("expected a redirected request, got {:?}", other),
    }
}

#[test]
fn output_redirection_ignores_tokens_after_target() {
    match classify_line("cmd a > first second third").unwrap() {
        ExecutionRequest::Redirected { command, args, direction, file } => {
            assert_eq!(command, "cmd");
            assert_eq!(args, strs(&["a"]));
            assert_eq!(direction, RedirectKind::Output);
            assert_eq!(file, "first");
        }
        other => panic!("expected a redirected request, got {:?}", other),
    }
}

#[test]
fn input_redirection() {
    match classify_line("wc -l < in.txt").unwrap() {
        ExecutionRequest::Redirected { command, args, direction, file } => {
            assert_eq!(command, "wc");
            assert_eq!(args, strs(&["-l"]));
            assert_eq!(direction, RedirectKind::Input);
            assert_eq!(file, "in.txt");
        }
        other => panic!("expected a redirected request, got {:?}", other),
    }
}

#[test]
fn output_symbol_wins_over_input_symbol() {
    match classify_line("cmd < in > out").unwrap() {
        ExecutionRequest::Redirected { command, args, direction, file } => {
            assert_eq!(command, "cmd");
            assert_eq!(args, strs(&["<", "in"]));
            assert_eq!(direction, RedirectKind::Output);
            assert_eq!(file, "out");
        }
        other => panic!("expected a redirected request, got {:?}", other),
    }
}

#[test]
fn redirect_without_target_is_reported() {
    assert_eq!(classify_line("echo hi >").unwrap_err(), ClassifyError::MissingRedirectTarget);
}

#[test]
fn redirect_without_command_is_reported() {
    assert_eq!(classify_line("> out.txt").unwrap_err(), ClassifyError::MissingCommand);
}

#[test]
fn redirect_symbol_inside_word_is_reported() {
    assert_eq!(classify_line("a>b").unwrap_err(), ClassifyError::RedirectSymbolInWord);
}

#[test]
fn pipe_checked_before_redirect() {
    match classify_line("cat < in | wc").unwrap() {
        ExecutionRequest::Piped { left_command, left_args, right_command, right_args } => {
            assert_eq!(left_command, "cat");
            assert_eq!(left_args, strs(&["<", "in"]));
            assert_eq!(right_command, "wc");
            assert!(right_args.is_empty());
        }
        other => panic!("expected a piped request, got {:?}", other),
    }
}
