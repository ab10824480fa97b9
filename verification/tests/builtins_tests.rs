use vshell::builtins::{
    cd_target, help_names, is_builtin, parse_builtin, pushd_target, Builtin, DirState, PopdReport,
};

fn strs(v: &[&str]) -> Vec<String> {
    v.iter().map(|s| s.to_string()).collect()
}

#[test]
fn every_builtin_name_is_recognised() {
    for name in ["cd", "exit", "help", "clear", "pushd", "popd", "dirs"] {
        assert!(is_builtin(name), "{} should be a builtin", name);
    }
}

#[test]
fn external_names_are_not_builtins() {
    assert!(!is_builtin("ls"));
    assert!(!is_builtin(""));
    assert!(!is_builtin("cdd"));
    assert!(!is_builtin("Cd"));
}

#[test]
fn parse_builtin_maps_each_name() {
    assert_eq!(parse_builtin("cd"), Some(Builtin::Cd));
    assert_eq!(parse_builtin("exit"), Some(Builtin::Exit));
    assert_eq!(parse_builtin("help"), Some(Builtin::Help));
    assert_eq!(parse_builtin("clear"), Some(Builtin::Clear));
    assert_eq!(parse_builtin("pushd"), Some(Builtin::Pushd));
    assert_eq!(parse_builtin("popd"), Some(Builtin::Popd));
    assert_eq!(parse_builtin("dirs"), Some(Builtin::Dirs));
    assert_eq!(parse_builtin("grep"), None);
}

#[test]
fn help_lists_all_builtins_alphabetically() {
    let names = help_names();
    assert_eq!(names, strs(&["cd", "clear", "dirs", "exit", "help", "popd", "pushd"]));
    let mut sorted = names.clone();
    sorted.sort();
    assert_eq!(names, sorted);
}

#[test]
fn cd_uses_first_argument() {
    let t = cd_target(&strs(&["/tmp", "extra"]), Some("/home/u".to_string()));
    assert_eq!(t, Some("/tmp".to_string()));
}

#[test]
fn cd_without_argument_uses_home() {
    assert_eq!(cd_target(&Vec::new(), Some("/home/u".to_string())), Some("/home/u".to_string()));
    assert_eq!(cd_target(&Vec::new(), None), None);
}

#[test]
fn pushd_requires_an_argument() {
    assert_eq!(pushd_target(&Vec::new()), None);
    assert_eq!(pushd_target(&strs(&["/srv", "junk"])), Some("/srv".to_string()));
}

#[test]
fn pushd_then_popd_restores_everything() {
    let mut state = DirState::new("/home/u".to_string());
    state.pushd_commit("/tmp".to_string());
    assert_eq!(state.cwd, "/tmp");
    assert_eq!(state.stack, strs(&["/home/u"]));
    assert_eq!(state.popd_target(), Some("/home/u".to_string()));
    match state.apply_popd(true) {
        PopdReport::ChangedTo(p) => assert_eq!(p, "/home/u"),
        other => panic!("expected a successful pop, got {:?}", other),
    }
    assert_eq!(state.cwd, "/home/u");
    assert!(state.stack.is_empty());
    assert_eq!(state.depth(), 0);
}

#[test]
fn popd_on_empty_stack_reports_and_changes_nothing() {
    let mut state = DirState::new("/home/u".to_string());
    match state.apply_popd(true) {
        PopdReport::EmptyStack => {}
        other => panic!("expected the empty-stack report, got {:?}", other),
    }
    assert_eq!(state.cwd, "/home/u");
    assert!(state.stack.is_empty());
}

#[test]
fn failed_popd_leaves_the_stack_alone() {
    let mut state = DirState::new("/a".to_string());
    state.pushd_commit("/b".to_string());
    match state.apply_popd(false) {
        PopdReport::ChangeFailed(p) => assert_eq!(p, "/a"),
        other => panic!("expected the change-failed report, got {:?}", other),
    }
    assert_eq!(state.cwd, "/b");
    assert_eq!(state.stack, strs(&["/a"]));
}

#[test]
fn nested_pushd_orders_most_recent_first() {
    let mut state = DirState::new("/one".to_string());
    state.pushd_commit("/two".to_string());
    state.pushd_commit("/three".to_string());
    assert_eq!(state.cwd, "/three");
    assert_eq!(state.stack, strs(&["/two", "/one"]));
}

#[test]
fn dirs_line_lists_cwd_then_stack() {
    let mut state = DirState::new("/one".to_string());
    state.pushd_commit("/two".to_string());
    state.pushd_commit("/three".to_string());
    assert_eq!(state.dirs_line(), "/three /two /one");
}

#[test]
fn dirs_line_with_empty_stack_is_just_cwd() {
    let state = DirState::new("/only".to_string());
    assert_eq!(state.dirs_line(), "/only");
}

#[test]
fn plain_cd_does_not_touch_the_stack() {
    let mut state = DirState::new("/a".to_string());
    state.pushd_commit("/b".to_string());
    state.set_cwd("/c".to_string());
    assert_eq!(state.cwd, "/c");
    assert_eq!(state.stack, strs(&["/a"]));
}
