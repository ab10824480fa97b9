use vshell::completion::{name_matches, search_target, FileCompleter, FsEntry};

fn entry(name: &str, is_dir: bool) -> FsEntry {
    FsEntry { name: name.to_string(), is_dir }
}

#[test]
fn extract_word_splits_at_last_space() {
    let c = FileCompleter::new();
    let (prefix, word) = c.extract_word("cat fo", 6);
    assert_eq!(prefix, "cat ");
    assert_eq!(word, "fo");
}

#[test]
fn extract_word_without_space() {
    let c = FileCompleter::new();
    let (prefix, word) = c.extract_word("ls", 2);
    assert_eq!(prefix, "");
    assert_eq!(word, "ls");
}

#[test]
fn extract_word_ignores_text_after_cursor() {
    let c = FileCompleter::new();
    let (prefix, word) = c.extract_word("cd src extra", 6);
    assert_eq!(prefix, "cd ");
    assert_eq!(word, "src");
}

#[test]
fn context_detects_cd() {
    let c = FileCompleter::new();
    assert!(c.context("cd sr", 5).is_cd_context);
    assert!(!c.context("cat sr", 6).is_cd_context);
    assert!(c.context("cd  ", 4).is_cd_context);
}

#[test]
fn context_carries_line_and_cursor() {
    let c = FileCompleter::new();
    let ctx = c.context("cd sr", 5);
    assert_eq!(ctx.full_line, "cd sr");
    assert_eq!(ctx.cursor_offset, 5);
    assert_eq!(ctx.word_prefix, "cd ");
    assert_eq!(ctx.partial_word, "sr");
}

#[test]
fn search_target_without_separator_uses_cwd() {
    let t = search_target("sr", "/home/u");
    assert_eq!(t.directory, "/home/u");
    assert_eq!(t.fragment, "sr");
}

#[test]
fn search_target_with_separator_splits_the_word() {
    let t = search_target("src/ma", "/home/u");
    assert_eq!(t.directory, "/home/u/src/");
    assert_eq!(t.fragment, "ma");
}

#[test]
fn search_target_absolute_word() {
    let t = search_target("/usr/lo", "/home/u");
    assert_eq!(t.directory, "/usr/");
    assert_eq!(t.fragment, "lo");
}

#[test]
fn search_target_trailing_separator_means_empty_fragment() {
    let t = search_target("src/", "/home/u");
    assert_eq!(t.directory, "/home/u/src/");
    assert_eq!(t.fragment, "");
}

#[test]
fn name_matching_is_case_insensitive() {
    assert!(name_matches("ReadMe.md", "re"));
    assert!(name_matches("readme.md", "RE"));
    assert!(name_matches("anything", ""));
    assert!(!name_matches("src", "re"));
}

#[test]
fn parent_word_yields_single_candidate_whatever_the_entries() {
    let c = FileCompleter::new();
    let entries = vec![entry("alpha", true), entry("beta.txt", false)];
    let got = c.get_completions("cd ..", 5, "/home/u", true, &entries);
    assert_eq!(got.len(), 1);
    assert_eq!(got[0].display, "../");
    assert_eq!(got[0].replacement, "../");
    assert!(got[0].is_directory);

    let no_entries: Vec<FsEntry> = Vec::new();
    let again = c.get_completions("cd ..", 5, "/home/u", true, &no_entries);
    assert_eq!(again.len(), 1);
    assert_eq!(again[0].replacement, "../");
}

#[test]
fn parent_word_without_parent_falls_back_to_matching() {
    let c = FileCompleter::new();
    let entries = vec![entry("..config", false), entry("main.rs", false)];
    let got = c.get_completions("cat ..", 6, "/", false, &entries);
    assert_eq!(got.len(), 1);
    assert_eq!(got[0].display, "..config");
}

#[test]
fn cd_context_keeps_only_directories() {
    let c = FileCompleter::new();
    let entries = vec![
        entry("notes.txt", false),
        entry("src", true),
        entry("build.log", false),
        entry("docs", true),
    ];
    let got = c.get_completions("cd ", 3, "/home/u", true, &entries);
    assert_eq!(got.len(), 2);
    assert!(got.iter().all(|cand| cand.is_directory));
    assert_eq!(got[0].display, "docs/");
    assert_eq!(got[1].display, "src/");
}

#[test]
fn candidates_are_directories_first_then_lexicographic() {
    let c = FileCompleter::new();
    let entries = vec![
        entry("b.txt", false),
        entry("A", true),
        entry("a.txt", false),
        entry("B", true),
    ];
    let got = c.get_completions("cat ", 4, "/home/u", true, &entries);
    let displays: Vec<&str> = got.iter().map(|cand| cand.display.as_str()).collect();
    assert_eq!(displays, vec!["A/", "B/", "a.txt", "b.txt"]);
}

#[test]
fn fragment_filters_candidates_case_insensitively() {
    let c = FileCompleter::new();
    let entries = vec![entry("readme.md", false), entry("src", true)];
    let got = c.get_completions("cat RE", 6, "/home/u", true, &entries);
    assert_eq!(got.len(), 1);
    assert_eq!(got[0].display, "readme.md");
    assert_eq!(got[0].replacement, "readme.md");
}

#[test]
fn replacement_keeps_the_directory_portion_of_the_word() {
    let c = FileCompleter::new();
    let entries = vec![entry("main.rs", false), entry("mod1", true)];
    let got = c.get_completions("cat src/m", 9, "/home/u", true, &entries);
    assert_eq!(got.len(), 2);
    assert_eq!(got[0].display, "mod1/");
    assert_eq!(got[0].replacement, "src/mod1/");
    assert_eq!(got[1].display, "main.rs");
    assert_eq!(got[1].replacement, "src/main.rs");
}

#[test]
fn trailing_space_shows_every_entry() {
    let c = FileCompleter::new();
    let entries = vec![entry("one", false), entry("two", false)];
    let got = c.get_completions("ls ", 3, "/home/u", true, &entries);
    assert_eq!(got.len(), 2);
}
