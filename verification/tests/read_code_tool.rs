use agent_core::read_code::apply_context;
use agent_core::read_code::build_content;
use agent_core::read_code::display_path;
use agent_core::read_code::enforce_line_cap;
use agent_core::read_code::merge_ranges;
use agent_core::read_code::normalize_ranges;
use agent_core::read_code::read_code_output;
use agent_core::read_code::split_lines;
use agent_core::read_code::validate_read_code_request;
use agent_core::read_code::validate_within_workspace;
use agent_core::read_code::FunctionCallError;
use agent_core::read_code::LinesArg;
use agent_core::read_code::ReadCodeArgs;
use agent_core::session::SessionState;
use agent_core::text::take_bytes_at_char_boundary;
use agent_core::text::truncate_string_to_bytes;
use agent_core::text::truncated_notice;
use agent_core::turn::TurnState;

type TestTurn = TurnState<u32, String>;

#[test]
fn merges_overlapping_ranges() {
    let mut ranges = vec![(5, 10), (1, 3), (3, 7), (20, 25)];
    merge_ranges(&mut ranges);
    assert_eq!(ranges, vec![(1, 10), (20, 25)]);
}

#[test]
fn enforces_line_cap() {
    let ranges = vec![(1, 50), (60, 120)];
    let (limited, truncated) = enforce_line_cap(&ranges, 80);
    assert_eq!(limited, vec![(1, 50), (60, 89)]);
    assert!(truncated);
}

#[test]
fn build_content_honors_byte_budget() {
    let lines: Vec<Vec<u8>> = vec![b"line1\n".to_vec(), b"line2\n".to_vec(), b"line3\n".to_vec()];
    let ranges = vec![(1, 3)];
    let (content, served, truncated) = build_content(&ranges, &lines, 24);
    assert!(content.starts_with(b"lines 1-3:"));
    assert_eq!(served, vec![(1, 2)]);
    assert!(truncated);
}

#[test]
fn normalize_swaps_sorts_and_rejects_zero() {
    let mut ranges = vec![(9, 4), (1, 2)];
    normalize_ranges(&mut ranges).expect("nonzero endpoints are accepted");
    assert_eq!(ranges, vec![(1, 2), (4, 9)]);
    let mut bad = vec![(0, 4)];
    assert!(normalize_ranges(&mut bad).is_err());
    let mut bad = vec![(4, 0)];
    assert!(normalize_ranges(&mut bad).is_err());
}

#[test]
fn into_ranges_accepts_one_range_only() {
    assert_eq!(LinesArg::Pair([3, 9]).into_ranges().unwrap(), vec![(3, 9)]);
    assert_eq!(
        LinesArg::Object { start: 4, end: None }.into_ranges().unwrap(),
        vec![(4, 4)]
    );
    assert_eq!(
        LinesArg::Ranges(vec![[2, 5]]).into_ranges().unwrap(),
        vec![(2, 5)]
    );
    assert!(LinesArg::Ranges(vec![]).into_ranges().is_err());
    assert!(LinesArg::Ranges(vec![[1, 2], [4, 5]]).into_ranges().is_err());
}

#[test]
fn apply_context_expands_and_merges() {
    let ranges = vec![(5, 6), (9, 10)];
    let widened = apply_context(&ranges, 2, 100);
    assert_eq!(widened, vec![(3, 12)]);
    let widened = apply_context(&ranges, 0, 5);
    assert_eq!(widened, vec![(5, 5)]);
    assert_eq!(apply_context(&ranges, 1, 0), vec![]);
}

#[test]
fn split_lines_keeps_newlines() {
    let content = b"a\nbb\nccc".to_vec();
    let lines = split_lines(&content);
    assert_eq!(lines, vec![b"a\n".to_vec(), b"bb\n".to_vec(), b"ccc".to_vec()]);
    assert!(split_lines(&Vec::new()).is_empty());
}

#[test]
fn byte_boundary_helpers_respect_characters() {
    assert_eq!(take_bytes_at_char_boundary("abcdef", 4), "abcd");
    assert_eq!(take_bytes_at_char_boundary("ab\u{e9}f", 3), "ab");
    let mut s = "ab\u{e9}f".to_string();
    truncate_string_to_bytes(&mut s, 3);
    assert_eq!(s, "ab");
    let mut s = "abc".to_string();
    truncate_string_to_bytes(&mut s, 0);
    assert_eq!(s, "");
    assert_eq!(truncated_notice("notice", 3), "not");
    assert_eq!(truncated_notice("notice", 0), "");
    assert_eq!(truncated_notice("notice", 99), "notice");
}

#[test]
fn validate_rejects_blank_path_symbol_and_escapes() {
    let args = ReadCodeArgs {
        path: "  ".to_string(),
        lines: None,
        context: None,
        max_bytes: None,
        symbol: None,
    };
    assert!(validate_read_code_request(&args, "/work").is_err());
    let args = ReadCodeArgs { path: "src/a.rs".to_string(), symbol: Some("f".to_string()), ..args };
    assert!(validate_read_code_request(&args, "/work").is_err());
    let args = ReadCodeArgs { path: "/etc/passwd".to_string(), symbol: None, ..args };
    assert!(validate_read_code_request(&args, "/work").is_err());
    let args = ReadCodeArgs { path: "src/a.rs".to_string(), ..args };
    let resolved = validate_read_code_request(&args, "/work").expect("a relative path resolves");
    assert_eq!(resolved, "/work/src/a.rs");
    assert_eq!(display_path(&resolved, "/work"), "src/a.rs");
}

#[test]
fn workspace_check_matches_path_components() {
    assert!(validate_within_workspace("/work/src/a.rs", "/work").is_ok());
    assert!(validate_within_workspace("/work", "/work/").is_ok());
    assert_eq!(display_path("/work", "/work/"), "");
    assert!(validate_within_workspace("/worker/a.rs", "/work").is_err());
    assert!(validate_within_workspace("/else/a.rs", "/work").is_err());
}

fn read_args(lines: Option<LinesArg>) -> ReadCodeArgs {
    ReadCodeArgs {
        path: "file.rs".to_string(),
        lines,
        context: None,
        max_bytes: None,
        symbol: None,
    }
}

#[test]
fn read_code_serves_and_remembers_ranges() {
    let mut session = SessionState::new();
    let mut turn: TestTurn = TurnState::default();
    let contents = b"fn a() {}\nfn b() {}\nfn c() {}\nfn d() {}\nfn e() {}\n".to_vec();

    let out = read_code_output(
        &mut session,
        &mut turn,
        read_args(Some(LinesArg::Pair([1, 3]))),
        "file.rs",
        &contents,
    )
    .expect("a fresh range is served");
    assert!(out.starts_with("path: file.rs\n"));
    assert!(out.contains("lines 1-3:\n"));
    assert!(out.contains("fn a() {}\n"));

    // The same lines again: everything was already served.
    let out = read_code_output(
        &mut session,
        &mut turn,
        read_args(Some(LinesArg::Pair([1, 3]))),
        "file.rs",
        &contents,
    )
    .expect("a covered range still answers");
    assert!(out.contains("already provided earlier"));

    // An overlapping range serves only the new tail and says what it cut.
    let out = read_code_output(
        &mut session,
        &mut turn,
        read_args(Some(LinesArg::Pair([1, 5]))),
        "file.rs",
        &contents,
    )
    .expect("partially covered range is served");
    assert!(out.contains("lines 4-5:\n"));
    assert!(out.contains("[notice] trimmed 3 line(s)"));
}

#[test]
fn read_code_reports_an_empty_file() {
    let mut session = SessionState::new();
    let mut turn: TestTurn = TurnState::default();
    let out = read_code_output(&mut session, &mut turn, read_args(None), "file.rs", &Vec::new())
        .expect("an empty file is not an error");
    assert_eq!(out, "path: file.rs\n[notice] file is empty");
}

#[test]
fn read_code_rejects_lines_outside_the_file() {
    let mut session = SessionState::new();
    let mut turn: TestTurn = TurnState::default();
    let contents = b"one\ntwo\n".to_vec();
    let r = read_code_output(
        &mut session,
        &mut turn,
        read_args(Some(LinesArg::Pair([10, 20]))),
        "file.rs",
        &contents,
    );
    match r {
        Err(FunctionCallError::RespondToModel(msg)) => {
            assert_eq!(msg, "requested lines are outside the file");
        }
        _ => panic!("lines beyond the file are rejected"),
    }
}
