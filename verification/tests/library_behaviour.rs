use cchistory::{
    apply_limit_and_reverse, delete_mode, format_entry, format_entry_line, format_listing,
    make_predicate, matches_text, new_entry, new_entry_at, parse_all, search_mode, write_entry,
    Entry, History, SearchMode,
};

fn entry(command: &str, when: i64) -> Entry {
    Entry {
        command: command.into(),
        when,
        cwd: None,
        exit_code: None,
    }
}

fn text_of(entries: &[Entry]) -> String {
    let mut buf = String::new();
    for e in entries {
        write_entry(&mut buf, e);
    }
    buf
}

#[test]
fn written_text_is_fish_format() {
    let e = Entry {
        command: "git status".into(),
        when: 1715600000,
        cwd: Some("/home/user/project".into()),
        exit_code: Some(0),
    };
    assert_eq!(
        text_of(&[e]),
        "- cmd: git status\n  when: 1715600000\n  cwd: /home/user/project\n  exit_code: 0\n"
    );
}

#[test]
fn written_block_keeps_trailing_newline() {
    let e = entry("a\nb\n", 5);
    let text = text_of(&[e]);
    assert_eq!(text, "- cmd: |\n    a\n    b\n    \n  when: 5\n");
    let parsed = parse_all(&text);
    assert_eq!(parsed.len(), 1);
    assert_eq!(parsed[0].command, "a\nb\n");
}

#[test]
fn extreme_numbers_round_trip() {
    let e = Entry {
        command: "x".into(),
        when: i64::MIN,
        cwd: None,
        exit_code: Some(i32::MIN),
    };
    let f = Entry {
        command: "y".into(),
        when: i64::MAX,
        cwd: None,
        exit_code: Some(i32::MAX),
    };
    let parsed = parse_all(&text_of(&[e, f]));
    assert_eq!(parsed.len(), 2);
    assert_eq!(parsed[0].when, i64::MIN);
    assert_eq!(parsed[0].exit_code, Some(i32::MIN));
    assert_eq!(parsed[1].when, i64::MAX);
    assert_eq!(parsed[1].exit_code, Some(i32::MAX));
}

#[test]
fn numbers_are_read_as_str_parse_reads_them() {
    let parsed = parse_all("- cmd: a\n  when: +42\n  exit_code: -7\n");
    assert_eq!(parsed[0].when, 42);
    assert_eq!(parsed[0].exit_code, Some(-7));
    let parsed = parse_all("- cmd: b\n  when: 12abc\n  exit_code: 99999999999\n");
    assert!(parsed[0].when > 1_000_000_000);
    assert_eq!(parsed[0].exit_code, None);
    let parsed = parse_all("- cmd: c\n  when: -\n  exit_code: +\n");
    assert!(parsed[0].when > 1_000_000_000);
    assert_eq!(parsed[0].exit_code, None);
}

#[test]
fn crlf_lines_are_read() {
    let parsed = parse_all("- cmd: ls\r\n  when: 3\r\n  cwd: /tmp\r\n");
    assert_eq!(parsed.len(), 1);
    assert_eq!(parsed[0].command, "ls");
    assert_eq!(parsed[0].when, 3);
    assert_eq!(parsed[0].cwd.as_deref(), Some("/tmp"));
}

#[test]
fn fish_paths_are_skipped() {
    let text = "- cmd: vim a\n  when: 1\n  paths:\n    - a\n    - b\n\n- cmd: ls\n  when: 2\n";
    let parsed = parse_all(text);
    assert_eq!(parsed.len(), 2);
    assert_eq!(parsed[0].command, "vim a");
    assert_eq!(parsed[0].when, 1);
    assert_eq!(parsed[1].command, "ls");
    assert_eq!(parsed[1].when, 2);
}

#[test]
fn block_after_paths_is_read_as_block() {
    let text = "- cmd: vim a\n  when: 1\n  paths:\n    - a\n- cmd: |\n    echo hi\n    echo ho\n  when: 2\n";
    let parsed = parse_all(text);
    assert_eq!(parsed.len(), 2);
    assert_eq!(parsed[1].command, "echo hi\necho ho");
    assert_eq!(parsed[1].when, 2);
}

#[test]
fn multiline_entry_appended_after_paths_reads_back() {
    let mut hist = History::new("- cmd: vim a\n  when: 1\n  paths:\n    - a\n".to_string());
    hist.append(&entry("a\nb", 2));
    let all = hist.read_all();
    assert_eq!(all.len(), 2);
    assert_eq!(all[1].command, "a\nb");
    assert_eq!(all[1].when, 2);
}

#[test]
fn empty_pattern_matches_as_stated() {
    for cs in [true, false] {
        assert!(make_predicate("", SearchMode::Contains, cs).matches(&entry("X y", 1)));
        assert!(make_predicate("", SearchMode::Prefix, cs).matches(&entry("X y", 1)));
        assert!(!make_predicate("", SearchMode::Exact, cs).matches(&entry("X y", 1)));
        assert!(make_predicate("", SearchMode::Exact, cs).matches(&entry("", 1)));
    }
}

#[test]
fn new_entry_at_uses_the_given_time() {
    let e = new_entry_at("ls".into(), None, Some(2), 77).unwrap();
    assert_eq!(e.when, 77);
    assert_eq!(e.exit_code, Some(2));
    assert!(new_entry_at(String::new(), None, None, 77).is_none());
}

#[test]
fn listing_numbers_from_one_with_blank_lines() {
    let es = vec![entry("a", 1), entry("b", 2)];
    assert_eq!(
        format_listing(&es, false),
        "\x1b[2m   1\x1b[0m  \x1b[39ma\x1b[39m\n\n\x1b[2m   2\x1b[0m  \x1b[39mb\x1b[39m"
    );
    assert_eq!(format_listing(&Vec::new(), true), "");
}

#[test]
fn blank_line_in_block_is_an_empty_line() {
    let text = "- cmd: |\n    a\n   \n    b\n  when: 9\n";
    let parsed = parse_all(text);
    assert_eq!(parsed.len(), 1);
    assert_eq!(parsed[0].command, "a\n\nb");
}

#[test]
fn pipe_command_does_not_round_trip() {
    let text = text_of(&[entry("|", 4)]);
    assert_eq!(text, "- cmd: |\n  when: 4\n");
    assert_eq!(parse_all(&text).len(), 0);
}

#[test]
fn read_after_append_adds_the_entry() {
    let mut hist = History::new("- cmd: old\n  when: 1\n".to_string());
    hist.append(&Entry {
        command: "new\nline".into(),
        when: 2,
        cwd: Some("/w".into()),
        exit_code: Some(3),
    });
    let all = hist.read_all();
    assert_eq!(all.len(), 2);
    assert_eq!(all[0].command, "old");
    assert_eq!(all[1].command, "new\nline");
    assert_eq!(all[1].when, 2);
    assert_eq!(all[1].cwd.as_deref(), Some("/w"));
    assert_eq!(all[1].exit_code, Some(3));
}

#[test]
fn delete_splits_and_search_then_finds_nothing() {
    let mut hist = History::new(String::new());
    for (i, cmd) in ["git a", "ls", "GIT b", "pwd"].iter().enumerate() {
        hist.append(&entry(cmd, i as i64));
    }
    let removed = hist.delete("git", SearchMode::Prefix, false);
    assert_eq!(removed, 2);
    let rest = hist.read_all();
    assert_eq!(rest.len() + removed, 4);
    assert_eq!(rest[0].command, "ls");
    assert_eq!(rest[1].command, "pwd");
    assert_eq!(hist.search("git", SearchMode::Prefix, false).len(), 0);
    assert_eq!(hist.text(), "- cmd: ls\n  when: 1\n- cmd: pwd\n  when: 3\n");
}

#[test]
fn clear_reads_empty() {
    let mut hist = History::new("- cmd: a\n  when: 1\n".to_string());
    hist.clear();
    assert_eq!(hist.text(), "");
    assert_eq!(hist.read_all().len(), 0);
}

#[test]
fn merge_appends_the_incoming_entries() {
    let mut hist = History::new("- cmd: a\n  when: 1\n".to_string());
    let count = hist.merge("- cmd: b\n  when: 2\n  paths:\n    - x\n- cmd: c\n  when: 3\n");
    assert_eq!(count, 2);
    assert_eq!(
        hist.text(),
        "- cmd: a\n  when: 1\n- cmd: b\n  when: 2\n- cmd: c\n  when: 3\n"
    );
}

#[test]
fn exact_implies_prefix_implies_contains() {
    let e = entry("Git Status", 1);
    for cs in [true, false] {
        let exact = make_predicate("Git Status", SearchMode::Exact, cs).matches(&e);
        let prefix = make_predicate("Git Status", SearchMode::Prefix, cs).matches(&e);
        let contains = make_predicate("Git Status", SearchMode::Contains, cs).matches(&e);
        assert!(exact && prefix && contains);
    }
    assert!(make_predicate("git status", SearchMode::Exact, false).matches(&e));
    assert!(!make_predicate("git status", SearchMode::Exact, true).matches(&e));
}

#[test]
fn matches_text_modes() {
    assert!(matches_text("abc", "", SearchMode::Contains));
    assert!(matches_text("abc", "bc", SearchMode::Contains));
    assert!(!matches_text("abc", "bc", SearchMode::Prefix));
    assert!(!matches_text("ab", "abc", SearchMode::Prefix));
    assert!(matches_text("abc", "abc", SearchMode::Exact));
    assert!(!matches_text("abc", "ABC", SearchMode::Exact));
}

#[test]
fn search_and_delete_modes() {
    assert_eq!(search_mode(false, false), SearchMode::Contains);
    assert_eq!(search_mode(true, false), SearchMode::Exact);
    assert_eq!(search_mode(false, true), SearchMode::Prefix);
    assert_eq!(delete_mode(false, false), SearchMode::Exact);
    assert_eq!(delete_mode(true, false), SearchMode::Contains);
    assert_eq!(delete_mode(false, true), SearchMode::Prefix);
    assert_eq!(SearchMode::default(), SearchMode::Contains);
}

#[test]
fn listing_is_newest_first_and_limited() {
    let es = vec![entry("a", 1), entry("b", 2), entry("c", 3)];
    let shown = apply_limit_and_reverse(es.clone(), false, Some(2));
    assert_eq!(shown.len(), 2);
    assert_eq!(shown[0].command, "c");
    assert_eq!(shown[1].command, "b");
    let shown = apply_limit_and_reverse(es.clone(), true, None);
    assert_eq!(shown.len(), 3);
    assert_eq!(shown[0].command, "a");
    let shown = apply_limit_and_reverse(es, true, Some(10));
    assert_eq!(shown.len(), 3);
}

#[test]
fn new_entry_skips_empty_commands() {
    assert!(new_entry(String::new(), None, None).is_none());
    let e = new_entry("ls".into(), Some("/tmp".into()), Some(1)).unwrap();
    assert_eq!(e.command, "ls");
    assert_eq!(e.cwd.as_deref(), Some("/tmp"));
    assert_eq!(e.exit_code, Some(1));
    assert!(e.when > 1_000_000_000);
}

#[test]
fn listing_line_is_coloured() {
    assert_eq!(
        format_entry_line(1, None, "ls"),
        "\x1b[2m   1\x1b[0m  \x1b[39mls\x1b[39m"
    );
    assert_eq!(
        format_entry_line(12345, Some("T"), "ls"),
        "\x1b[2m12345\x1b[0m  \x1b[36mT\x1b[39m  \x1b[39mls\x1b[39m"
    );
    assert_eq!(
        format_entry(&entry("ls", 1), 7, false),
        "\x1b[2m   7\x1b[0m  \x1b[39mls\x1b[39m"
    );
}

#[test]
fn time_out_of_range_is_shown_as_seconds() {
    let line = format_entry(&entry("ls", i64::MAX), 1, true);
    assert!(line.contains("\x1b[36m9223372036854775807\x1b[39m"));
}
