use cchistory::{
    apply_limit_and_reverse, delete_mode, format_entry, format_entry_line, make_predicate,
    matches_text, new_entry, parse_all, search_mode, write_entry, Entry, History, SearchMode,
};

fn parse_str(s: &str) -> Vec<Entry> {
    parse_all(s)
}

fn write_to_string(entries: &[Entry]) -> String {
    let mut buf = String::new();
    for e in entries {
        write_entry(&mut buf, e);
    }
    buf
}

fn entry(command: &str) -> Entry {
    Entry {
        command: command.into(),
        when: 1715600000,
        cwd: None,
        exit_code: None,
    }
}

const SAMPLE_HISTORY: &str = "\
- cmd: git status
  when: 1715600000
  cwd: /home/user/project
  exit_code: 0
- cmd: Cargo Build
  when: 1715600001
  cwd: /home/user/project
- cmd: ls -la
  when: 1715600002
  exit_code: 0
- cmd: git push origin main
  when: 1715600003
  cwd: /home/user/project
  exit_code: 0
";

#[test]
fn parse_fish_format() {
    let entries = parse_str(SAMPLE_HISTORY);
    assert_eq!(entries.len(), 4);
    assert_eq!(entries[0].command, "git status");
    assert_eq!(entries[0].when, 1715600000);
    assert_eq!(entries[0].cwd.as_deref(), Some("/home/user/project"));
    assert_eq!(entries[0].exit_code, Some(0));
    assert_eq!(entries[2].command, "ls -la");
    assert_eq!(entries[2].cwd, None);
}

#[test]
fn parse_empty() {
    let entries = parse_str("");
    assert_eq!(entries.len(), 0);
}

#[test]
fn parse_missing_when() {
    let entries = parse_str("- cmd: echo hello\n");
    assert_eq!(entries.len(), 1);
    assert_eq!(entries[0].command, "echo hello");
    // when defaults to current timestamp, so just verify it's > 0
    assert!(entries[0].when > 0);
}

#[test]
fn write_round_trip() {
    let original = vec![
        Entry {
            command: "git status".into(),
            when: 1715600000,
            cwd: Some("/home/user/project".into()),
            exit_code: Some(0),
        },
        Entry {
            command: "ls -la".into(),
            when: 1715600001,
            cwd: None,
            exit_code: None,
        },
    ];
    let serialized = write_to_string(&original);
    let parsed = parse_str(&serialized);
    assert_eq!(parsed.len(), 2);
    assert_eq!(parsed[0].command, "git status");
    assert_eq!(parsed[0].when, 1715600000);
    assert_eq!(parsed[0].cwd.as_deref(), Some("/home/user/project"));
    assert_eq!(parsed[0].exit_code, Some(0));
    assert_eq!(parsed[1].command, "ls -la");
    assert_eq!(parsed[1].cwd, None);
    assert_eq!(parsed[1].exit_code, None);
}

#[test]
fn write_round_trip_multiline_heredoc() {
    let original = vec![Entry {
        command: "python3 << 'PYEOF'\nimport re\nprint('hello')\nPYEOF".into(),
        when: 1715600000,
        cwd: Some("/home/user/project".into()),
        exit_code: Some(0),
    }];
    let serialized = write_to_string(&original);
    let parsed = parse_str(&serialized);
    assert_eq!(parsed.len(), 1);
    assert_eq!(
        parsed[0].command,
        "python3 << 'PYEOF'\nimport re\nprint('hello')\nPYEOF"
    );
    assert_eq!(parsed[0].when, 1715600000);
    assert_eq!(parsed[0].cwd.as_deref(), Some("/home/user/project"));
    assert_eq!(parsed[0].exit_code, Some(0));
}

#[test]
fn write_round_trip_multiline_backslash() {
    let original = vec![Entry {
        command: "sed -i \\\n  -e 's/foo/bar/g' \\\n  output.md".into(),
        when: 1715600000,
        cwd: None,
        exit_code: None,
    }];
    let serialized = write_to_string(&original);
    let parsed = parse_str(&serialized);
    assert_eq!(parsed.len(), 1);
    assert_eq!(
        parsed[0].command,
        "sed -i \\\n  -e 's/foo/bar/g' \\\n  output.md"
    );
    assert_eq!(parsed[0].when, 1715600000);
}

#[test]
fn parse_mixed_single_and_multiline() {
    let input = "\
- cmd: git status
  when: 1
- cmd: |
    echo hello
    echo world
  when: 2
- cmd: ls -la
  when: 3
";
    let entries = parse_str(input);
    assert_eq!(entries.len(), 3);
    assert_eq!(entries[0].command, "git status");
    assert_eq!(entries[1].command, "echo hello\necho world");
    assert_eq!(entries[2].command, "ls -la");
}

#[test]
fn write_round_trip_multiline_with_empty_lines() {
    let original = vec![Entry {
        command: "python3 << 'EOF'\n\nprint('hello')\n\nEOF".into(),
        when: 1715600000,
        cwd: None,
        exit_code: None,
    }];
    let serialized = write_to_string(&original);
    let parsed = parse_str(&serialized);
    assert_eq!(parsed.len(), 1);
    assert_eq!(
        parsed[0].command,
        "python3 << 'EOF'\n\nprint('hello')\n\nEOF"
    );
}

#[test]
fn single_line_pipe_character_not_confused_with_block() {
    // A command containing a pipe should NOT trigger block mode
    let input = "\
- cmd: echo foo | bar
  when: 1
";
    let entries = parse_str(input);
    assert_eq!(entries.len(), 1);
    assert_eq!(entries[0].command, "echo foo | bar");
}

// -- Search mode tests --

#[test]
fn search_contains_default() {
    let pred = make_predicate("git", SearchMode::Contains, false);
    let entry = Entry {
        command: "git status".into(),
        when: 1,
        cwd: None,
        exit_code: None,
    };
    assert!(pred.matches(&entry));
    let entry2 = Entry {
        command: "cargo build".into(),
        when: 1,
        cwd: None,
        exit_code: None,
    };
    assert!(!pred.matches(&entry2));
}

#[test]
fn search_exact() {
    let pred = make_predicate("git status", SearchMode::Exact, false);
    assert!(pred.matches(&Entry {
        command: "git status".into(),
        when: 1,
        cwd: None,
        exit_code: None
    }));
    assert!(pred.matches(&Entry {
        command: "GIT STATUS".into(),
        when: 1,
        cwd: None,
        exit_code: None
    }));
    assert!(!pred.matches(&Entry {
        command: "git status -v".into(),
        when: 1,
        cwd: None,
        exit_code: None
    }));
}

#[test]
fn search_exact_case_sensitive() {
    let pred = make_predicate("git status", SearchMode::Exact, true);
    assert!(pred.matches(&Entry {
        command: "git status".into(),
        when: 1,
        cwd: None,
        exit_code: None
    }));
    assert!(!pred.matches(&Entry {
        command: "GIT STATUS".into(),
        when: 1,
        cwd: None,
        exit_code: None
    }));
}

#[test]
fn search_prefix() {
    let pred = make_predicate("git", SearchMode::Prefix, false);
    assert!(pred.matches(&Entry {
        command: "git status".into(),
        when: 1,
        cwd: None,
        exit_code: None
    }));
    assert!(pred.matches(&Entry {
        command: "git push".into(),
        when: 1,
        cwd: None,
        exit_code: None
    }));
    assert!(!pred.matches(&Entry {
        command: "cargo git".into(),
        when: 1,
        cwd: None,
        exit_code: None
    }));
}

#[test]
fn search_contains_case_insensitive() {
    let pred = make_predicate("BUILD", SearchMode::Contains, false);
    let entries = parse_str(SAMPLE_HISTORY);
    let matches: Vec<_> = entries.iter().filter(|e| pred.matches(e)).collect();
    assert_eq!(matches.len(), 1);
    assert_eq!(matches[0].command, "Cargo Build");
}

#[test]
fn search_contains_case_sensitive() {
    let pred = make_predicate("BUILD", SearchMode::Contains, true);
    let entries = parse_str(SAMPLE_HISTORY);
    let matches: Vec<_> = entries.iter().filter(|e| pred.matches(e)).collect();
    assert_eq!(matches.len(), 0);

    let pred = make_predicate("Build", SearchMode::Contains, true);
    let matches: Vec<_> = entries.iter().filter(|e| pred.matches(e)).collect();
    assert_eq!(matches.len(), 1);
}

// -- Formatting tests --

#[test]
fn format_entry_without_time() {
    let entry = Entry {
        command: "git status".into(),
        when: 1715600000,
        cwd: None,
        exit_code: None,
    };
    let formatted = format_entry(&entry, 1, false);
    assert!(formatted.contains("git status"));
    assert!(formatted.contains("1"));
}

#[test]
fn format_entry_with_time() {
    let entry = Entry {
        command: "git status".into(),
        when: 1715600000,
        cwd: None,
        exit_code: None,
    };
    let formatted = format_entry(&entry, 1, true);
    assert!(formatted.contains("git status"));
    assert!(
        formatted.contains("2024-05-13"),
        "expected datetime, got: {}",
        formatted
    );
}

// -- History operation tests (on the text of the history file) --

fn temp_history() -> History {
    History::new(String::new())
}

#[test]
fn append_and_read() {
    let mut hist = temp_history();
    let entry = Entry {
        command: "echo test".into(),
        when: 1715600000,
        cwd: Some("/tmp".into()),
        exit_code: Some(0),
    };
    hist.append(&entry);
    let entries = hist.read_all();
    assert_eq!(entries.len(), 1);
    assert_eq!(entries[0].command, "echo test");
    assert_eq!(entries[0].cwd.as_deref(), Some("/tmp"));
}

#[test]
fn search_in_history() {
    let mut hist = temp_history();
    for cmd in &["git status", "cargo build", "git push"] {
        hist.append(&Entry {
            command: cmd.to_string(),
            when: 1715600000,
            cwd: None,
            exit_code: None,
        });
    }
    let results = hist.search("git", SearchMode::Contains, false);
    assert_eq!(results.len(), 2);
}

#[test]
fn search_exact_in_history() {
    let mut hist = temp_history();
    for cmd in &["git status", "git status -v", "cargo build"] {
        hist.append(&Entry {
            command: cmd.to_string(),
            when: 1715600000,
            cwd: None,
            exit_code: None,
        });
    }
    let results = hist.search("git status", SearchMode::Exact, false);
    assert_eq!(results.len(), 1);
    assert_eq!(results[0].command, "git status");
}

#[test]
fn delete_entries() {
    let mut hist = temp_history();
    for cmd in &["git status", "npm install", "git push"] {
        hist.append(&Entry {
            command: cmd.to_string(),
            when: 1715600000,
            cwd: None,
            exit_code: None,
        });
    }
    let count = hist.delete("git", SearchMode::Contains, false);
    assert_eq!(count, 2);
    let remaining = hist.read_all();
    assert_eq!(remaining.len(), 1);
    assert_eq!(remaining[0].command, "npm install");
}

#[test]
fn delete_default_is_exact() {
    let mut hist = temp_history();
    for cmd in &["git status", "git status -v", "cargo build"] {
        hist.append(&Entry {
            command: cmd.to_string(),
            when: 1715600000,
            cwd: None,
            exit_code: None,
        });
    }
    // Exact match (default for delete)
    let count = hist.delete("git status", SearchMode::Exact, false);
    assert_eq!(count, 1);
    let remaining = hist.read_all();
    assert_eq!(remaining.len(), 2);
}

#[test]
fn clear_history() {
    let mut hist = temp_history();
    for cmd in &["cmd1", "cmd2", "cmd3"] {
        hist.append(&Entry {
            command: cmd.to_string(),
            when: 1715600000,
            cwd: None,
            exit_code: None,
        });
    }
    hist.clear();
    let entries = hist.read_all();
    assert_eq!(entries.len(), 0);
}

#[test]
fn merge_entries() {
    let mut hist = temp_history();
    // Add one entry directly
    hist.append(&Entry {
        command: "existing".into(),
        when: 1,
        cwd: None,
        exit_code: None,
    });
    // Merge two more from a reader
    let incoming = "- cmd: merged_one\n  when: 2\n- cmd: merged_two\n  when: 3\n";
    let count = hist.merge(incoming);
    assert_eq!(count, 2);
    let entries = hist.read_all();
    assert_eq!(entries.len(), 3);
    assert_eq!(entries[0].command, "existing");
    assert_eq!(entries[1].command, "merged_one");
    assert_eq!(entries[2].command, "merged_two");
}
