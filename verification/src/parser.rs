use vstd::prelude::*;

use crate::entry::{entries_fit, entries_view, entry_fits, Entry, EntryRecord, EntryView};
use crate::numeric::{parse_i32, parse_i32_spec, parse_i64, parse_i64_spec};
use crate::text::{
    all_space, all_space_exec, chars_eq, chars_of, has_prefix, join_lines, join_lines_exec,
    lines_view, split_lines, split_lines_exec, starts_with, string_of, suffix_from,
};
use crate::writer::{
    lit_cmd, lit_cmd_block, lit_cmd_block_exec, lit_cmd_exec, lit_cwd, lit_cwd_exec, lit_exit,
    lit_exit_exec, lit_indent, lit_indent_exec, lit_path_item, lit_path_item_exec, lit_paths,
    lit_paths_exec, lit_when, lit_when_exec,
};

verus! {

// ---------------------------------------------------------------------------
// The reader as a state machine over lines
// ---------------------------------------------------------------------------

/// Where the reader stands between two lines.
#[derive(Debug, Clone, Copy, PartialEq, Eq, Structural)]
pub enum Mode {
    /// Between directives.
    Normal,
    /// Inside a block of command lines.
    Block,
    /// Inside a list of paths, skipped.
    Paths,
}

/// The entry that the reader is gathering.
pub struct BuilderView {
    pub command: Option<Seq<char>>,
    pub when: Option<i64>,
    pub cwd: Option<Seq<char>>,
    pub exit_code: Option<i32>,
    pub block: Seq<Seq<char>>,
}

/// The state of the reader: the entries read so far, the entry being gathered, the mode.
pub struct ParseState {
    pub entries: Seq<EntryRecord>,
    pub cur: BuilderView,
    pub mode: Mode,
}

pub open spec fn empty_builder() -> BuilderView {
    BuilderView { command: None, when: None, cwd: None, exit_code: None, block: Seq::empty() }
}

pub open spec fn initial_state() -> ParseState {
    ParseState { entries: Seq::empty(), cur: empty_builder(), mode: Mode::Normal }
}

/// The entry that a gathered builder gives: its command, or else its block lines joined by
/// `'\n'`; none without either.
pub open spec fn finish(b: BuilderView) -> Option<EntryRecord> {
    let command = if b.command is None && b.block.len() > 0 {
        Some(join_lines(b.block))
    } else {
        b.command
    };
    match command {
        Some(c) => Some(EntryRecord { command: c, when: b.when, cwd: b.cwd, exit_code: b.exit_code }),
        None => None,
    }
}

/// The entries read so far with the gathered one added, where it gives one.
pub open spec fn flushed(st: ParseState) -> Seq<EntryRecord> {
    match finish(st.cur) {
        Some(r) => st.entries.push(r),
        None => st.entries,
    }
}

/// What follows the first `k` characters of a line.
pub open spec fn rest(line: Seq<char>, k: nat) -> Seq<char> {
    line.subrange(k as int, line.len() as int)
}

/// A top-level line: a new entry, a field of the current one, the start of a list of
/// paths, or something else, which is passed over.
pub open spec fn directive(st: ParseState, line: Seq<char>) -> ParseState {
    if line == lit_cmd_block() {
        ParseState { entries: flushed(st), cur: empty_builder(), mode: Mode::Block }
    } else if has_prefix(line, lit_cmd()) {
        ParseState {
            entries: flushed(st),
            cur: BuilderView { command: Some(rest(line, 7)), ..empty_builder() },
            mode: Mode::Normal,
        }
    } else if has_prefix(line, lit_when()) {
        ParseState {
            cur: BuilderView { when: parse_i64_spec(rest(line, 8)), ..st.cur },
            mode: Mode::Normal,
            ..st
        }
    } else if has_prefix(line, lit_cwd()) {
        ParseState { cur: BuilderView { cwd: Some(rest(line, 7)), ..st.cur }, mode: Mode::Normal, ..st }
    } else if has_prefix(line, lit_exit()) {
        ParseState {
            cur: BuilderView { exit_code: parse_i32_spec(rest(line, 13)), ..st.cur },
            mode: Mode::Normal,
            ..st
        }
    } else if has_prefix(line, lit_paths()) {
        ParseState { mode: Mode::Paths, ..st }
    } else {
        ParseState { mode: Mode::Normal, ..st }
    }
}

/// The first line after a list of paths: read as a directive, except that it does not open
/// a second list of paths.
pub open spec fn paths_directive(st: ParseState, line: Seq<char>) -> ParseState {
    if line == lit_cmd_block() {
        ParseState { entries: flushed(st), cur: empty_builder(), mode: Mode::Block }
    } else if has_prefix(line, lit_cmd()) {
        ParseState {
            entries: flushed(st),
            cur: BuilderView { command: Some(rest(line, 7)), ..empty_builder() },
            mode: Mode::Normal,
        }
    } else if has_prefix(line, lit_when()) {
        ParseState {
            cur: BuilderView { when: parse_i64_spec(rest(line, 8)), ..st.cur },
            mode: Mode::Normal,
            ..st
        }
    } else if has_prefix(line, lit_cwd()) {
        ParseState { cur: BuilderView { cwd: Some(rest(line, 7)), ..st.cur }, mode: Mode::Normal, ..st }
    } else if has_prefix(line, lit_exit()) {
        ParseState {
            cur: BuilderView { exit_code: parse_i32_spec(rest(line, 13)), ..st.cur },
            mode: Mode::Normal,
            ..st
        }
    } else {
        ParseState { mode: Mode::Normal, ..st }
    }
}

/// What one line does to the state of the reader.
pub open spec fn step(st: ParseState, line: Seq<char>) -> ParseState {
    match st.mode {
        Mode::Block => if has_prefix(line, lit_indent()) {
            ParseState { cur: BuilderView { block: st.cur.block.push(rest(line, 4)), ..st.cur }, ..st }
        } else if all_space(line) {
            ParseState { cur: BuilderView { block: st.cur.block.push(Seq::empty()), ..st.cur }, ..st }
        } else {
            directive(st, line)
        },
        Mode::Paths => if has_prefix(line, lit_path_item()) || all_space(line) {
            st
        } else {
            paths_directive(st, line)
        },
        Mode::Normal => directive(st, line),
    }
}

/// The state after reading `lines` from `st`.
pub open spec fn run_from(st: ParseState, lines: Seq<Seq<char>>) -> ParseState
    decreases lines.len(),
{
    if lines.len() == 0 {
        st
    } else {
        step(run_from(st, lines.drop_last()), lines.last())
    }
}

/// The state after reading the whole of `text`.
pub open spec fn final_state(text: Seq<char>) -> ParseState {
    run_from(initial_state(), split_lines(text))
}

/// The entries that a history text holds, in order.
pub open spec fn parse_text(text: Seq<char>) -> Seq<EntryRecord> {
    flushed(final_state(text))
}

// ---------------------------------------------------------------------------
// The clock
// ---------------------------------------------------------------------------

/// The current time in seconds since the Unix epoch, from `chrono::Utc::now().timestamp()`.
/// Nothing is stated of the value: it is whatever the clock reads.
#[verifier::external_body]
pub(crate) fn current_timestamp() -> i64 {
    chrono::Utc::now().timestamp()
}

// ---------------------------------------------------------------------------
// The reader
// ---------------------------------------------------------------------------

struct EntryBuilder {
    command: Option<Vec<char>>,
    when: Option<i64>,
    cwd: Option<Vec<char>>,
    exit_code: Option<i32>,
    block_lines: Vec<Vec<char>>,
}

spec fn opt_view(o: Option<Vec<char>>) -> Option<Seq<char>> {
    match o {
        Some(v) => Some(v@),
        None => None,
    }
}

impl View for EntryBuilder {
    type V = BuilderView;

    closed spec fn view(&self) -> BuilderView {
        BuilderView {
            command: opt_view(self.command),
            when: self.when,
            cwd: opt_view(self.cwd),
            exit_code: self.exit_code,
            block: lines_view(self.block_lines@),
        }
    }
}

fn opt_string(o: Option<Vec<char>>) -> (r: Option<String>)
    ensures
        crate::entry::opt_chars(r) == opt_view(o),
{
    match o {
        Some(v) => Some(string_of(&v)),
        None => None,
    }
}

impl EntryBuilder {
    fn new() -> (b: EntryBuilder)
        ensures
            b@ == empty_builder(),
    {
        let b = EntryBuilder {
            command: None,
            when: None,
            cwd: None,
            exit_code: None,
            block_lines: Vec::new(),
        };
        assert(b@.block =~= Seq::<Seq<char>>::empty());
        b
    }

    /// The entry gathered, with `now` as its time where the text gave none.
    fn build_at(self, now: i64) -> (r: Option<Entry>)
        ensures
            match finish(self@) {
                None => r is None,
                Some(rec) => r matches Some(e) && e@ == (EntryView {
                    command: rec.command,
                    when: match rec.when {
                        Some(w) => w,
                        None => now,
                    },
                    cwd: rec.cwd,
                    exit_code: rec.exit_code,
                }),
            },
    {
        let command = if self.command.is_none() && self.block_lines.len() > 0 {
            Some(join_lines_exec(&self.block_lines))
        } else {
            self.command
        };
        match command {
            Some(c) => {
                let when = match self.when {
                    Some(w) => w,
                    None => now,
                };
                Some(Entry {
                    command: string_of(&c),
                    when,
                    cwd: opt_string(self.cwd),
                    exit_code: self.exit_code,
                })
            },
            None => None,
        }
    }

    /// The entry gathered; where the text gave no time, the current time.
    fn build(self) -> (r: Option<Entry>)
        ensures
            match finish(self@) {
                None => r is None,
                Some(rec) => r matches Some(e) && entry_fits(e@, rec),
            },
    {
        let needs_clock = self.when.is_none() && (self.command.is_some() || self.block_lines.len() > 0);
        let now = if needs_clock {
            current_timestamp()
        } else {
            0
        };
        self.build_at(now)
    }
}

/// The words of the format, as characters.
struct Words {
    cmd: Vec<char>,
    cmd_block: Vec<char>,
    indent: Vec<char>,
    when: Vec<char>,
    cwd: Vec<char>,
    exit: Vec<char>,
    paths: Vec<char>,
    path_item: Vec<char>,
}

impl Words {
    spec fn wf(&self) -> bool {
        &&& self.cmd@ == lit_cmd()
        &&& self.cmd_block@ == lit_cmd_block()
        &&& self.indent@ == lit_indent()
        &&& self.when@ == lit_when()
        &&& self.cwd@ == lit_cwd()
        &&& self.exit@ == lit_exit()
        &&& self.paths@ == lit_paths()
        &&& self.path_item@ == lit_path_item()
    }

    fn new() -> (w: Words)
        ensures
            w.wf(),
    {
        Words {
            cmd: lit_cmd_exec(),
            cmd_block: lit_cmd_block_exec(),
            indent: lit_indent_exec(),
            when: lit_when_exec(),
            cwd: lit_cwd_exec(),
            exit: lit_exit_exec(),
            paths: lit_paths_exec(),
            path_item: lit_path_item_exec(),
        }
    }
}

struct Reader {
    entries: Vec<Entry>,
    current: EntryBuilder,
    mode: Mode,
}

impl Reader {
    spec fn holds(&self, st: ParseState) -> bool {
        &&& entries_fit(entries_view(self.entries@), st.entries)
        &&& self.current@ == st.cur
        &&& self.mode == st.mode
    }

    /// Ends the entry being gathered and starts an empty one.
    fn flush(&mut self, Ghost(st): Ghost<ParseState>)
        requires
            old(self).holds(st),
        ensures
            entries_fit(entries_view(final(self).entries@), flushed(st)),
            final(self).current@ == empty_builder(),
            final(self).mode == old(self).mode,
    {
        let mut b = EntryBuilder::new();
        std::mem::swap(&mut b, &mut self.current);
        let ghost before = entries_view(self.entries@);
        match b.build() {
            Some(e) => {
                self.entries.push(e);
                let ghost r = finish(st.cur)->0;
                assert(entries_view(self.entries@) =~= before.push(e@));
                assert(entries_fit(entries_view(self.entries@), flushed(st))) by {
                    assert forall|i: int| 0 <= i < entries_view(self.entries@).len() implies entry_fits(
                        #[trigger] entries_view(self.entries@)[i],
                        flushed(st)[i],
                    ) by {
                        if i < before.len() {
                            assert(entry_fits(before[i], st.entries[i]));
                        }
                    }
                }
            },
            None => {},
        }
    }

    /// A top-level line.
    fn directive(&mut self, w: &Words, line: &Vec<char>, Ghost(st): Ghost<ParseState>)
        requires
            w.wf(),
            old(self).holds(st),
        ensures
            final(self).holds(directive(st, line@)),
    {
        if chars_eq(line, &w.cmd_block) {
            self.flush(Ghost(st));
            self.mode = Mode::Block;
        } else if starts_with(line, &w.cmd) {
            self.flush(Ghost(st));
            self.current.command = Some(suffix_from(line, 7));
            self.mode = Mode::Normal;
        } else if starts_with(line, &w.when) {
            self.current.when = parse_i64(&suffix_from(line, 8));
            self.mode = Mode::Normal;
        } else if starts_with(line, &w.cwd) {
            self.current.cwd = Some(suffix_from(line, 7));
            self.mode = Mode::Normal;
        } else if starts_with(line, &w.exit) {
            self.current.exit_code = parse_i32(&suffix_from(line, 13));
            self.mode = Mode::Normal;
        } else if starts_with(line, &w.paths) {
            self.mode = Mode::Paths;
        } else {
            self.mode = Mode::Normal;
        }
    }

    /// The first line after a list of paths.
    fn paths_directive(&mut self, w: &Words, line: &Vec<char>, Ghost(st): Ghost<ParseState>)
        requires
            w.wf(),
            old(self).holds(st),
        ensures
            final(self).holds(paths_directive(st, line@)),
    {
        if chars_eq(line, &w.cmd_block) {
            self.flush(Ghost(st));
            self.mode = Mode::Block;
            return;
        } else if starts_with(line, &w.cmd) {
            self.flush(Ghost(st));
            self.current.command = Some(suffix_from(line, 7));
        } else if starts_with(line, &w.when) {
            self.current.when = parse_i64(&suffix_from(line, 8));
        } else if starts_with(line, &w.cwd) {
            self.current.cwd = Some(suffix_from(line, 7));
        } else if starts_with(line, &w.exit) {
            self.current.exit_code = parse_i32(&suffix_from(line, 13));
        }
        self.mode = Mode::Normal;
    }

    /// One line.
    fn step(&mut self, w: &Words, line: &Vec<char>, Ghost(st): Ghost<ParseState>)
        requires
            w.wf(),
            old(self).holds(st),
        ensures
            final(self).holds(step(st, line@)),
    {
        match self.mode {
            Mode::Block => {
                if starts_with(line, &w.indent) {
                    let ghost before = self.current.block_lines@;
                    let content = suffix_from(line, 4);
                    self.current.block_lines.push(content);
                    assert(lines_view(self.current.block_lines@) =~= lines_view(before).push(content@));
                } else if all_space_exec(line) {
                    let ghost before = self.current.block_lines@;
                    let empty: Vec<char> = Vec::new();
                    self.current.block_lines.push(empty);
                    assert(lines_view(self.current.block_lines@) =~= lines_view(before).push(
                        Seq::<char>::empty(),
                    ));
                } else {
                    self.directive(w, line, Ghost(st));
                }
            },
            Mode::Paths => {
                if starts_with(line, &w.path_item) || all_space_exec(line) {
                } else {
                    self.paths_directive(w, line, Ghost(st));
                }
            },
            Mode::Normal => {
                self.directive(w, line, Ghost(st));
            },
        }
    }
}

/// Reads the entries of a history text, in order. An entry with a command but no time, or
/// a time that is not a number, gets the current time.
pub fn parse_all(text: &str) -> (entries: Vec<Entry>)
    ensures
        entries_fit(entries_view(entries@), parse_text(text@)),
{
    let w = Words::new();
    let chars = chars_of(text);
    let lines = split_lines_exec(&chars);
    let mut reader = Reader { entries: Vec::new(), current: EntryBuilder::new(), mode: Mode::Normal };
    assert(entries_view(reader.entries@) =~= Seq::<EntryView>::empty());
    let n = lines.len();
    for i in 0..n
        invariant
            n == lines.len(),
            w.wf(),
            lines_view(lines@) == split_lines(text@),
            reader.holds(run_from(initial_state(), lines_view(lines@).take(i as int))),
    {
        let ghost st = run_from(initial_state(), lines_view(lines@).take(i as int));
        reader.step(&w, &lines[i], Ghost(st));
        assert(lines_view(lines@).take(i + 1).drop_last() =~= lines_view(lines@).take(i as int));
        assert(lines_view(lines@)[i as int] == lines@[i as int]@);
    }
    assert(lines_view(lines@).take(n as int) =~= lines_view(lines@));
    let ghost last = final_state(text@);
    reader.flush(Ghost(last));
    reader.entries
}

} // verus!
