use vstd::prelude::*;

use crate::display::listed;
use crate::entry::{entries_fit, entry_fits, record_of, records_of, EntryRecord, EntryView, SearchMode};
use crate::numeric::{decimal, lemma_decimal_parse_i32, lemma_decimal_parse_i64, lemma_decimal_plain};
use crate::parser::{
    empty_builder, final_state, finish, flushed, initial_state, parse_text, rest, run_from, step,
    BuilderView, Mode, ParseState,
};
use crate::search::{
    command_matches, lowercase, matching_entries, matching_records, other_entries, select,
    text_matches,
};
use crate::text::{
    block_lines, cr_safe, has_prefix, lemma_join_block, lemma_split_append, lemma_split_lines_shape,
    lemma_split_terminated, occurs_at, single_line, split_lines,
};
use crate::writer::{
    command_lines, entries_text, entry_lines, entry_text, indented, lit_cmd, lit_cmd_block, lit_cwd,
    lit_exit, lit_indent, lit_path_item, lit_when,
};

verus! {

/// An entry whose text reads back as the same entry: its command is not the single
/// character `|`, no `'\r'` in its command stands before a `'\n'` or at the end, and its
/// directory is one line that does not end with `'\r'`.
pub open spec fn writable(e: EntryView) -> bool {
    &&& cr_safe(e.command)
    &&& e.command != seq!['|']
    &&& (e.cwd matches Some(c) ==> single_line(c) && cr_safe(c))
}

/// A history text that is empty or ends with `'\n'`.
pub open spec fn ends_with_line(text: Seq<char>) -> bool {
    text.len() == 0 || text.last() == '\n'
}

/// The builder that the lines of an entry leave.
pub open spec fn builder_of(e: EntryView) -> BuilderView {
    BuilderView {
        command: if e.command.contains('\n') { None } else { Some(e.command) },
        when: Some(e.when),
        cwd: e.cwd,
        exit_code: e.exit_code,
        block: if e.command.contains('\n') { block_lines(e.command) } else { Seq::empty() },
    }
}

proof fn lemma_run_append(st: ParseState, a: Seq<Seq<char>>, b: Seq<Seq<char>>)
    ensures
        run_from(st, a + b) == run_from(run_from(st, a), b),
    decreases b.len(),
{
    if b.len() == 0 {
        assert(a + b =~= a);
    } else {
        lemma_run_append(st, a, b.drop_last());
        assert((a + b).drop_last() =~= a + b.drop_last());
        assert((a + b).last() == b.last());
    }
}

proof fn lemma_run_one(st: ParseState, l: Seq<char>)
    ensures
        run_from(st, seq![l]) == step(st, l),
{
    assert(seq![l].drop_last() =~= Seq::<Seq<char>>::empty());
    assert(run_from(st, seq![l].drop_last()) == st);
    assert(seq![l].last() == l);
}

/// A line of text that holds no `'\n'` and no `'\r'`.
spec fn plain(s: Seq<char>) -> bool {
    forall|i: int| 0 <= i < s.len() ==> #[trigger] s[i] != '\n' && s[i] != '\r'
}

proof fn lemma_plain_line(p: Seq<char>, s: Seq<char>)
    requires
        plain(p),
        single_line(s),
        cr_safe(s),
    ensures
        single_line(p + s),
        cr_safe(p + s),
{
    let t = p + s;
    assert forall|i: int| 0 <= i < t.len() implies #[trigger] t[i] != '\n' by {
        if i >= p.len() {
            assert(t[i] == s[i - p.len()]);
        }
    }
    assert forall|i: int| 0 <= i < t.len() && #[trigger] t[i] == '\r' implies i + 1 < t.len()
        && t[i + 1] != '\n' by {
        if i >= p.len() {
            assert(t[i] == s[i - p.len()]);
            assert(t[i + 1] == s[i + 1 - p.len()]);
        }
    }
}

proof fn lemma_plain_all(s: Seq<char>)
    requires
        plain(s),
    ensures
        single_line(s),
        cr_safe(s),
{
}

proof fn lemma_entry_lines_shape(e: EntryView)
    requires
        writable(e),
    ensures
        forall|k: int| 0 <= k < entry_lines(e).len() ==> single_line(#[trigger] entry_lines(e)[k]) && cr_safe(
            entry_lines(e)[k],
        ),
{
    let cl = command_lines(e.command);
    let ls = entry_lines(e);
    assert(plain(lit_cmd()));
    assert(plain(lit_cmd_block()));
    assert(plain(lit_indent()));
    assert(plain(lit_when()));
    assert(plain(lit_cwd()));
    assert(plain(lit_exit()));
    lemma_decimal_plain(e.when as int);
    assert(plain(decimal(e.when as int)));
    assert forall|k: int| 0 <= k < cl.len() implies single_line(#[trigger] cl[k]) && cr_safe(cl[k]) by {
        if e.command.contains('\n') {
            if k == 0 {
                lemma_plain_all(lit_cmd_block());
            } else {
                let bl = block_lines(e.command);
                lemma_split_lines_shape(e.command, 0);
                let l = bl[k - 1];
                assert(cl[k] == lit_indent() + l);
                if k - 1 < split_lines(e.command).len() {
                    assert(l == split_lines(e.command)[k - 1]);
                } else {
                    assert(l == Seq::<char>::empty());
                }
                lemma_plain_line(lit_indent(), l);
            }
        } else {
            assert forall|i: int| 0 <= i < e.command.len() implies #[trigger] e.command[i] != '\n' by {
                if e.command[i] == '\n' {
                    assert(e.command.contains('\n'));
                }
            }
            lemma_plain_line(lit_cmd(), e.command);
        }
    }
    lemma_plain_line(lit_when(), decimal(e.when as int));
    if let Some(c) = e.cwd {
        lemma_plain_line(lit_cwd(), c);
    }
    if let Some(x) = e.exit_code {
        lemma_decimal_plain(x as int);
        assert(plain(decimal(x as int)));
        lemma_plain_line(lit_exit(), decimal(x as int));
    }
    assert forall|k: int| 0 <= k < ls.len() implies single_line(#[trigger] ls[k]) && cr_safe(ls[k]) by {
        if k < cl.len() {
            assert(ls[k] == cl[k]);
        }
    }
}

/// Block lines read in block mode are gathered one after another.
proof fn lemma_run_block(st: ParseState, ls: Seq<Seq<char>>)
    requires
        st.mode == Mode::Block,
    ensures
        run_from(st, indented(ls)) == (ParseState {
            cur: BuilderView { block: st.cur.block + ls, ..st.cur },
            ..st
        }),
    decreases ls.len(),
{
    if ls.len() == 0 {
        assert(st.cur.block + ls =~= st.cur.block);
        assert(indented(ls) =~= Seq::<Seq<char>>::empty());
    } else {
        lemma_run_block(st, ls.drop_last());
        assert(indented(ls).drop_last() =~= indented(ls.drop_last()));
        let line = lit_indent() + ls.last();
        assert(indented(ls).last() == line);
        assert(line.subrange(0, 4) =~= lit_indent());
        assert(rest(line, 4) =~= ls.last());
        assert((st.cur.block + ls.drop_last()).push(ls.last()) =~= st.cur.block + ls);
        assert(has_prefix(line, lit_indent()));
    }
}

/// The state after the command lines of an entry.
spec fn after_command(st: ParseState, e: EntryView) -> ParseState {
    ParseState {
        entries: flushed(st),
        cur: BuilderView { when: None, cwd: None, exit_code: None, ..builder_of(e) },
        mode: if e.command.contains('\n') { Mode::Block } else { Mode::Normal },
    }
}

/// Reading the command lines of an entry ends the entry before it and starts this one.
proof fn lemma_run_command(st: ParseState, e: EntryView)
    requires
        writable(e),
    ensures
        run_from(st, command_lines(e.command)) == after_command(st, e),
{
    let cmd = e.command;
    let cl = command_lines(cmd);
    let s1 = after_command(st, e);
    if cmd.contains('\n') {
        let first = lit_cmd_block();
        assert(!has_prefix(first, lit_indent())) by {
            assert(first.subrange(0, 4)[0] != lit_indent()[0]);
        }
        assert(first[0] == '-');
        assert(!has_prefix(first, lit_path_item())) by {
            assert(first.subrange(0, 6)[0] != lit_path_item()[0]);
        }
        assert(!crate::text::all_space(first)) by {
            assert(!crate::text::is_space(first[0]));
        }
        let s0 = step(st, first);
        assert(s0 == ParseState { entries: flushed(st), cur: empty_builder(), mode: Mode::Block });
        lemma_run_one(st, first);
        lemma_run_append(st, seq![first], indented(block_lines(cmd)));
        lemma_run_block(s0, block_lines(cmd));
        assert(Seq::<Seq<char>>::empty() + block_lines(cmd) =~= block_lines(cmd));
        assert(run_from(st, cl) == s1);
    } else {
        let first = lit_cmd() + cmd;
        assert(!has_prefix(first, lit_indent())) by {
            assert(first.subrange(0, 4)[0] != lit_indent()[0]);
        }
        assert(first[0] == '-');
        assert(first != lit_cmd_block()) by {
            if first == lit_cmd_block() {
                assert(cmd =~= seq!['|']) by {
                    assert(cmd.len() == 1);
                    assert(cmd[0] == first[7]);
                }
            }
        }
        assert(first.subrange(0, 7) =~= lit_cmd());
        assert(rest(first, 7) =~= cmd);
        assert(!has_prefix(first, lit_path_item())) by {
            assert(first.subrange(0, 6)[0] != lit_path_item()[0]);
        }
        assert(!crate::text::all_space(first)) by {
            assert(!crate::text::is_space(first[0]));
        }
        lemma_run_one(st, first);
        assert(run_from(st, cl) == s1);
    }
}

/// Reading the lines of an entry, from any state of the reader, ends the entry before it
/// and gathers this one.
proof fn lemma_run_entry(st: ParseState, e: EntryView)
    requires
        writable(e),
    ensures
        run_from(st, entry_lines(e)) == (ParseState {
            entries: flushed(st),
            cur: builder_of(e),
            mode: Mode::Normal,
        }),
{
    let cl = command_lines(e.command);
    let s1 = after_command(st, e);
    lemma_run_command(st, e);
    // The time.
    let wl = lit_when() + decimal(e.when as int);
    lemma_decimal_parse_i64(e.when);
    assert(wl[0] == ' ' && wl[2] == 'w');
    assert(!has_prefix(wl, lit_indent())) by {
        assert(wl.subrange(0, 4)[2] != lit_indent()[2]);
    }
    assert(!crate::text::all_space(wl)) by {
        assert(!crate::text::is_space(wl[2]));
    }
    assert(wl != lit_cmd_block()) by {
        assert(wl[0] != lit_cmd_block()[0]);
    }
    assert(!has_prefix(wl, lit_cmd())) by {
        assert(wl.subrange(0, 7)[0] != lit_cmd()[0]);
    }
    assert(wl.subrange(0, 8) =~= lit_when());
    assert(rest(wl, 8) =~= decimal(e.when as int));
    let s2 = ParseState { cur: BuilderView { when: Some(e.when), ..s1.cur }, mode: Mode::Normal, ..s1 };
    assert(step(s1, wl) == s2);
    lemma_run_one(s1, wl);
    lemma_run_append(st, cl, seq![wl]);
    // The directory.
    let cwd_lines = match e.cwd {
        Some(c) => seq![lit_cwd() + c],
        None => Seq::<Seq<char>>::empty(),
    };
    let s3 = ParseState { cur: BuilderView { cwd: e.cwd, ..s2.cur }, ..s2 };
    match e.cwd {
        Some(c) => {
            let l = lit_cwd() + c;
            assert(l[0] == ' ' && l[2] == 'c');
            assert(l != lit_cmd_block()) by {
                assert(l[0] != lit_cmd_block()[0]);
            }
            assert(!has_prefix(l, lit_cmd())) by {
                assert(l.subrange(0, 7)[0] != lit_cmd()[0]);
            }
            assert(!has_prefix(l, lit_when())) by {
                if l.len() >= 8 {
                    assert(l.subrange(0, 8)[2] != lit_when()[2]);
                }
            }
            assert(l.subrange(0, 7) =~= lit_cwd());
            assert(rest(l, 7) =~= c);
            assert(step(s2, l) == s3);
            lemma_run_one(s2, l);
        },
        None => {
            assert(run_from(s2, cwd_lines) == s3);
        },
    }
    lemma_run_append(st, cl + seq![wl], cwd_lines);
    // The exit code.
    let exit_lines = match e.exit_code {
        Some(x) => seq![lit_exit() + decimal(x as int)],
        None => Seq::<Seq<char>>::empty(),
    };
    let s4 = ParseState { cur: BuilderView { exit_code: e.exit_code, ..s3.cur }, ..s3 };
    match e.exit_code {
        Some(x) => {
            let l = lit_exit() + decimal(x as int);
            lemma_decimal_parse_i32(x);
            assert(l[0] == ' ' && l[2] == 'e');
            assert(l != lit_cmd_block()) by {
                assert(l[0] != lit_cmd_block()[0]);
            }
            assert(!has_prefix(l, lit_cmd())) by {
                assert(l.subrange(0, 7)[0] != lit_cmd()[0]);
            }
            assert(!has_prefix(l, lit_when())) by {
                assert(l.subrange(0, 8)[2] != lit_when()[2]);
            }
            assert(!has_prefix(l, lit_cwd())) by {
                assert(l.subrange(0, 7)[2] != lit_cwd()[2]);
            }
            assert(l.subrange(0, 13) =~= lit_exit());
            assert(rest(l, 13) =~= decimal(x as int));
            assert(step(s3, l) == s4);
            lemma_run_one(s3, l);
        },
        None => {
            assert(run_from(s3, exit_lines) == s4);
        },
    }
    lemma_run_append(st, cl + seq![wl] + cwd_lines, exit_lines);
    assert(entry_lines(e) =~= cl + seq![wl] + cwd_lines + exit_lines);
    assert(s4.cur == builder_of(e));
}

/// The builder that the lines of an entry leave gives that entry back.
proof fn lemma_finish_entry(e: EntryView)
    requires
        writable(e),
    ensures
        finish(builder_of(e)) == Some(record_of(e)),
{
    if e.command.contains('\n') {
        lemma_join_block(e.command);
        let b = block_lines(e.command);
        assert(e.command.len() > 0);
        crate::text::lemma_line_end_bounds(e.command, 0);
        if e.command.last() != '\n' {
            assert(split_lines(e.command).len() > 0);
        }
        assert(b.len() > 0);
    }
}

/// Writing an entry after a text that is empty or ends with `'\n'` adds exactly that entry
/// to what the text reads as.
pub proof fn lemma_read_after_write(text: Seq<char>, e: EntryView)
    requires
        ends_with_line(text),
        writable(e),
    ensures
        parse_text(text + entry_text(e)) == parse_text(text).push(record_of(e)),
        ends_with_line(text + entry_text(e)),
        final_state(text + entry_text(e)).mode == Mode::Normal,
{
    let et = entry_text(e);
    lemma_entry_lines_shape(e);
    lemma_split_terminated(entry_lines(e));
    lemma_split_append(text, et);
    let st = final_state(text);
    if text.len() == 0 {
        assert(split_lines(text) =~= Seq::<Seq<char>>::empty());
    }
    lemma_run_append(initial_state(), split_lines(text), entry_lines(e));
    lemma_run_entry(st, e);
    lemma_finish_entry(e);
    assert(parse_text(text) == flushed(st));
    let t2 = text + et;
    assert(entry_lines(e).len() > 0);
    assert(et.len() > 0 && et.last() == '\n');
    assert(t2.last() == et.last());
}

/// Writing entries one after another after a text that is empty or ends with `'\n'` adds
/// exactly those entries, in order, to what the text reads as.
pub proof fn lemma_read_after_writes(text: Seq<char>, es: Seq<EntryView>)
    requires
        ends_with_line(text),
        forall|i: int| 0 <= i < es.len() ==> writable(#[trigger] es[i]),
    ensures
        parse_text(text + entries_text(es)) == parse_text(text) + records_of(es),
        ends_with_line(text + entries_text(es)),
        es.len() > 0 ==> final_state(text + entries_text(es)).mode == Mode::Normal,
    decreases es.len(),
{
    if es.len() == 0 {
        assert(text + entries_text(es) =~= text);
        assert(parse_text(text) + records_of(es) =~= parse_text(text));
    } else {
        let init = es.drop_last();
        lemma_read_after_writes(text, init);
        let t1 = text + entries_text(init);
        assert(writable(es[es.len() - 1]));
        lemma_read_after_write(t1, es.last());
        assert(text + entries_text(es) =~= t1 + entry_text(es.last()));
        assert(records_of(es) =~= records_of(init).push(record_of(es.last())));
        assert(parse_text(text + entries_text(es)) =~= parse_text(text) + records_of(es));
    }
}

/// The text of entries reads back as the same entries, in order, where each of them can be
/// written.
pub proof fn lemma_round_trip(es: Seq<EntryView>)
    requires
        forall|i: int| 0 <= i < es.len() ==> writable(#[trigger] es[i]),
    ensures
        parse_text(entries_text(es)) == records_of(es),
{
    let empty = Seq::<char>::empty();
    lemma_read_after_writes(empty, es);
    assert(empty + entries_text(es) =~= entries_text(es));
    assert(split_lines(empty) =~= Seq::<Seq<char>>::empty());
    assert(parse_text(empty) =~= Seq::<EntryRecord>::empty());
    assert(parse_text(empty) + records_of(es) =~= records_of(es));
}

/// An empty history text holds no entry.
pub proof fn lemma_clear_reads_empty()
    ensures
        parse_text(Seq::<char>::empty()) == Seq::<EntryRecord>::empty(),
{
    assert(split_lines(Seq::<char>::empty()) =~= Seq::<Seq<char>>::empty());
}

/// Deleting splits the entries: those removed and those kept are, together, all of them.
pub proof fn lemma_delete_partition(
    es: Seq<EntryView>,
    pattern: Seq<char>,
    mode: SearchMode,
    case_sensitive: bool,
)
    ensures
        matching_entries(es, pattern, mode, case_sensitive).len() + other_entries(
            es,
            pattern,
            mode,
            case_sensitive,
        ).len() == es.len(),
    decreases es.len(),
{
    if es.len() > 0 {
        lemma_delete_partition(es.drop_last(), pattern, mode, case_sensitive);
    }
}

proof fn lemma_select_records(
    es: Seq<EntryView>,
    pattern: Seq<char>,
    mode: SearchMode,
    case_sensitive: bool,
)
    requires
        forall|i: int| 0 <= i < es.len() ==> !command_matches(#[trigger] es[i].command, pattern, mode, case_sensitive),
    ensures
        matching_records(records_of(es), pattern, mode, case_sensitive) == Seq::<EntryRecord>::empty(),
    decreases es.len(),
{
    if es.len() > 0 {
        let init = es.drop_last();
        assert(records_of(es).drop_last() =~= records_of(init));
        assert(!command_matches(es[es.len() - 1].command, pattern, mode, case_sensitive));
        lemma_select_records(init, pattern, mode, case_sensitive);
    }
}

proof fn lemma_others_shape(
    es: Seq<EntryView>,
    pattern: Seq<char>,
    mode: SearchMode,
    case_sensitive: bool,
)
    ensures
        forall|i: int| 0 <= i < other_entries(es, pattern, mode, case_sensitive).len() ==>
            !command_matches(#[trigger] other_entries(es, pattern, mode, case_sensitive)[i].command, pattern, mode, case_sensitive),
    decreases es.len(),
{
    if es.len() > 0 {
        lemma_others_shape(es.drop_last(), pattern, mode, case_sensitive);
        let o = other_entries(es, pattern, mode, case_sensitive);
        let oi = other_entries(es.drop_last(), pattern, mode, case_sensitive);
        assert forall|i: int| 0 <= i < o.len() implies !command_matches(#[trigger] o[i].command, pattern, mode, case_sensitive) by {
            if i < oi.len() {
                assert(o[i] == oi[i]);
            }
        }
    }
}

/// After a deletion, the history reads as the entries kept, and a search with the same
/// pattern finds nothing, where each kept entry can be written.
pub proof fn lemma_delete_then_search(
    es: Seq<EntryView>,
    pattern: Seq<char>,
    mode: SearchMode,
    case_sensitive: bool,
)
    requires
        forall|i: int| 0 <= i < es.len() ==> writable(#[trigger] es[i]),
    ensures
        parse_text(entries_text(other_entries(es, pattern, mode, case_sensitive))) == records_of(
            other_entries(es, pattern, mode, case_sensitive),
        ),
        matching_records(
            parse_text(entries_text(other_entries(es, pattern, mode, case_sensitive))),
            pattern,
            mode,
            case_sensitive,
        ) == Seq::<EntryRecord>::empty(),
{
    let kept = other_entries(es, pattern, mode, case_sensitive);
    lemma_select_subset(es, |e: EntryView| !command_matches(e.command, pattern, mode, case_sensitive));
    assert forall|i: int| 0 <= i < kept.len() implies writable(#[trigger] kept[i]) by {
        assert(es.contains(kept[i]));
    }
    lemma_round_trip(kept);
    lemma_others_shape(es, pattern, mode, case_sensitive);
    lemma_select_records(kept, pattern, mode, case_sensitive);
}

/// What `select` keeps is taken from the sequence.
pub proof fn lemma_select_subset<A>(xs: Seq<A>, keep: spec_fn(A) -> bool)
    ensures
        forall|i: int| 0 <= i < select(xs, keep).len() ==> xs.contains(#[trigger] select(xs, keep)[i]),
    decreases xs.len(),
{
    if xs.len() > 0 {
        let init = xs.drop_last();
        lemma_select_subset(init, keep);
        let s = select(xs, keep);
        let si = select(init, keep);
        assert forall|i: int| 0 <= i < s.len() implies xs.contains(#[trigger] s[i]) by {
            if i < si.len() {
                assert(s[i] == si[i]);
                let j = choose|j: int| 0 <= j < init.len() && init[j] == si[i];
                assert(xs[j] == init[j]);
            } else {
                assert(s[i] == xs[xs.len() - 1]);
            }
        }
    }
}

/// An exact match is a prefix match, and a prefix match is a match anywhere; a command
/// that matches exactly with case also matches exactly without.
pub proof fn lemma_mode_order(command: Seq<char>, pattern: Seq<char>, case_sensitive: bool)
    ensures
        command_matches(command, pattern, SearchMode::Exact, case_sensitive) ==> command_matches(
            command,
            pattern,
            SearchMode::Prefix,
            case_sensitive,
        ),
        command_matches(command, pattern, SearchMode::Prefix, case_sensitive) ==> command_matches(
            command,
            pattern,
            SearchMode::Contains,
            case_sensitive,
        ),
        command_matches(command, pattern, SearchMode::Exact, true) ==> command_matches(
            command,
            pattern,
            SearchMode::Exact,
            false,
        ),
{
    let (t, p) = if case_sensitive { (command, pattern) } else { (lowercase(command), lowercase(pattern)) };
    if t == p {
        assert(t.subrange(0, p.len() as int) =~= p);
    }
    if text_matches(t, p, SearchMode::Prefix) {
        assert(occurs_at(t, p, 0));
    }
}

/// A search gives the entries that a read gives, kept where their command matches, in the
/// same order.
pub proof fn lemma_search_filters_read(
    es: Seq<EntryView>,
    rs: Seq<EntryRecord>,
    pattern: Seq<char>,
    mode: SearchMode,
    case_sensitive: bool,
)
    requires
        entries_fit(es, rs),
    ensures
        entries_fit(
            matching_entries(es, pattern, mode, case_sensitive),
            matching_records(rs, pattern, mode, case_sensitive),
        ),
    decreases es.len(),
{
    if es.len() > 0 {
        let ei = es.drop_last();
        let ri = rs.drop_last();
        assert(entries_fit(ei, ri)) by {
            assert forall|i: int| 0 <= i < ei.len() implies entry_fits(#[trigger] ei[i], ri[i]) by {
                assert(entry_fits(es[i], rs[i]));
            }
        }
        lemma_search_filters_read(ei, ri, pattern, mode, case_sensitive);
        assert(entry_fits(es[es.len() - 1], rs[rs.len() - 1]));
        let me = matching_entries(es, pattern, mode, case_sensitive);
        let mr = matching_records(rs, pattern, mode, case_sensitive);
        let mei = matching_entries(ei, pattern, mode, case_sensitive);
        let mri = matching_records(ri, pattern, mode, case_sensitive);
        assert forall|i: int| 0 <= i < me.len() implies entry_fits(#[trigger] me[i], mr[i]) by {
            if i < mei.len() {
                assert(me[i] == mei[i]);
                assert(mr[i] == mri[i]);
                assert(entry_fits(mei[i], mri[i]));
            }
        }
    }
}

/// How each mode compares a command `t` with a pattern `p`: contains holds exactly when `p`
/// occurs at some index of `t`; prefix exactly when `t` starts with `p`, whatever follows;
/// exact exactly when they are the same sequence.
pub proof fn lemma_match_modes(t: Seq<char>, p: Seq<char>)
    ensures
        text_matches(t, p, SearchMode::Contains) <==> exists|i: int|
            0 <= i && i + p.len() <= t.len() && #[trigger] t.subrange(i, i + p.len()) == p,
        text_matches(t, p, SearchMode::Prefix) <==> (p.len() <= t.len() && t.subrange(0, p.len() as int)
            == p),
        text_matches(t, p, SearchMode::Exact) <==> t == p,
        forall|i: int| 0 <= i && i + p.len() <= t.len() && #[trigger] t.subrange(i, i + p.len()) == p
            ==> text_matches(t, p, SearchMode::Contains),
{
    if text_matches(t, p, SearchMode::Contains) {
        let i = choose|i: int| occurs_at(t, p, i);
        assert(t.subrange(i, i + p.len()) == p);
    }
    assert forall|i: int| 0 <= i && i + p.len() <= t.len() && #[trigger] t.subrange(i, i + p.len()) == p
        implies text_matches(t, p, SearchMode::Contains) by {
        assert(occurs_at(t, p, i));
    }
}

/// The listing: without `reverse` the entries from the newest (last in the file) back, with
/// `reverse` in file order; with `max`, only the first `max` of those, and all of them
/// otherwise.
pub proof fn lemma_listing_order(es: Seq<EntryView>, reverse: bool, max: Option<usize>)
    ensures
        listed(es, reverse, max).len() == (match max {
            Some(n) => if n < es.len() { n as int } else { es.len() as int },
            None => es.len() as int,
        }),
        forall|k: int| 0 <= k < listed(es, reverse, max).len() ==> #[trigger] listed(es, reverse, max)[k]
            == if reverse { es[k] } else { es[es.len() - 1 - k] },
{
}

/// An element is kept by `select` exactly when it is in the sequence and accepted, and
/// `select` keeps no more elements than there are.
pub proof fn lemma_select_members<A>(xs: Seq<A>, keep: spec_fn(A) -> bool)
    ensures
        forall|x: A| #[trigger] select(xs, keep).contains(x) <==> (xs.contains(x) && keep(x)),
        select(xs, keep).len() <= xs.len(),
    decreases xs.len(),
{
    if xs.len() > 0 {
        let init = xs.drop_last();
        lemma_select_members(init, keep);
        let s = select(xs, keep);
        let si = select(init, keep);
        let last = xs.last();
        assert(xs =~= init.push(last));
        if keep(last) {
            assert(s == si.push(last));
        } else {
            assert(s == si);
        }
        assert forall|x: A| #[trigger] s.contains(x) <==> (xs.contains(x) && keep(x)) by {
            if s.contains(x) {
                let j = choose|j: int| 0 <= j < s.len() && s[j] == x;
                if j < si.len() {
                    assert(si[j] == x);
                    assert(si.contains(x));
                    assert(init.contains(x) && keep(x));
                    let m = choose|m: int| 0 <= m < init.len() && init[m] == x;
                    assert(xs[m] == x);
                } else {
                    assert(x == last && keep(last));
                    assert(xs[xs.len() - 1] == x);
                }
            }
            if xs.contains(x) && keep(x) {
                let m = choose|m: int| 0 <= m < xs.len() && xs[m] == x;
                if m < init.len() {
                    assert(init[m] == x);
                    assert(init.contains(x));
                    assert(si.contains(x));
                    let j = choose|j: int| 0 <= j < si.len() && si[j] == x;
                    assert(s[j] == x);
                } else {
                    assert(x == last);
                    assert(s[s.len() - 1] == x);
                }
            }
        }
    }
}

} // verus!
