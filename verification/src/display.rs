use vstd::prelude::*;

use owo_colors::OwoColorize;

use crate::entry::{entries_view, Entry, EntryView};
use crate::numeric::{decimal, decimal_i64, decimal_usize, padded4};
use crate::text::{chars_of, push_chars};

verus! {

// ---------------------------------------------------------------------------
// Colours
// ---------------------------------------------------------------------------

/// `ESC [ code m`, a terminal style code.
pub open spec fn ansi(code: Seq<char>) -> Seq<char> {
    seq!['\x1b', '['] + code + seq!['m']
}

/// Text made dim: `ESC[2m`, the text, `ESC[0m`.
pub open spec fn dim_text(s: Seq<char>) -> Seq<char> {
    ansi(seq!['2']) + s + ansi(seq!['0'])
}

/// Text in cyan: `ESC[36m`, the text, `ESC[39m`.
pub open spec fn cyan_text(s: Seq<char>) -> Seq<char> {
    ansi(seq!['3', '6']) + s + ansi(seq!['3', '9'])
}

/// Text in the terminal's default colour: `ESC[39m`, the text, `ESC[39m`.
pub open spec fn default_color_text(s: Seq<char>) -> Seq<char> {
    ansi(seq!['3', '9']) + s + ansi(seq!['3', '9'])
}

/// `OwoColorize::dimmed` of owo-colors, written out: its `Display` writes `ESC[2m`, the
/// text and `ESC[0m`.
#[verifier::external_body]
fn dimmed(s: &str) -> (r: String)
    ensures
        r@ == dim_text(s@),
{
    s.dimmed().to_string()
}

/// `OwoColorize::cyan` of owo-colors, written out: its `Display` writes `ESC[36m`, the text
/// and `ESC[39m`.
#[verifier::external_body]
fn cyan(s: &str) -> (r: String)
    ensures
        r@ == cyan_text(s@),
{
    s.cyan().to_string()
}

/// `OwoColorize::default_color` of owo-colors, written out: its `Display` writes `ESC[39m`,
/// the text and `ESC[39m`.
#[verifier::external_body]
fn default_color(s: &str) -> (r: String)
    ensures
        r@ == default_color_text(s@),
{
    s.default_color().to_string()
}

// ---------------------------------------------------------------------------
// Time
// ---------------------------------------------------------------------------

/// Whether `chrono::DateTime::from_timestamp(secs, 0)` gives a date, that is whether
/// `secs` lies in the range of dates that chrono represents.
pub uninterp spec fn timestamp_in_range(secs: i64) -> bool;

/// The `%Y-%m-%d %H:%M:%S` text that chrono formats for the date and time `secs` seconds
/// after 1970-01-01 00:00:00, with no time zone applied; a function of `secs` alone.
pub uninterp spec fn utc_time_text(secs: int) -> Seq<char>;

/// The local date and time `secs` seconds after the Unix epoch, as `%Y-%m-%d %H:%M:%S`,
/// by chrono's `DateTime::from_timestamp`, `with_timezone(&Local)` and `format`. It is
/// `None` exactly where `from_timestamp` gives `None`. Otherwise it is the text of the
/// instant shifted by the local offset from UTC, which chrono keeps under one day; which
/// offset that is depends on the machine's time zone and is not stated.
#[verifier::external_body]
fn local_time_text(secs: i64) -> (r: Option<String>)
    ensures
        r is Some <==> timestamp_in_range(secs),
        r matches Some(t) ==> exists|u: int|
            secs - 86400 < u < secs + 86400 && t@ == #[trigger] utc_time_text(u),
{
    match chrono::DateTime::from_timestamp(secs, 0) {
        Some(dt) => Some(dt.with_timezone(&chrono::Local).format("%Y-%m-%d %H:%M:%S").to_string()),
        None => None,
    }
}

// ---------------------------------------------------------------------------
// Lines of the listing
// ---------------------------------------------------------------------------

/// The line that shows an entry: its number right-aligned in four columns and dimmed, then
/// its time in cyan where one is shown, then its command, two spaces between the parts.
pub open spec fn entry_line(index: int, time: Option<Seq<char>>, command: Seq<char>) -> Seq<char> {
    let num = dim_text(padded4(index));
    let cmd = default_color_text(command);
    match time {
        Some(t) => num + seq![' ', ' '] + cyan_text(t) + seq![' ', ' '] + cmd,
        None => num + seq![' ', ' '] + cmd,
    }
}

fn padded4_exec(n: usize) -> (v: Vec<char>)
    ensures
        v@ == padded4(n as int),
{
    let d = decimal_usize(n);
    if d.len() < 4 {
        let mut v: Vec<char> = Vec::new();
        let pad = 4 - d.len();
        for i in 0..pad
            invariant
                v@ == Seq::new(i as nat, |j: int| ' '),
        {
            v.push(' ');
            assert(v@ =~= Seq::new((i + 1) as nat, |j: int| ' '));
        }
        crate::text::append_chars(&mut v, &d);
        v
    } else {
        d
    }
}

/// The line that shows an entry, given the text of its time where one is shown.
pub fn format_entry_line(index: usize, time: Option<&str>, command: &str) -> (line: String)
    ensures
        line@ == entry_line(
            index as int,
            match time {
                Some(t) => Some(t@),
                None => None,
            },
            command@,
        ),
{
    let num_chars = padded4_exec(index);
    let num_text = crate::text::string_of(&num_chars);
    let num = dimmed(num_text.as_str());
    let cmd = default_color(command);
    let sep = vec![' ', ' '];
    assert(sep@ =~= seq![' ', ' ']);
    let mut line = String::new();
    push_chars(&mut line, &chars_of(num.as_str()));
    push_chars(&mut line, &sep);
    match time {
        Some(t) => {
            let ts = cyan(t);
            push_chars(&mut line, &chars_of(ts.as_str()));
            push_chars(&mut line, &sep);
        },
        None => {},
    }
    push_chars(&mut line, &chars_of(cmd.as_str()));
    match time {
        Some(t) => {
            assert(line@ =~= entry_line(index as int, Some(t@), command@));
        },
        None => {
            assert(line@ =~= entry_line(index as int, None, command@));
        },
    }
    line
}

/// `t` is how the time `secs` is shown: its local date and time (the text of the instant
/// shifted by an offset of less than a day) where chrono has a date for it, else the
/// number of seconds.
pub open spec fn shown_time(secs: i64, t: Seq<char>) -> bool {
    if timestamp_in_range(secs) {
        exists|u: int| secs - 86400 < u < secs + 86400 && t == #[trigger] utc_time_text(u)
    } else {
        t == decimal(secs as int)
    }
}

/// `line` shows entry `e` as number `index`, with its time where `show_time`.
pub open spec fn entry_shown(line: Seq<char>, index: int, e: EntryView, show_time: bool) -> bool {
    if show_time {
        exists|t: Seq<char>| #[trigger] shown_time(e.when, t) && line == entry_line(index, Some(t), e.command)
    } else {
        line == entry_line(index, None, e.command)
    }
}

/// The line that shows `entry` as number `index`; with `show_time`, its local time, or
/// the number of seconds where chrono has no date for it.
pub fn format_entry(entry: &Entry, index: usize, show_time: bool) -> (line: String)
    ensures
        entry_shown(line@, index as int, entry@, show_time),
{
    if show_time {
        let ts = match local_time_text(entry.when) {
            Some(t) => t,
            None => crate::text::string_of(&decimal_i64(entry.when)),
        };
        assert(shown_time(entry.when, ts@));
        let line = format_entry_line(index, Some(ts.as_str()), entry.command.as_str());
        assert(line@ == entry_line(index as int, Some(ts@), entry.command@));
        assert(shown_time(entry@.when, ts@) && line@ == entry_line(index as int, Some(ts@), entry@.command));
        line
    } else {
        format_entry_line(index, None, entry.command.as_str())
    }
}

/// The lines joined with an empty line between each two.
pub open spec fn join_blank(ls: Seq<Seq<char>>) -> Seq<char>
    decreases ls.len(),
{
    if ls.len() == 0 {
        Seq::empty()
    } else if ls.len() == 1 {
        ls[0]
    } else {
        join_blank(ls.drop_last()) + seq!['\n', '\n'] + ls.last()
    }
}

/// The listing of `entries`: each shown as `format_entry` shows it, numbered from 1, with an
/// empty line between each two.
pub fn format_listing(entries: &Vec<Entry>, show_time: bool) -> (s: String)
    ensures
        exists|lines: Seq<Seq<char>>|
            {
                &&& lines.len() == entries.len()
                &&& forall|i: int|
                    0 <= i < lines.len() ==> entry_shown(#[trigger] lines[i], i + 1, entries@[i]@, show_time)
                &&& s@ == join_blank(lines)
            },
{
    let mut s = String::new();
    let ghost mut lines: Seq<Seq<char>> = Seq::empty();
    let sep = vec!['\n', '\n'];
    assert(sep@ =~= seq!['\n', '\n']);
    let n = entries.len();
    for i in 0..n
        invariant
            n == entries.len(),
            sep@ == seq!['\n', '\n'],
            lines.len() == i,
            forall|k: int| 0 <= k < lines.len() ==> entry_shown(#[trigger] lines[k], k + 1, entries@[k]@, show_time),
            s@ == join_blank(lines),
    {
        let line = format_entry(&entries[i], i + 1, show_time);
        if i > 0 {
            push_chars(&mut s, &sep);
        }
        push_chars(&mut s, &chars_of(line.as_str()));
        let ghost before = lines;
        proof {
            lines = lines.push(line@);
        }
        assert(lines.drop_last() =~= before);
        assert(forall|k: int| 0 <= k < before.len() ==> lines[k] == before[k]);
        if i == 0 {
            assert(s@ =~= join_blank(lines));
        } else {
            assert(s@ =~= join_blank(lines));
        }
    }
    s
}

// ---------------------------------------------------------------------------
// Order and limit of a listing
// ---------------------------------------------------------------------------

/// The entries as listed: newest first unless `reverse`, at most `max` of them.
pub open spec fn listed(es: Seq<EntryView>, reverse: bool, max: Option<usize>) -> Seq<EntryView> {
    let ordered = if reverse { es } else { es.reverse() };
    match max {
        Some(n) => if n < ordered.len() { ordered.take(n as int) } else { ordered },
        None => ordered,
    }
}

/// Orders the entries newest first (the file holds them oldest first) unless `reverse`,
/// then keeps the first `max` of them.
pub fn apply_limit_and_reverse(entries: Vec<Entry>, reverse: bool, max: Option<usize>) -> (shown: Vec<Entry>)
    ensures
        entries_view(shown@) == listed(entries_view(entries@), reverse, max),
{
    let ghost es = entries_view(entries@);
    let mut ordered = if !reverse {
        let mut rest = entries;
        let mut out: Vec<Entry> = Vec::new();
        while rest.len() > 0
            invariant
                es.len() == entries_view(rest@).len() + entries_view(out@).len(),
                entries_view(rest@) == es.take(rest.len() as int),
                forall|k: int| 0 <= k < out.len() ==> #[trigger] entries_view(out@)[k] == es[es.len() - 1 - k],
            decreases rest.len(),
        {
            let ghost old_rest = rest@;
            let ghost old_out = out@;
            let ghost r = rest.len();
            let e = rest.pop().unwrap();
            let ghost n = out.len();
            assert(e == old_rest[r - 1]);
            assert(entries_view(old_rest)[r - 1] == es.take(r as int)[r - 1]);
            out.push(e);
            assert(entries_view(out@) =~= entries_view(old_out).push(e@));
            assert(entries_view(rest@) =~= es.take(rest.len() as int));
            assert(entries_view(out@)[n as int] == es[es.len() - 1 - n]);
        }
        assert(entries_view(out@) =~= es.reverse());
        out
    } else {
        entries
    };
    match max {
        Some(n) => {
            let ghost before = ordered@;
            ordered.truncate(n);
            assert(n < before.len() ==> entries_view(ordered@) =~= entries_view(before).take(n as int));
        },
        None => {},
    }
    ordered
}

} // verus!
