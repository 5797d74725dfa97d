use vstd::prelude::*;

use crate::entry::{entries_fit, entries_view, entry_fits, opt_chars, Entry, EntryView, SearchMode};
use crate::parser::{current_timestamp, parse_all, parse_text};
use crate::search::{make_predicate, matching_entries, matching_records, other_entries};
use crate::writer::{entries_text, write_entry};

verus! {

/// The history file, held as its text. Reading gives the entries that the text holds;
/// each change gives the text that the file holds afterwards.
pub struct History {
    text: String,
}

impl View for History {
    type V = Seq<char>;

    closed spec fn view(&self) -> Seq<char> {
        self.text@
    }
}

impl History {
    /// A history whose file holds `text`.
    pub fn new(text: String) -> (h: History)
        ensures
            h@ == text@,
    {
        History { text }
    }

    /// The text of the history file.
    pub fn text(&self) -> (t: &str)
        ensures
            t@ == self@,
    {
        self.text.as_str()
    }

    /// All entries, in the order of the file.
    pub fn read_all(&self) -> (entries: Vec<Entry>)
        ensures
            entries_fit(entries_view(entries@), parse_text(self@)),
    {
        parse_all(self.text.as_str())
    }

    /// The entries whose command matches `pattern`, in the order of the file.
    pub fn search(&self, pattern: &str, mode: SearchMode, case_sensitive: bool) -> (found: Vec<Entry>)
        ensures
            entries_fit(
                entries_view(found@),
                matching_records(parse_text(self@), pattern@, mode, case_sensitive),
            ),
    {
        let entries = self.read_all();
        let ghost rs = parse_text(self@);
        let pred = make_predicate(pattern, mode, case_sensitive);
        let mut found: Vec<Entry> = Vec::new();
        let n = entries.len();
        assert(entries_view(found@) =~= Seq::<EntryView>::empty());
        for i in 0..n
            invariant
                n == entries.len(),
                entries_fit(entries_view(entries@), rs),
                pred.source() == pattern@,
                pred.mode() == mode,
                pred.case_sensitive() == case_sensitive,
                entries_fit(
                    entries_view(found@),
                    matching_records(rs.take(i as int), pattern@, mode, case_sensitive),
                ),
        {
            let ghost before = matching_records(rs.take(i as int), pattern@, mode, case_sensitive);
            assert(rs.take(i + 1).drop_last() =~= rs.take(i as int));
            assert(entry_fits(entries_view(entries@)[i as int], rs[i as int]));
            assert(rs.take(i + 1).last() == rs[i as int]);
            if pred.matches(&entries[i]) {
                let e = entries[i].copy();
                let ghost old_found = entries_view(found@);
                found.push(e);
                assert(entries_view(found@) =~= old_found.push(e@));
                assert(matching_records(rs.take(i + 1), pattern@, mode, case_sensitive) == before.push(rs[i as int]));
                assert forall|k: int| 0 <= k < entries_view(found@).len() implies entry_fits(
                    #[trigger] entries_view(found@)[k],
                    matching_records(rs.take(i + 1), pattern@, mode, case_sensitive)[k],
                ) by {
                    if k < old_found.len() {
                        assert(entry_fits(old_found[k], before[k]));
                    }
                }
            }
        }
        assert(rs.take(n as int) =~= rs);
        found
    }

    /// Appends `entry` to the history.
    pub fn append(&mut self, entry: &Entry)
        ensures
            final(self)@ == old(self)@ + crate::writer::entry_text(entry@),
    {
        write_entry(&mut self.text, entry);
    }

    /// Removes the entries whose command matches `pattern` and gives how many it removed.
    /// The history is written anew with the other entries, as they were read.
    pub fn delete(&mut self, pattern: &str, mode: SearchMode, case_sensitive: bool) -> (removed: usize)
        ensures
            exists|es: Seq<EntryView>|
                {
                    &&& entries_fit(es, parse_text(old(self)@))
                    &&& final(self)@ == entries_text(other_entries(es, pattern@, mode, case_sensitive))
                    &&& removed == matching_entries(es, pattern@, mode, case_sensitive).len()
                },
    {
        let entries = self.read_all();
        let ghost es = entries_view(entries@);
        let pred = make_predicate(pattern, mode, case_sensitive);
        let mut out = String::new();
        let mut removed: usize = 0;
        let n = entries.len();
        assert(out@ =~= entries_text(other_entries(es.take(0), pattern@, mode, case_sensitive)));
        for i in 0..n
            invariant
                n == entries.len(),
                es == entries_view(entries@),
                pred.source() == pattern@,
                pred.mode() == mode,
                pred.case_sensitive() == case_sensitive,
                removed <= i,
                out@ == entries_text(other_entries(es.take(i as int), pattern@, mode, case_sensitive)),
                removed == matching_entries(es.take(i as int), pattern@, mode, case_sensitive).len(),
        {
            assert(es.take(i + 1).drop_last() =~= es.take(i as int));
            assert(es.take(i + 1).last() == entries@[i as int]@);
            if pred.matches(&entries[i]) {
                removed = removed + 1;
            } else {
                let ghost kept = other_entries(es.take(i as int), pattern@, mode, case_sensitive);
                write_entry(&mut out, &entries[i]);
                assert(other_entries(es.take(i + 1), pattern@, mode, case_sensitive) == kept.push(entries@[i as int]@));
                assert(kept.push(entries@[i as int]@).drop_last() =~= kept);
            }
        }
        assert(es.take(n as int) =~= es);
        self.text = out;
        removed
    }

    /// Removes every entry.
    pub fn clear(&mut self)
        ensures
            final(self)@ == Seq::<char>::empty(),
    {
        self.text = String::new();
    }

    /// Appends the entries that `incoming` holds, in order, and gives how many they are.
    pub fn merge(&mut self, incoming: &str) -> (count: usize)
        ensures
            exists|es: Seq<EntryView>|
                {
                    &&& entries_fit(es, parse_text(incoming@))
                    &&& final(self)@ == old(self)@ + entries_text(es)
                    &&& count == es.len()
                },
    {
        let entries = parse_all(incoming);
        let ghost es = entries_view(entries@);
        let ghost start = self.text@;
        let n = entries.len();
        assert(start + entries_text(es.take(0)) =~= start);
        for i in 0..n
            invariant
                n == entries.len(),
                es == entries_view(entries@),
                self.text@ == start + entries_text(es.take(i as int)),
        {
            write_entry(&mut self.text, &entries[i]);
            assert(es.take(i + 1).drop_last() =~= es.take(i as int));
            assert(es.take(i + 1).last() == entries@[i as int]@);
            assert(self.text@ =~= start + entries_text(es.take(i + 1)));
        }
        assert(es.take(n as int) =~= es);
        n
    }
}

/// The entry that records `command`, run at `now` in `cwd` with `exit_code`; none for an
/// empty command, which is not recorded.
pub fn new_entry_at(command: String, cwd: Option<String>, exit_code: Option<i32>, now: i64) -> (e: Option<Entry>)
    ensures
        e is None <==> command@.len() == 0,
        e matches Some(x) ==> x.command@ == command@ && opt_chars(x.cwd) == opt_chars(cwd)
            && x.exit_code == exit_code && x.when == now,
{
    if command.as_str().is_empty() {
        None
    } else {
        Some(Entry { command, when: now, cwd, exit_code })
    }
}

/// The entry that records `command`, run now in `cwd` with `exit_code`; none for an empty
/// command, which is not recorded. The time is read from the clock only for a command
/// that is recorded.
pub fn new_entry(command: String, cwd: Option<String>, exit_code: Option<i32>) -> (e: Option<Entry>)
    ensures
        e is None <==> command@.len() == 0,
        e matches Some(x) ==> x.command@ == command@ && opt_chars(x.cwd) == opt_chars(cwd)
            && x.exit_code == exit_code,
{
    if command.as_str().is_empty() {
        None
    } else {
        new_entry_at(command, cwd, exit_code, current_timestamp())
    }
}

} // verus!
