use vstd::prelude::*;

verus! {

/// One recorded command.
#[derive(Debug, Clone, PartialEq)]
pub struct Entry {
    pub command: String,
    pub when: i64,
    pub cwd: Option<String>,
    pub exit_code: Option<i32>,
}

/// An entry as plain values.
pub struct EntryView {
    pub command: Seq<char>,
    pub when: i64,
    pub cwd: Option<Seq<char>>,
    pub exit_code: Option<i32>,
}

/// The characters of an optional string.
pub open spec fn opt_chars(o: Option<String>) -> Option<Seq<char>> {
    match o {
        Some(s) => Some(s@),
        None => None,
    }
}

impl View for Entry {
    type V = EntryView;

    open spec fn view(&self) -> EntryView {
        EntryView {
            command: self.command@,
            when: self.when,
            cwd: opt_chars(self.cwd),
            exit_code: self.exit_code,
        }
    }
}

/// What the history text says of one entry. The time is absent where the text gives none
/// or gives one that is not a number.
pub struct EntryRecord {
    pub command: Seq<char>,
    pub when: Option<i64>,
    pub cwd: Option<Seq<char>>,
    pub exit_code: Option<i32>,
}

/// The record that the text of an entry gives back.
pub open spec fn record_of(e: EntryView) -> EntryRecord {
    EntryRecord { command: e.command, when: Some(e.when), cwd: e.cwd, exit_code: e.exit_code }
}

/// The records of a sequence of entries.
pub open spec fn records_of(es: Seq<EntryView>) -> Seq<EntryRecord> {
    es.map_values(|e: EntryView| record_of(e))
}

/// `e` carries what `r` says: the same command, directory and exit code, and the same time
/// where `r` has one.
pub open spec fn entry_fits(e: EntryView, r: EntryRecord) -> bool {
    &&& e.command == r.command
    &&& e.cwd == r.cwd
    &&& e.exit_code == r.exit_code
    &&& (r.when matches Some(w) ==> e.when == w)
}

/// Each entry carries what the record at its position says.
pub open spec fn entries_fit(es: Seq<EntryView>, rs: Seq<EntryRecord>) -> bool {
    &&& es.len() == rs.len()
    &&& forall|i: int| 0 <= i < es.len() ==> entry_fits(#[trigger] es[i], rs[i])
}

/// The plain values of a sequence of entries.
pub open spec fn entries_view(es: Seq<Entry>) -> Seq<EntryView> {
    es.map_values(|e: Entry| e@)
}

/// How a pattern is compared with a command.
#[derive(Debug, Clone, Copy, PartialEq, Eq, Structural)]
pub enum SearchMode {
    /// The command holds the pattern.
    Contains,
    /// The command is the pattern.
    Exact,
    /// The command starts with the pattern.
    Prefix,
}

impl Default for SearchMode {
    fn default() -> (m: SearchMode)
        ensures
            m == SearchMode::Contains,
    {
        SearchMode::Contains
    }
}

/// A copy of an optional string.
pub fn clone_opt_string(o: &Option<String>) -> (r: Option<String>)
    ensures
        opt_chars(r) == opt_chars(*o),
{
    match o {
        Some(s) => Some(s.clone()),
        None => None,
    }
}

impl Entry {
    /// A copy of the entry with the same plain values.
    pub fn copy(&self) -> (r: Entry)
        ensures
            r@ == self@,
    {
        Entry {
            command: self.command.clone(),
            when: self.when,
            cwd: clone_opt_string(&self.cwd),
            exit_code: self.exit_code,
        }
    }
}

} // verus!
