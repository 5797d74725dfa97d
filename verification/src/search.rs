use vstd::prelude::*;

use crate::entry::{Entry, EntryRecord, EntryView, SearchMode};
use crate::text::{chars_eq, chars_of, contains, contains_seq, has_prefix, starts_with};

verus! {

/// What `str::to_lowercase` gives for a string: its lowercase form under Unicode's rules,
/// which take pages to state.
pub uninterp spec fn lowercase(s: Seq<char>) -> Seq<char>;

/// The lowercase form of `s`, by `str::to_lowercase`, which is a function of `s` alone.
/// Each character maps to one or more characters, so the result is empty exactly where `s`
/// is; nothing more of it is stated.
#[verifier::external_body]
fn to_lowercase(s: &str) -> (r: String)
    ensures
        r@ == lowercase(s@),
        r@.len() == 0 <==> s@.len() == 0,
{
    s.to_lowercase()
}

/// `target` matches `pattern` in the given mode, character for character.
pub open spec fn text_matches(target: Seq<char>, pattern: Seq<char>, mode: SearchMode) -> bool {
    match mode {
        SearchMode::Contains => contains_seq(target, pattern),
        SearchMode::Exact => target == pattern,
        SearchMode::Prefix => has_prefix(target, pattern),
    }
}

/// A command matches a pattern: as written where the comparison is case sensitive, else
/// in the lowercase forms of both.
pub open spec fn command_matches(
    command: Seq<char>,
    pattern: Seq<char>,
    mode: SearchMode,
    case_sensitive: bool,
) -> bool {
    if case_sensitive {
        text_matches(command, pattern, mode)
    } else {
        text_matches(lowercase(command), lowercase(pattern), mode)
    }
}

/// The elements of `xs` that `keep` accepts, in order.
pub open spec fn select<A>(xs: Seq<A>, keep: spec_fn(A) -> bool) -> Seq<A>
    decreases xs.len(),
{
    if xs.len() == 0 {
        Seq::empty()
    } else if keep(xs.last()) {
        select(xs.drop_last(), keep).push(xs.last())
    } else {
        select(xs.drop_last(), keep)
    }
}

/// The records whose command matches.
pub open spec fn matching_records(
    rs: Seq<EntryRecord>,
    pattern: Seq<char>,
    mode: SearchMode,
    case_sensitive: bool,
) -> Seq<EntryRecord> {
    select(rs, |r: EntryRecord| command_matches(r.command, pattern, mode, case_sensitive))
}

/// The entries whose command matches.
pub open spec fn matching_entries(
    es: Seq<EntryView>,
    pattern: Seq<char>,
    mode: SearchMode,
    case_sensitive: bool,
) -> Seq<EntryView> {
    select(es, |e: EntryView| command_matches(e.command, pattern, mode, case_sensitive))
}

/// The entries whose command does not match.
pub open spec fn other_entries(
    es: Seq<EntryView>,
    pattern: Seq<char>,
    mode: SearchMode,
    case_sensitive: bool,
) -> Seq<EntryView> {
    select(es, |e: EntryView| !command_matches(e.command, pattern, mode, case_sensitive))
}

/// Whether `target` matches `pattern` in the given mode, character for character.
pub fn matches_text(target: &str, pattern: &str, mode: SearchMode) -> (r: bool)
    ensures
        r == text_matches(target@, pattern@, mode),
{
    let t = chars_of(target);
    let p = chars_of(pattern);
    matches_chars(&t, &p, mode)
}

fn matches_chars(t: &Vec<char>, p: &Vec<char>, mode: SearchMode) -> (r: bool)
    ensures
        r == text_matches(t@, p@, mode),
{
    match mode {
        SearchMode::Contains => contains(t, p),
        SearchMode::Exact => chars_eq(t, p),
        SearchMode::Prefix => starts_with(t, p),
    }
}

/// A test of commands against a pattern.
pub struct Predicate {
    pattern: Vec<char>,
    source: Ghost<Seq<char>>,
    mode: SearchMode,
    case_sensitive: bool,
}

impl Predicate {
    /// The pattern as given.
    pub closed spec fn source(&self) -> Seq<char> {
        self.source@
    }

    pub closed spec fn mode(&self) -> SearchMode {
        self.mode
    }

    pub closed spec fn case_sensitive(&self) -> bool {
        self.case_sensitive
    }

    #[verifier::type_invariant]
    spec fn inv(&self) -> bool {
        &&& self.pattern@ == if self.case_sensitive {
            self.source@
        } else {
            lowercase(self.source@)
        }
        &&& (self.pattern@.len() == 0 <==> self.source@.len() == 0)
    }

    /// Whether the command of `entry` matches.
    pub fn matches(&self, entry: &Entry) -> (r: bool)
        ensures
            r == command_matches(entry.command@, self.source(), self.mode(), self.case_sensitive()),
            self.source().len() == 0 && self.mode() != SearchMode::Exact ==> r,
            self.source().len() == 0 && self.mode() == SearchMode::Exact ==> (r <==> entry.command@.len()
                == 0),
    {
        proof {
            use_type_invariant(self);
        }
        let target = if self.case_sensitive {
            chars_of(entry.command.as_str())
        } else {
            let lower = to_lowercase(entry.command.as_str());
            chars_of(lower.as_str())
        };
        assert(target@.len() == 0 <==> entry.command@.len() == 0);
        if self.pattern.len() == 0 {
            assert(target@.subrange(0, 0) =~= self.pattern@);
            assert(crate::text::occurs_at(target@, self.pattern@, 0));
            assert(target@.len() == 0 ==> target@ =~= self.pattern@);
        }
        matches_chars(&target, &self.pattern, self.mode)
    }
}

/// The test that `search` and `delete` apply: the pattern compared with each command in the
/// given mode, ignoring case unless `case_sensitive`.
pub fn make_predicate(pattern: &str, mode: SearchMode, case_sensitive: bool) -> (p: Predicate)
    ensures
        p.source() == pattern@,
        p.mode() == mode,
        p.case_sensitive() == case_sensitive,
{
    let chars = if case_sensitive {
        chars_of(pattern)
    } else {
        let lower = to_lowercase(pattern);
        chars_of(lower.as_str())
    };
    Predicate { pattern: chars, source: Ghost(pattern@), mode, case_sensitive }
}

/// The mode of a search: exact, else prefix, else contains.
pub fn search_mode(exact: bool, prefix: bool) -> (m: SearchMode)
    ensures
        m == (if exact {
            SearchMode::Exact
        } else if prefix {
            SearchMode::Prefix
        } else {
            SearchMode::Contains
        }),
{
    if exact {
        SearchMode::Exact
    } else if prefix {
        SearchMode::Prefix
    } else {
        SearchMode::Contains
    }
}

/// The mode of a deletion: prefix, else contains, else exact.
pub fn delete_mode(contains: bool, prefix: bool) -> (m: SearchMode)
    ensures
        m == (if prefix {
            SearchMode::Prefix
        } else if contains {
            SearchMode::Contains
        } else {
            SearchMode::Exact
        }),
{
    if prefix {
        SearchMode::Prefix
    } else if contains {
        SearchMode::Contains
    } else {
        SearchMode::Exact
    }
}

} // verus!
