use vstd::prelude::*;
use vstd::std_specs::iter::IteratorSpec;

verus! {

broadcast use vstd::string::group_string_axioms;

// ---------------------------------------------------------------------------
// Specifications over character sequences
// ---------------------------------------------------------------------------

/// `p` is a prefix of `s`.
pub open spec fn has_prefix(s: Seq<char>, p: Seq<char>) -> bool {
    p.len() <= s.len() && s.subrange(0, p.len() as int) == p
}

/// `p` occurs in `s` starting at index `i`.
pub open spec fn occurs_at(s: Seq<char>, p: Seq<char>, i: int) -> bool {
    0 <= i && i + p.len() <= s.len() && s.subrange(i, i + p.len()) == p
}

/// `p` occurs somewhere in `s` (the empty sequence occurs in every sequence).
pub open spec fn contains_seq(s: Seq<char>, p: Seq<char>) -> bool {
    exists|i: int| occurs_at(s, p, i)
}

/// The Unicode `White_Space` characters, which `char::is_whitespace` accepts.
pub open spec fn is_space(c: char) -> bool {
    ||| ('\u{9}' <= c && c <= '\u{d}')
    ||| c == ' '
    ||| c == '\u{85}'
    ||| c == '\u{a0}'
    ||| c == '\u{1680}'
    ||| ('\u{2000}' <= c && c <= '\u{200a}')
    ||| c == '\u{2028}'
    ||| c == '\u{2029}'
    ||| c == '\u{202f}'
    ||| c == '\u{205f}'
    ||| c == '\u{3000}'
}

/// Every character of `s` is white space, so that trimming `s` leaves nothing.
pub open spec fn all_space(s: Seq<char>) -> bool {
    forall|i: int| 0 <= i < s.len() ==> is_space(#[trigger] s[i])
}

/// Index of the first `'\n'` at or after `i`, or `s.len()` when there is none.
pub open spec fn line_end(s: Seq<char>, i: int) -> int
    decreases s.len() - i,
{
    if i >= s.len() {
        s.len() as int
    } else if s[i] == '\n' {
        i
    } else {
        line_end(s, i + 1)
    }
}

/// `line_end` lies between `i` and the length of `s`.
pub proof fn lemma_line_end_bounds(s: Seq<char>, i: int)
    requires
        0 <= i,
    ensures
        i <= s.len() ==> i <= line_end(s, i) <= s.len(),
        i > s.len() ==> line_end(s, i) == s.len(),
        line_end(s, i) < s.len() ==> s[line_end(s, i)] == '\n',
        forall|j: int| i <= j < line_end(s, i) ==> s[j] != '\n',
    decreases s.len() - i,
{
    if i < s.len() && s[i] != '\n' {
        lemma_line_end_bounds(s, i + 1);
    }
}

/// Drops one `'\r'` at the end of a line that a `'\n'` ended.
pub open spec fn strip_cr(l: Seq<char>) -> Seq<char> {
    if l.len() > 0 && l.last() == '\r' {
        l.drop_last()
    } else {
        l
    }
}

/// The lines of `s` from index `start` on: split at each `'\n'`, with a `'\r'` just before
/// a `'\n'` removed; a last line without `'\n'` is kept as it is, an empty rest gives no line.
pub open spec fn split_from(s: Seq<char>, start: int) -> Seq<Seq<char>>
    decreases s.len() - start,
{
    if start >= s.len() || start < 0 {
        Seq::empty()
    } else {
        let e = line_end(s, start);
        proof {
            lemma_line_end_bounds(s, start);
        }
        if e >= s.len() {
            seq![s.subrange(start, s.len() as int)]
        } else {
            seq![strip_cr(s.subrange(start, e))] + split_from(s, e + 1)
        }
    }
}

/// The lines of `s`, as a line reader or `str::lines` yields them.
pub open spec fn split_lines(s: Seq<char>) -> Seq<Seq<char>> {
    split_from(s, 0)
}

/// The lines joined with `'\n'` between them.
pub open spec fn join_lines(ls: Seq<Seq<char>>) -> Seq<char>
    decreases ls.len(),
{
    if ls.len() == 0 {
        Seq::empty()
    } else if ls.len() == 1 {
        ls[0]
    } else {
        join_lines(ls.drop_last()) + seq!['\n'] + ls.last()
    }
}

/// Each line followed by `'\n'`.
pub open spec fn terminated(ls: Seq<Seq<char>>) -> Seq<char>
    decreases ls.len(),
{
    if ls.len() == 0 {
        Seq::empty()
    } else {
        terminated(ls.drop_last()) + ls.last() + seq!['\n']
    }
}

/// No `'\r'` stands just before a `'\n'` or at the very end.
pub open spec fn cr_safe(s: Seq<char>) -> bool {
    forall|i: int| 0 <= i < s.len() && #[trigger] s[i] == '\r' ==> i + 1 < s.len() && s[i + 1] != '\n'
}

/// `s` holds no `'\n'`.
pub open spec fn single_line(s: Seq<char>) -> bool {
    forall|i: int| 0 <= i < s.len() ==> #[trigger] s[i] != '\n'
}

// ---------------------------------------------------------------------------
// Executable helpers
// ---------------------------------------------------------------------------

/// The characters of `s`, in order.
pub fn chars_of(s: &str) -> (v: Vec<char>)
    ensures
        v@ == s@,
{
    let mut it = s.chars();
    let mut v: Vec<char> = Vec::new();
    loop
        invariant
            v@ + it.remaining() == s@,
            it.obeys_prophetic_iter_laws(),
            it.decrease() is Some,
        decreases it.decrease()->0,
    {
        match it.next() {
            Some(c) => {
                v.push(c);
                assert(v@ + it.remaining() =~= s@);
            },
            None => {
                assert(v@ =~= s@);
                return v;
            },
        }
    }
}

/// Appends one character to a string (`String::push`).
#[verifier::external_body]
fn push_char(s: &mut String, c: char)
    ensures
        final(s)@ == old(s)@.push(c),
{
    s.push(c);
}

/// Appends the characters of `v` to `out`.
pub fn push_chars(out: &mut String, v: &Vec<char>)
    ensures
        final(out)@ == old(out)@ + v@,
{
    let n = v.len();
    for i in 0..n
        invariant
            n == v.len(),
            out@ == old(out)@ + v@.subrange(0, i as int),
    {
        push_char(out, v[i]);
        assert(v@.subrange(0, i + 1) =~= v@.subrange(0, i as int).push(v[i as int]));
    }
    assert(v@.subrange(0, n as int) =~= v@);
}

/// A string holding the characters of `v`.
pub fn string_of(v: &Vec<char>) -> (s: String)
    ensures
        s@ == v@,
{
    let mut s = String::new();
    push_chars(&mut s, v);
    assert(s@ =~= v@);
    s
}

/// Whether the two sequences are equal.
pub fn chars_eq(a: &Vec<char>, b: &Vec<char>) -> (r: bool)
    ensures
        r == (a@ == b@),
{
    if a.len() != b.len() {
        return false;
    }
    let n = a.len();
    for i in 0..n
        invariant
            n == a.len(),
            n == b.len(),
            a@.subrange(0, i as int) == b@.subrange(0, i as int),
    {
        if a[i] != b[i] {
            assert(a@[i as int] != b@[i as int]);
            return false;
        }
        assert(a@.subrange(0, i + 1) =~= a@.subrange(0, i as int).push(a[i as int]));
        assert(b@.subrange(0, i + 1) =~= b@.subrange(0, i as int).push(b[i as int]));
    }
    assert(a@ =~= a@.subrange(0, n as int));
    assert(b@ =~= b@.subrange(0, n as int));
    true
}

/// Whether `p` occurs in `s` at index `at`.
fn occurs_at_exec(s: &Vec<char>, p: &Vec<char>, at: usize) -> (r: bool)
    requires
        at <= s.len(),
    ensures
        r == occurs_at(s@, p@, at as int),
{
    if p.len() > s.len() - at {
        return false;
    }
    let n = p.len();
    for i in 0..n
        invariant
            n == p.len(),
            at + n <= s.len(),
            s@.subrange(at as int, at + i) == p@.subrange(0, i as int),
    {
        if s[at + i] != p[i] {
            assert(s@.subrange(at as int, at + n)[i as int] == s@[at + i]);
            return false;
        }
        assert(s@.subrange(at as int, at + i + 1) =~= s@.subrange(at as int, at + i).push(s[at + i]));
        assert(p@.subrange(0, i + 1) =~= p@.subrange(0, i as int).push(p[i as int]));
    }
    assert(p@ =~= p@.subrange(0, n as int));
    true
}

/// Whether `p` is a prefix of `s`.
pub fn starts_with(s: &Vec<char>, p: &Vec<char>) -> (r: bool)
    ensures
        r == has_prefix(s@, p@),
{
    occurs_at_exec(s, p, 0)
}

/// Whether `p` occurs in `s`.
pub fn contains(s: &Vec<char>, p: &Vec<char>) -> (r: bool)
    ensures
        r == contains_seq(s@, p@),
{
    if p.len() > s.len() {
        assert forall|i: int| !occurs_at(s@, p@, i) by {}
        return false;
    }
    if p.len() == 0 {
        assert(s@.subrange(0, 0) =~= p@);
        assert(occurs_at(s@, p@, 0));
        return true;
    }
    let last = s.len() - p.len();
    let mut i: usize = 0;
    while i <= last
        invariant
            last == s.len() - p.len(),
            0 < p.len() <= s.len(),
            i <= last + 1,
            forall|j: int| 0 <= j < i ==> !occurs_at(s@, p@, j),
        decreases last + 1 - i,
    {
        if occurs_at_exec(s, p, i) {
            return true;
        }
        i = i + 1;
    }
    assert forall|j: int| !occurs_at(s@, p@, j) by {
        if 0 <= j && j < i {
        }
    }
    false
}

/// Whether `c` occurs in `s`.
pub fn contains_char(s: &Vec<char>, c: char) -> (r: bool)
    ensures
        r == s@.contains(c),
{
    let n = s.len();
    for i in 0..n
        invariant
            n == s.len(),
            forall|j: int| 0 <= j < i ==> s@[j] != c,
    {
        if s[i] == c {
            assert(s@[i as int] == c);
            return true;
        }
    }
    false
}

/// The characters of `s` from index `k` on.
pub fn suffix_from(s: &Vec<char>, k: usize) -> (r: Vec<char>)
    requires
        k <= s.len(),
    ensures
        r@ == s@.subrange(k as int, s.len() as int),
{
    slice_of(s, k, s.len())
}

/// The characters of `s` in `lo..hi`.
pub fn slice_of(s: &Vec<char>, lo: usize, hi: usize) -> (r: Vec<char>)
    requires
        lo <= hi <= s.len(),
    ensures
        r@ == s@.subrange(lo as int, hi as int),
{
    let mut r: Vec<char> = Vec::new();
    let mut i = lo;
    while i < hi
        invariant
            lo <= i <= hi,
            hi <= s.len(),
            r@ == s@.subrange(lo as int, i as int),
        decreases hi - i,
    {
        r.push(s[i]);
        i = i + 1;
        assert(r@ =~= s@.subrange(lo as int, i as int));
    }
    r
}

/// Whether `c` is white space in the sense of `char::is_whitespace`.
pub fn is_space_exec(c: char) -> (r: bool)
    ensures
        r == is_space(c),
{
    ('\u{9}' <= c && c <= '\u{d}') || c == ' ' || c == '\u{85}' || c == '\u{a0}' || c == '\u{1680}'
        || ('\u{2000}' <= c && c <= '\u{200a}') || c == '\u{2028}' || c == '\u{2029}'
        || c == '\u{202f}' || c == '\u{205f}' || c == '\u{3000}'
}

/// Whether every character of `s` is white space.
pub fn all_space_exec(s: &Vec<char>) -> (r: bool)
    ensures
        r == all_space(s@),
{
    let n = s.len();
    for i in 0..n
        invariant
            n == s.len(),
            forall|j: int| 0 <= j < i ==> is_space(#[trigger] s@[j]),
    {
        if !is_space_exec(s[i]) {
            return false;
        }
    }
    true
}


/// The characters of each line.
pub open spec fn lines_view(ls: Seq<Vec<char>>) -> Seq<Seq<char>> {
    ls.map_values(|l: Vec<char>| l@)
}

/// The lines that a block of text written line by line leaves: the lines of `s`, and one
/// empty line more where `s` ends with `'\n'`.
pub open spec fn block_lines(s: Seq<char>) -> Seq<Seq<char>> {
    if s.len() > 0 && s.last() == '\n' {
        split_lines(s) + seq![Seq::<char>::empty()]
    } else {
        split_lines(s)
    }
}

/// Appends the characters of `v` to `r`.
pub fn append_chars(r: &mut Vec<char>, v: &Vec<char>)
    ensures
        final(r)@ == old(r)@ + v@,
{
    let n = v.len();
    for i in 0..n
        invariant
            n == v.len(),
            r@ == old(r)@ + v@.subrange(0, i as int),
    {
        r.push(v[i]);
        assert(v@.subrange(0, i + 1) =~= v@.subrange(0, i as int).push(v[i as int]));
    }
    assert(v@.subrange(0, n as int) =~= v@);
}

/// Splits `s` into lines as `split_lines` does.
pub fn split_lines_exec(s: &Vec<char>) -> (ls: Vec<Vec<char>>)
    ensures
        lines_view(ls@) == split_lines(s@),
{
    let mut out: Vec<Vec<char>> = Vec::new();
    let mut start: usize = 0;
    let mut i: usize = 0;
    assert(lines_view(out@) =~= Seq::<Seq<char>>::empty());
    while i < s.len()
        invariant
            start <= i <= s.len(),
            split_lines(s@) == lines_view(out@) + split_from(s@, start as int),
            line_end(s@, start as int) == line_end(s@, i as int),
        decreases s.len() - i,
    {
        if s[i] == '\n' {
            proof {
                lemma_line_end_bounds(s@, start as int);
            }
            let mut e = i;
            if e > start && s[e - 1] == '\r' {
                e = e - 1;
            }
            let line = slice_of(s, start, e);
            assert(line@ == strip_cr(s@.subrange(start as int, i as int)));
            let ghost old_out = out@;
            out.push(line);
            assert(lines_view(out@) =~= lines_view(old_out).push(line@));
            assert(split_from(s@, start as int) == seq![line@] + split_from(s@, i + 1));
            assert(split_lines(s@) =~= lines_view(out@) + split_from(s@, i + 1));
            start = i + 1;
        }
        i = i + 1;
    }
    if start < s.len() {
        let line = slice_of(s, start, s.len());
        let ghost old_out = out@;
        out.push(line);
        assert(lines_view(out@) =~= lines_view(old_out).push(line@));
        assert(split_lines(s@) =~= lines_view(out@));
    } else {
        assert(split_lines(s@) =~= lines_view(out@));
    }
    out
}

/// Joins the lines with `'\n'`.
pub fn join_lines_exec(ls: &Vec<Vec<char>>) -> (r: Vec<char>)
    ensures
        r@ == join_lines(lines_view(ls@)),
{
    let mut r: Vec<char> = Vec::new();
    let n = ls.len();
    for i in 0..n
        invariant
            n == ls.len(),
            r@ == join_lines(lines_view(ls@).take(i as int)),
    {
        let ghost before = lines_view(ls@).take(i as int);
        let ghost after = lines_view(ls@).take(i + 1);
        assert(after.drop_last() =~= before);
        if i > 0 {
            r.push('\n');
        }
        append_chars(&mut r, &ls[i]);
        if i == 0 {
            assert(r@ =~= join_lines(after));
        } else {
            assert(r@ =~= join_lines(after));
        }
    }
    assert(lines_view(ls@).take(n as int) =~= lines_view(ls@));
    r
}

// ---------------------------------------------------------------------------
// Lemmas on lines
// ---------------------------------------------------------------------------

/// In a sequence that ends with `'\n'`, every line that starts in it ends in it.
pub proof fn lemma_line_end_before_last(s: Seq<char>, i: int)
    requires
        0 <= i < s.len(),
        s.last() == '\n',
    ensures
        line_end(s, i) < s.len(),
{
    lemma_line_end_bounds(s, i);
    if line_end(s, i) == s.len() {
        assert(s[s.len() - 1] != '\n');
    }
}

proof fn lemma_line_end_shift(a: Seq<char>, b: Seq<char>, j: int)
    requires
        0 <= j,
    ensures
        line_end(a + b, a.len() + j) == a.len() + line_end(b, j),
    decreases b.len() - j,
{
    if j < b.len() && b[j] != '\n' {
        lemma_line_end_shift(a, b, j + 1);
    }
}

proof fn lemma_line_end_prefix(a: Seq<char>, b: Seq<char>, i: int)
    requires
        0 <= i <= a.len(),
        line_end(a, i) < a.len(),
    ensures
        line_end(a + b, i) == line_end(a, i),
    decreases a.len() - i,
{
    if i < a.len() && a[i] != '\n' {
        lemma_line_end_prefix(a, b, i + 1);
    }
}

proof fn lemma_split_shift(a: Seq<char>, b: Seq<char>, j: int)
    requires
        0 <= j,
    ensures
        split_from(a + b, a.len() + j) == split_from(b, j),
    decreases b.len() - j,
{
    if j < b.len() {
        lemma_line_end_shift(a, b, j);
        lemma_line_end_bounds(b, j);
        let e = line_end(b, j);
        assert((a + b).subrange(a.len() + j, a.len() + e) =~= b.subrange(j, e));
        assert((a + b).subrange(a.len() + j, (a + b).len() as int) =~= b.subrange(j, b.len() as int));
        if e < b.len() {
            lemma_split_shift(a, b, e + 1);
        }
    }
}

proof fn lemma_split_prefix(a: Seq<char>, b: Seq<char>, i: int)
    requires
        0 <= i <= a.len(),
        a.len() == 0 || a.last() == '\n',
    ensures
        split_from(a + b, i) == split_from(a, i) + split_from(b, 0),
    decreases a.len() - i,
{
    if i == a.len() {
        lemma_split_shift(a, b, 0);
        assert(split_from(a, i) =~= Seq::<Seq<char>>::empty());
        assert(split_from(a + b, i) =~= split_from(a, i) + split_from(b, 0));
    } else {
        lemma_line_end_before_last(a, i);
        lemma_line_end_bounds(a, i);
        lemma_line_end_prefix(a, b, i);
        let e = line_end(a, i);
        assert((a + b).subrange(i, e) =~= a.subrange(i, e));
        lemma_split_prefix(a, b, e + 1);
        assert(split_from(a + b, i) =~= split_from(a, i) + split_from(b, 0));
    }
}

/// Text that ends with a complete line splits into its own lines followed by those of the rest.
pub proof fn lemma_split_append(a: Seq<char>, b: Seq<char>)
    requires
        a.len() == 0 || a.last() == '\n',
    ensures
        split_lines(a + b) == split_lines(a) + split_lines(b),
{
    lemma_split_prefix(a, b, 0);
}

/// One line with its `'\n'` splits back into that line.
pub proof fn lemma_split_one_line(l: Seq<char>)
    requires
        single_line(l),
        cr_safe(l),
    ensures
        split_lines(l + seq!['\n']) == seq![l],
{
    let s = l + seq!['\n'];
    lemma_line_end_bounds(s, 0);
    if line_end(s, 0) < l.len() {
        assert(s[line_end(s, 0)] == l[line_end(s, 0)]);
        assert(l[line_end(s, 0)] != '\n');
    }
    assert(s[l.len() as int] == '\n');
    assert(line_end(s, 0) == l.len());
    assert(s.subrange(0, l.len() as int) =~= l);
    if l.len() > 0 && l.last() == '\r' {
        assert(l[l.len() - 1] == '\r');
    }
    assert(split_from(s, l.len() as int + 1) =~= Seq::<Seq<char>>::empty());
    assert(split_lines(s) =~= seq![l]);
}

/// Lines written each with its `'\n'` are read back as the same lines.
pub proof fn lemma_split_terminated(ls: Seq<Seq<char>>)
    requires
        forall|k: int| 0 <= k < ls.len() ==> single_line(#[trigger] ls[k]) && cr_safe(ls[k]),
    ensures
        split_lines(terminated(ls)) == ls,
    decreases ls.len(),
{
    if ls.len() == 0 {
        assert(split_lines(terminated(ls)) =~= ls);
    } else {
        let init = ls.drop_last();
        lemma_split_terminated(init);
        let t = terminated(init);
        let l = ls.last();
        assert(single_line(ls[ls.len() - 1]) && cr_safe(ls[ls.len() - 1]));
        lemma_split_one_line(l);
        if init.len() > 0 {
            assert(t.last() == '\n');
        }
        assert(terminated(ls) =~= t + (l + seq!['\n']));
        lemma_split_append(t, l + seq!['\n']);
        assert(split_lines(terminated(ls)) =~= ls);
    }
}

/// Joining a line in front of one or more lines puts a `'\n'` between them.
proof fn lemma_join_cons(x: Seq<char>, rest: Seq<Seq<char>>)
    requires
        rest.len() > 0,
    ensures
        join_lines(seq![x] + rest) == x + seq!['\n'] + join_lines(rest),
    decreases rest.len(),
{
    let all = seq![x] + rest;
    if rest.len() == 1 {
        assert(all.drop_last() =~= seq![x]);
        assert(all.last() == rest[0]);
        assert(join_lines(seq![x]) == x);
        assert(join_lines(all) =~= x + seq!['\n'] + join_lines(rest));
    } else {
        lemma_join_cons(x, rest.drop_last());
        assert(all.drop_last() =~= seq![x] + rest.drop_last());
        assert(join_lines(all) =~= x + seq!['\n'] + join_lines(rest));
    }
}

proof fn lemma_join_block_from(s: Seq<char>, start: int)
    requires
        cr_safe(s),
        0 <= start <= s.len(),
        start == 0 || s[start - 1] == '\n',
    ensures
        join_lines(split_from(s, start) + (if s.len() > 0 && s.last() == '\n' {
            seq![Seq::<char>::empty()]
        } else {
            Seq::<Seq<char>>::empty()
        })) == s.subrange(start, s.len() as int),
    decreases s.len() - start,
{
    let tail = if s.len() > 0 && s.last() == '\n' {
        seq![Seq::<char>::empty()]
    } else {
        Seq::<Seq<char>>::empty()
    };
    if start == s.len() {
        assert(split_from(s, start) + tail =~= tail);
        assert(s.subrange(start, s.len() as int) =~= Seq::<char>::empty());
    } else {
        lemma_line_end_bounds(s, start);
        let e = line_end(s, start);
        if e == s.len() {
            assert(s[s.len() - 1] != '\n');
            assert(split_from(s, start) + tail =~= seq![s.subrange(start, s.len() as int)]);
        } else {
            let x = s.subrange(start, e);
            if x.len() > 0 && x.last() == '\r' {
                assert(s[e - 1] == '\r');
            }
            assert(strip_cr(x) == x);
            lemma_join_block_from(s, e + 1);
            let rest = split_from(s, e + 1) + tail;
            if e + 1 < s.len() {
                assert(split_from(s, e + 1).len() > 0);
            }
            assert(rest.len() > 0);
            assert(split_from(s, start) + tail =~= seq![x] + rest);
            lemma_join_cons(x, rest);
            assert(x + seq!['\n'] + s.subrange(e + 1, s.len() as int) =~= s.subrange(start, s.len() as int));
        }
    }
}

/// Joining the lines of a block gives back the text, when no `'\r'` stands before a `'\n'`
/// or at the end.
pub proof fn lemma_join_block(s: Seq<char>)
    requires
        cr_safe(s),
    ensures
        join_lines(block_lines(s)) == s,
{
    lemma_join_block_from(s, 0);
    assert(s.subrange(0, s.len() as int) =~= s);
}

/// Each line of a text has no `'\n'`; when no `'\r'` stands before a `'\n'` or at the end,
/// no line ends with `'\r'`.
pub proof fn lemma_split_lines_shape(s: Seq<char>, start: int)
    requires
        0 <= start,
    ensures
        forall|k: int| 0 <= k < split_from(s, start).len() ==> single_line(#[trigger] split_from(s, start)[k]),
        cr_safe(s) && (start == 0 || (start <= s.len() && s[start - 1] == '\n')) ==> forall|k: int|
            0 <= k < split_from(s, start).len() ==> cr_safe(#[trigger] split_from(s, start)[k]),
    decreases s.len() - start,
{
    if start < s.len() {
        lemma_line_end_bounds(s, start);
        let e = line_end(s, start);
        let x = s.subrange(start, e);
        if e < s.len() {
            lemma_split_lines_shape(s, e + 1);
            let all = split_from(s, start);
            assert(all == seq![strip_cr(x)] + split_from(s, e + 1));
            assert forall|k: int| 0 <= k < all.len() implies single_line(#[trigger] all[k]) by {
                if k > 0 {
                    assert(all[k] == split_from(s, e + 1)[k - 1]);
                }
            }
            if cr_safe(s) && (start == 0 || s[start - 1] == '\n') {
                assert(cr_safe(strip_cr(x))) by {
                    if x.len() > 0 && x.last() == '\r' {
                        assert(s[e - 1] == '\r');
                    }
                    assert forall|i: int| 0 <= i < strip_cr(x).len() && #[trigger] strip_cr(x)[i] == '\r'
                        implies i + 1 < strip_cr(x).len() && strip_cr(x)[i + 1] != '\n' by {
                        assert(s[start + i] == '\r');
                    }
                }
                assert forall|k: int| 0 <= k < all.len() implies cr_safe(#[trigger] all[k]) by {
                    if k > 0 {
                        assert(all[k] == split_from(s, e + 1)[k - 1]);
                    }
                }
            }
        } else {
            let all = split_from(s, start);
            assert(all == seq![x]);
            assert(single_line(all[0]));
            if cr_safe(s) {
                assert forall|i: int| 0 <= i < x.len() && #[trigger] x[i] == '\r'
                    implies i + 1 < x.len() && x[i + 1] != '\n' by {
                    assert(s[start + i] == '\r');
                }
            }
        }
    }
}
} // verus!
