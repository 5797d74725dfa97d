use vstd::prelude::*;

use crate::entry::{Entry, EntryView};
use crate::numeric::{decimal, decimal_i64};
use crate::text::{
    append_chars, block_lines, contains_char, lines_view, push_chars, split_lines,
    split_lines_exec, terminated,
};

verus! {

// ---------------------------------------------------------------------------
// The words of the history format
// ---------------------------------------------------------------------------

/// `- cmd: `
pub open spec fn lit_cmd() -> Seq<char> {
    seq!['-', ' ', 'c', 'm', 'd', ':', ' ']
}

/// `- cmd: |`, which opens a block of command lines.
pub open spec fn lit_cmd_block() -> Seq<char> {
    seq!['-', ' ', 'c', 'm', 'd', ':', ' ', '|']
}

/// The indent of a line in a block.
pub open spec fn lit_indent() -> Seq<char> {
    seq![' ', ' ', ' ', ' ']
}

/// `  when: `
pub open spec fn lit_when() -> Seq<char> {
    seq![' ', ' ', 'w', 'h', 'e', 'n', ':', ' ']
}

/// `  cwd: `
pub open spec fn lit_cwd() -> Seq<char> {
    seq![' ', ' ', 'c', 'w', 'd', ':', ' ']
}

/// `  exit_code: `
pub open spec fn lit_exit() -> Seq<char> {
    seq![' ', ' ', 'e', 'x', 'i', 't', '_', 'c', 'o', 'd', 'e', ':', ' ']
}

/// `  paths:`, which opens a list of paths in fish's format.
pub open spec fn lit_paths() -> Seq<char> {
    seq![' ', ' ', 'p', 'a', 't', 'h', 's', ':']
}

/// `    - `, an item of a list of paths.
pub open spec fn lit_path_item() -> Seq<char> {
    seq![' ', ' ', ' ', ' ', '-', ' ']
}

pub fn lit_cmd_exec() -> (v: Vec<char>)
    ensures
        v@ == lit_cmd(),
{
    let v = vec!['-', ' ', 'c', 'm', 'd', ':', ' '];
    assert(v@ =~= lit_cmd());
    v
}

pub fn lit_cmd_block_exec() -> (v: Vec<char>)
    ensures
        v@ == lit_cmd_block(),
{
    let v = vec!['-', ' ', 'c', 'm', 'd', ':', ' ', '|'];
    assert(v@ =~= lit_cmd_block());
    v
}

pub fn lit_indent_exec() -> (v: Vec<char>)
    ensures
        v@ == lit_indent(),
{
    let v = vec![' ', ' ', ' ', ' '];
    assert(v@ =~= lit_indent());
    v
}

pub fn lit_when_exec() -> (v: Vec<char>)
    ensures
        v@ == lit_when(),
{
    let v = vec![' ', ' ', 'w', 'h', 'e', 'n', ':', ' '];
    assert(v@ =~= lit_when());
    v
}

pub fn lit_cwd_exec() -> (v: Vec<char>)
    ensures
        v@ == lit_cwd(),
{
    let v = vec![' ', ' ', 'c', 'w', 'd', ':', ' '];
    assert(v@ =~= lit_cwd());
    v
}

pub fn lit_exit_exec() -> (v: Vec<char>)
    ensures
        v@ == lit_exit(),
{
    let v = vec![' ', ' ', 'e', 'x', 'i', 't', '_', 'c', 'o', 'd', 'e', ':', ' '];
    assert(v@ =~= lit_exit());
    v
}

pub fn lit_paths_exec() -> (v: Vec<char>)
    ensures
        v@ == lit_paths(),
{
    let v = vec![' ', ' ', 'p', 'a', 't', 'h', 's', ':'];
    assert(v@ =~= lit_paths());
    v
}

pub fn lit_path_item_exec() -> (v: Vec<char>)
    ensures
        v@ == lit_path_item(),
{
    let v = vec![' ', ' ', ' ', ' ', '-', ' '];
    assert(v@ =~= lit_path_item());
    v
}

// ---------------------------------------------------------------------------
// The text of an entry
// ---------------------------------------------------------------------------

/// Each line with the block indent in front.
pub open spec fn indented(ls: Seq<Seq<char>>) -> Seq<Seq<char>> {
    ls.map_values(|l: Seq<char>| lit_indent() + l)
}

/// The lines that hold a command: one `- cmd: ` line for a single-line command; for a
/// command with `'\n'`, a `- cmd: |` line and then each of its lines indented, with one
/// indented empty line more where the command ends with `'\n'`.
pub open spec fn command_lines(cmd: Seq<char>) -> Seq<Seq<char>> {
    if cmd.contains('\n') {
        seq![lit_cmd_block()] + indented(block_lines(cmd))
    } else {
        seq![lit_cmd() + cmd]
    }
}

/// The lines of an entry: its command, its time, then its directory and exit code where
/// it has them.
pub open spec fn entry_lines(e: EntryView) -> Seq<Seq<char>> {
    command_lines(e.command) + seq![lit_when() + decimal(e.when as int)] + (match e.cwd {
        Some(c) => seq![lit_cwd() + c],
        None => Seq::empty(),
    }) + (match e.exit_code {
        Some(x) => seq![lit_exit() + decimal(x as int)],
        None => Seq::empty(),
    })
}

/// The text of an entry: its lines, each ended by `'\n'`.
pub open spec fn entry_text(e: EntryView) -> Seq<char> {
    terminated(entry_lines(e))
}

/// The text of the entries, one after another.
pub open spec fn entries_text(es: Seq<EntryView>) -> Seq<char>
    decreases es.len(),
{
    if es.len() == 0 {
        Seq::empty()
    } else {
        entries_text(es.drop_last()) + entry_text(es.last())
    }
}

/// Appends each line and a `'\n'` after it.
fn push_terminated(out: &mut String, ls: &Vec<Vec<char>>)
    ensures
        final(out)@ == old(out)@ + terminated(lines_view(ls@)),
{
    let n = ls.len();
    let nl = vec!['\n'];
    assert(nl@ =~= seq!['\n']);
    for i in 0..n
        invariant
            n == ls.len(),
            nl@ == seq!['\n'],
            out@ == old(out)@ + terminated(lines_view(ls@).take(i as int)),
    {
        push_chars(out, &ls[i]);
        push_chars(out, &nl);
        let ghost next = lines_view(ls@).take(i + 1);
        assert(next.drop_last() =~= lines_view(ls@).take(i as int));
        assert(out@ =~= old(out)@ + terminated(next));
    }
    assert(lines_view(ls@).take(n as int) =~= lines_view(ls@));
}

/// `a` followed by `b`, as a new vector.
fn concat(a: Vec<char>, b: &Vec<char>) -> (r: Vec<char>)
    ensures
        r@ == a@ + b@,
{
    let mut r = a;
    append_chars(&mut r, b);
    r
}

/// The lines that hold a command.
fn command_lines_exec(cmd: &Vec<char>) -> (ls: Vec<Vec<char>>)
    ensures
        lines_view(ls@) == command_lines(cmd@),
{
    let mut ls: Vec<Vec<char>> = Vec::new();
    if contains_char(cmd, '\n') {
        ls.push(lit_cmd_block_exec());
        let parts = split_lines_exec(cmd);
        let n = parts.len();
        for i in 0..n
            invariant
                n == parts.len(),
                lines_view(parts@) == split_lines(cmd@),
                lines_view(ls@) == seq![lit_cmd_block()] + indented(split_lines(cmd@).take(i as int)),
        {
            let line = concat(lit_indent_exec(), &parts[i]);
            let ghost before = ls@;
            ls.push(line);
            assert(lines_view(ls@) =~= lines_view(before).push(line@));
            assert(indented(split_lines(cmd@).take(i + 1)) =~= indented(split_lines(cmd@).take(i as int)).push(
                lit_indent() + split_lines(cmd@)[i as int],
            ));
            assert(lines_view(parts@)[i as int] == parts@[i as int]@);
        }
        assert(split_lines(cmd@).take(n as int) =~= split_lines(cmd@));
        if cmd[cmd.len() - 1] == '\n' {
            let ghost before = ls@;
            ls.push(lit_indent_exec());
            assert(lines_view(ls@) =~= lines_view(before).push(lit_indent()));
            assert(indented(block_lines(cmd@)) =~= indented(split_lines(cmd@)).push(lit_indent() + Seq::<char>::empty()));
            assert(lit_indent() + Seq::<char>::empty() =~= lit_indent());
        }
        assert(lines_view(ls@) =~= command_lines(cmd@));
    } else {
        ls.push(concat(lit_cmd_exec(), cmd));
        assert(lines_view(ls@) =~= command_lines(cmd@));
    }
    ls
}

/// Appends the text of `entry` to `out`, in the history format.
pub fn write_entry(out: &mut String, entry: &Entry)
    ensures
        final(out)@ == old(out)@ + entry_text(entry@),
{
    let cmd = crate::text::chars_of(entry.command.as_str());
    let mut ls = command_lines_exec(&cmd);
    let ghost cl = lines_view(ls@);
    let when_line = concat(lit_when_exec(), &decimal_i64(entry.when));
    ls.push(when_line);
    let ghost l1 = lines_view(ls@);
    assert(l1 =~= cl + seq![lit_when() + decimal(entry.when as int)]);
    match &entry.cwd {
        Some(c) => {
            let cv = crate::text::chars_of(c.as_str());
            ls.push(concat(lit_cwd_exec(), &cv));
        },
        None => {},
    }
    let ghost l2 = lines_view(ls@);
    assert(l2 =~= l1 + (match entry@.cwd {
        Some(c) => seq![lit_cwd() + c],
        None => Seq::<Seq<char>>::empty(),
    }));
    match entry.exit_code {
        Some(x) => {
            let d = decimal_i64(x as i64);
            ls.push(concat(lit_exit_exec(), &d));
        },
        None => {},
    }
    let ghost l3 = lines_view(ls@);
    assert(l3 =~= l2 + (match entry@.exit_code {
        Some(x) => seq![lit_exit() + decimal(x as int)],
        None => Seq::<Seq<char>>::empty(),
    }));
    assert(l3 =~= entry_lines(entry@));
    push_terminated(out, &ls);
}

} // verus!
