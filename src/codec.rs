//! The shadow log's entry format.
//!
//! An entry written here is three lines:
//!
//! ```text
//! - cmd:git status
//!   when:1737097200
//!   # atuin-uuid:01234567-89ab-cdef-0123-456789abcdef
//! ```
//!
//! fish ignores the comment line; it carries the record's identifier so that
//! a record is not written twice.

use crate::decimal::{
    decimal_of, decimal_string, digits_of, is_digit, lemma_digits_of, lemma_parse_decimal, parse_i64,
    parse_i64_spec,
};
use crate::index::{lemma_lines_cons, lines_of, newline, no_newline, one_line, strip_cr};
use crate::text::{has_prefix, push_chars, starts_with, string_from};
use vstd::prelude::*;

verus! {

/// A history record of the primary store, as far as the shadow log needs it.
pub struct History {
    /// Identifier, unique across machines.
    pub id: String,
    /// Seconds since the Unix epoch.
    pub timestamp: i64,
    /// The command text, which may hold any character.
    pub command: String,
}

impl History {
    pub fn new(id: String, timestamp: i64, command: String) -> (r: History)
        ensures
            r.id@ == id@,
            r.timestamp == timestamp,
            r.command@ == command@,
    {
        History { id, timestamp, command }
    }

    /// A copy of the record.
    pub fn duplicate(&self) -> (r: History)
        ensures
            r == *self,
    {
        History { id: self.id.clone(), timestamp: self.timestamp, command: self.command.clone() }
    }
}

/// `- cmd:`, which begins every entry.
pub open spec fn cmd_marker() -> Seq<char> {
    seq!['-', ' ', 'c', 'm', 'd', ':']
}

/// `  when:`, which begins the timestamp line.
pub open spec fn when_prefix() -> Seq<char> {
    seq![' ', ' ', 'w', 'h', 'e', 'n', ':']
}

/// `  # atuin-uuid:`, which begins the metadata line.
pub open spec fn uuid_prefix() -> Seq<char> {
    seq![' ', ' ', '#', ' ', 'a', 't', 'u', 'i', 'n', '-', 'u', 'u', 'i', 'd', ':']
}

pub(crate) fn cmd_marker_chars() -> (r: Vec<char>)
    ensures
        r@ == cmd_marker(),
{
    let r = vec!['-', ' ', 'c', 'm', 'd', ':'];
    assert(r@ =~= cmd_marker());
    r
}

pub(crate) fn when_prefix_chars() -> (r: Vec<char>)
    ensures
        r@ == when_prefix(),
{
    let r = vec![' ', ' ', 'w', 'h', 'e', 'n', ':'];
    assert(r@ =~= when_prefix());
    r
}

pub(crate) fn uuid_prefix_chars() -> (r: Vec<char>)
    ensures
        r@ == uuid_prefix(),
{
    let r = vec![' ', ' ', '#', ' ', 'a', 't', 'u', 'i', 'n', '-', 'u', 'u', 'i', 'd', ':'];
    assert(r@ =~= uuid_prefix());
    r
}

/// How one character of a command is written.
pub open spec fn escape_char(c: char) -> Seq<char> {
    if c == '\\' {
        seq!['\\', '\\']
    } else if c == '\n' {
        seq!['\\', 'n']
    } else {
        seq![c]
    }
}

/// A command as written in the log: each backslash doubled, each newline
/// written as backslash and `n`, every other character as it is.
pub open spec fn escape_spec(s: Seq<char>) -> Seq<char>
    decreases s.len(),
{
    if s.len() == 0 {
        Seq::empty()
    } else {
        escape_spec(s.drop_last()) + escape_char(s.last())
    }
}

/// The first line of an entry.
pub open spec fn cmd_line(command: Seq<char>) -> Seq<char> {
    cmd_marker() + escape_spec(command)
}

/// The timestamp line of an entry.
pub open spec fn when_line(timestamp: i64) -> Seq<char> {
    when_prefix() + decimal_of(timestamp as int)
}

/// The metadata line of an entry.
pub open spec fn meta_line(id: Seq<char>) -> Seq<char> {
    uuid_prefix() + id
}

/// The text of the entry for a record: its three lines, each ended by a
/// newline.
pub open spec fn entry_text(id: Seq<char>, timestamp: i64, command: Seq<char>) -> Seq<char> {
    cmd_line(command) + seq!['\n'] + when_line(timestamp) + seq!['\n'] + meta_line(id) + seq!['\n']
}

/// The entry for `h`.
pub open spec fn entry_of(h: History) -> Seq<char> {
    entry_text(h.id@, h.timestamp, h.command@)
}

/// The timestamp that a line gives: the value after the timestamp prefix,
/// when the line has that prefix and the rest is an integer.
pub open spec fn timestamp_of_line(line: Seq<char>) -> Option<i64> {
    if has_prefix(line, when_prefix()) {
        parse_i64_spec(line.skip(when_prefix().len() as int))
    } else {
        None
    }
}

/// The identifier that a line carries: what follows the metadata prefix,
/// when the line has that prefix.
pub open spec fn id_of_line(line: Seq<char>) -> Option<Seq<char>> {
    if has_prefix(line, uuid_prefix()) {
        Some(line.skip(uuid_prefix().len() as int))
    } else {
        None
    }
}

/// An escaped command holds no newline, so it stays on its line.
pub proof fn lemma_escape_no_newline(s: Seq<char>)
    ensures
        no_newline(escape_spec(s)),
    decreases s.len(),
{
    if s.len() > 0 {
        lemma_escape_no_newline(s.drop_last());
        let e = escape_spec(s);
        let a = escape_spec(s.drop_last());
        assert forall|i: int| 0 <= i < e.len() implies e[i] != '\n' by {
            if i >= a.len() {
                assert(e[i] == escape_char(s.last())[i - a.len()]);
            }
        }
    }
}

/// The three lines of an entry hold no newline when the identifier holds
/// none; the timestamp line, and the metadata line of an identifier that
/// fits on one line, do not end with a carriage return.
pub proof fn lemma_entry_lines_no_newline(id: Seq<char>, timestamp: i64, command: Seq<char>)
    requires
        one_line(id),
    ensures
        no_newline(cmd_line(command)),
        no_newline(when_line(timestamp)),
        no_newline(meta_line(id)),
        strip_cr(when_line(timestamp)) == when_line(timestamp),
        strip_cr(meta_line(id)) == meta_line(id),
{
    lemma_escape_no_newline(command);
    let e = escape_spec(command);
    let c = cmd_line(command);
    assert forall|i: int| 0 <= i < c.len() implies c[i] != '\n' by {
        if i >= cmd_marker().len() {
            assert(c[i] == e[i - cmd_marker().len()]);
        }
    }
    let d = decimal_of(timestamp as int);
    if timestamp < 0 {
        lemma_digits_of((-(timestamp as int)) as nat);
    } else {
        lemma_digits_of(timestamp as nat);
    }
    assert forall|i: int| 0 <= i < d.len() implies d[i] != '\n' by {
        if timestamp < 0 && i >= 1 {
            assert(d[i] == digits_of((-(timestamp as int)) as nat)[i - 1]);
            assert(is_digit(d[i]));
        } else if timestamp >= 0 {
            assert(is_digit(d[i]));
        }
    }
    let w = when_line(timestamp);
    assert forall|i: int| 0 <= i < w.len() implies w[i] != '\n' by {
        if i >= when_prefix().len() {
            assert(w[i] == d[i - when_prefix().len()]);
        }
    }
    assert(is_digit(w.last())) by {
        assert(w.last() == d.last());
        if timestamp < 0 {
            assert(d.last() == digits_of((-(timestamp as int)) as nat).last());
        }
    }
    let m = meta_line(id);
    assert forall|i: int| 0 <= i < m.len() implies m[i] != '\n' by {
        if i >= uuid_prefix().len() {
            assert(m[i] == id[i - uuid_prefix().len()]);
        }
    }
    if id.len() > 0 {
        assert(m.last() == id.last());
    }
}

/// An entry followed by more text: its three lines come first (the command
/// line without a carriage return that ends it), then the lines of what
/// follows.
pub proof fn lemma_entry_then(id: Seq<char>, timestamp: i64, command: Seq<char>, rest: Seq<char>)
    requires
        one_line(id),
    ensures
        lines_of(entry_text(id, timestamp, command) + rest) == seq![
            strip_cr(cmd_line(command)),
            when_line(timestamp),
            meta_line(id),
        ] + lines_of(rest),
{
    lemma_entry_lines_no_newline(id, timestamp, command);
    let l0 = cmd_line(command);
    let l1 = when_line(timestamp);
    let l2 = meta_line(id);
    lemma_lines_cons(l2, rest);
    lemma_lines_cons(l1, l2 + newline() + rest);
    lemma_lines_cons(l0, l1 + newline() + (l2 + newline() + rest));
    assert(entry_text(id, timestamp, command) + rest =~= l0 + newline() + (l1 + newline() + (l2
        + newline() + rest)));
    assert(seq![strip_cr(l0)] + (seq![l1] + (seq![l2] + lines_of(rest))) =~= seq![
        strip_cr(l0),
        l1,
        l2,
    ] + lines_of(
        rest,
    ));
}

/// Decoding the fields of an encoded entry gives back what was encoded: its
/// lines are the command line, the timestamp line and the metadata line (then
/// the empty rest after the last newline); the timestamp line reads as the
/// record's timestamp and the metadata line as its identifier. The
/// identifier must fit on one line: no newline, which would break its line,
/// and no carriage return at its end, which reading the line drops (a
/// command that ends with one loses it the same way).
pub proof fn lemma_entry_round_trip(id: Seq<char>, timestamp: i64, command: Seq<char>)
    requires
        one_line(id),
    ensures
        lines_of(entry_text(id, timestamp, command)) == seq![
            strip_cr(cmd_line(command)),
            when_line(timestamp),
            meta_line(id),
            Seq::<char>::empty(),
        ],
        timestamp_of_line(lines_of(entry_text(id, timestamp, command))[1]) == Some(timestamp),
        id_of_line(lines_of(entry_text(id, timestamp, command))[2]) == Some(id),
{
    let e = entry_text(id, timestamp, command);
    lemma_entry_then(id, timestamp, command, Seq::<char>::empty());
    assert(e + Seq::<char>::empty() =~= e);
    assert(lines_of(Seq::<char>::empty()) == seq![Seq::<char>::empty()]);
    assert(lines_of(e) =~= seq![
        strip_cr(cmd_line(command)),
        when_line(timestamp),
        meta_line(id),
        Seq::<char>::empty(),
    ]);
    let w = when_line(timestamp);
    assert(w.take(when_prefix().len() as int) =~= when_prefix());
    assert(w.skip(when_prefix().len() as int) =~= decimal_of(timestamp as int));
    lemma_parse_decimal(timestamp);
    let m = meta_line(id);
    assert(m.take(uuid_prefix().len() as int) =~= uuid_prefix());
    assert(m.skip(uuid_prefix().len() as int) =~= id);
}

/// Appends the escaped form of `cmd` to `out`.
fn push_escaped(out: &mut String, cmd: &[char])
    ensures
        final(out)@ == old(out)@ + escape_spec(cmd@),
{
    let ghost start = out@;
    let mut i: usize = 0;
    while i < cmd.len()
        invariant
            i <= cmd@.len(),
            out@ == start + escape_spec(cmd@.take(i as int)),
        decreases cmd@.len() - i,
    {
        let c = cmd[i];
        proof {
            let t = cmd@.take(i + 1);
            assert(t.drop_last() =~= cmd@.take(i as int));
            assert(t.last() == c);
        }
        if c == '\\' {
            push_chars(out, &['\\', '\\']);
        } else if c == '\n' {
            push_chars(out, &['\\', 'n']);
        } else {
            push_chars(out, &[c]);
        }
        i = i + 1;
    }
    assert(cmd@.take(i as int) =~= cmd@);
}

/// Escapes a command for the log (see `escape_spec`).
pub fn escape_command(cmd: &str) -> (r: String)
    ensures
        r@ == escape_spec(cmd@),
{
    let cs = crate::text::chars_of(cmd);
    let mut out = String::new();
    push_escaped(&mut out, cs.as_slice());
    out
}

/// The text of the entry for `history`: the escaped command after the entry
/// marker, the timestamp line, and the metadata line with the identifier.
pub fn format_fish_entry(history: &History) -> (r: String)
    ensures
        r@ == entry_of(*history),
{
    let mut out = String::new();
    push_chars(&mut out, cmd_marker_chars().as_slice());
    let cmd = crate::text::chars_of(history.command.as_str());
    push_escaped(&mut out, cmd.as_slice());
    push_chars(&mut out, &['\n']);
    push_chars(&mut out, when_prefix_chars().as_slice());
    let ts = crate::text::chars_of(decimal_string(history.timestamp).as_str());
    push_chars(&mut out, ts.as_slice());
    push_chars(&mut out, &['\n']);
    push_chars(&mut out, uuid_prefix_chars().as_slice());
    let id = crate::text::chars_of(history.id.as_str());
    push_chars(&mut out, id.as_slice());
    push_chars(&mut out, &['\n']);
    proof {
        assert(out@ =~= entry_of(*history));
    }
    out
}

/// The timestamp of a line given as characters (see `timestamp_of_line`).
pub(crate) fn timestamp_of_chars(line: &[char]) -> (r: Option<i64>)
    ensures
        r == timestamp_of_line(line@),
{
    let prefix = when_prefix_chars();
    if starts_with(line, prefix.as_slice()) {
        let rest = string_from(line, prefix.len());
        parse_i64(rest.as_str())
    } else {
        None
    }
}

/// The identifier of a line given as characters (see `id_of_line`).
pub(crate) fn id_of_chars(line: &[char]) -> (r: Option<String>)
    ensures
        r is Some <==> id_of_line(line@) is Some,
        r is Some ==> r->0@ == id_of_line(line@)->0,
{
    let prefix = uuid_prefix_chars();
    if starts_with(line, prefix.as_slice()) {
        Some(string_from(line, prefix.len()))
    } else {
        None
    }
}

/// Reads the timestamp from a timestamp line: `Some` exactly when the line
/// begins with `  when:` and an integer follows.
pub fn decode_timestamp(line: &str) -> (r: Option<i64>)
    ensures
        r == timestamp_of_line(line@),
{
    let cs = crate::text::chars_of(line);
    timestamp_of_chars(cs.as_slice())
}

/// Reads the identifier from a metadata line: `Some` exactly when the line
/// begins with `  # atuin-uuid:`, holding what follows.
pub fn decode_id(line: &str) -> (r: Option<String>)
    ensures
        r is Some <==> id_of_line(line@) is Some,
        r is Some ==> r->0@ == id_of_line(line@)->0,
{
    let cs = crate::text::chars_of(line);
    id_of_chars(cs.as_slice())
}

} // verus!
