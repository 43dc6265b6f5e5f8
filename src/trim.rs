//! Retention: keeping the shadow log to its most recent entries.

use crate::codec::{cmd_marker, cmd_marker_chars, id_of_line, uuid_prefix};
use crate::index::{
    ends_line, lemma_pieces_concat, lemma_pieces_single, lemma_synced_ids_concat, lines_of, newline,
    no_newline, pieces_of, synced_ids,
};
use crate::text::{
    chars_of, has_prefix, join_after, lemma_join_after_concat, lemma_split_join,
    lemma_split_nonempty, lemma_split_tail, push_chars, split_chars, split_spec,
};
use vstd::prelude::*;

verus! {

/// The entries of a log: the text after each entry marker, up to the next
/// one, in file order. Text before the first marker belongs to no entry.
pub open spec fn entries_of(c: Seq<char>) -> Seq<Seq<char>> {
    split_spec(c, cmd_marker()).skip(1)
}

/// A log made of the given entries, each after its marker.
pub open spec fn join_entries(entries: Seq<Seq<char>>) -> Seq<char> {
    join_after(entries, cmd_marker())
}

/// The log `c` under a bound of `n` entries: unchanged when `n` is 0 (no
/// bound) or when it holds at most `n` entries; otherwise its last `n`
/// entries alone.
pub open spec fn trimmed(c: Seq<char>, n: nat) -> Seq<char> {
    let es = entries_of(c);
    if n == 0 || es.len() <= n {
        c
    } else {
        join_entries(es.skip(es.len() - n))
    }
}

/// Whether `trim_fish_history` rewrites `c` under the bound `n`.
pub open spec fn needs_trim(c: Seq<char>, n: nat) -> bool {
    n > 0 && entries_of(c).len() > n
}

/// What the log must become under the bound `max_entries`: `None` when it is
/// to stay as it is (no bound, or no more entries than the bound), else the
/// new text, made of the last `max_entries` entries each after its marker.
pub fn trim_fish_history(content: &str, max_entries: usize) -> (r: Option<String>)
    ensures
        r is None <==> !needs_trim(content@, max_entries as nat),
        r is None ==> trimmed(content@, max_entries as nat) == content@,
        r is Some ==> r->0@ == trimmed(content@, max_entries as nat),
{
    if max_entries == 0 {
        return None;
    }
    let cs = chars_of(content);
    let marker = cmd_marker_chars();
    let pieces = split_chars(cs.as_slice(), marker.as_slice());
    let ghost q = split_spec(content@, cmd_marker());
    proof {
        lemma_split_nonempty(content@, cmd_marker());
    }
    if pieces.len() - 1 <= max_entries {
        return None;
    }
    let first: usize = pieces.len() - max_entries;
    let ghost es = entries_of(content@);
    assert(es.skip(es.len() - max_entries) =~= q.skip(first as int));
    let mut out = String::new();
    let mut i: usize = first;
    while i < pieces.len()
        invariant
            first <= i <= pieces@.len(),
            pieces@.len() == q.len(),
            forall|k: int| 0 <= k < pieces@.len() ==> #[trigger] pieces@[k]@ == q[k],
            marker@ == cmd_marker(),
            out@ + join_after(q.skip(i as int), cmd_marker()) == join_after(
                q.skip(first as int),
                cmd_marker(),
            ),
        decreases pieces@.len() - i,
    {
        let ghost before = out@;
        proof {
            assert(q.skip(i as int).skip(1) =~= q.skip(i + 1));
            assert(pieces@[i as int]@ == q[i as int]);
        }
        push_chars(&mut out, marker.as_slice());
        push_chars(&mut out, pieces[i].as_slice());
        i = i + 1;
        proof {
            assert(join_after(q.skip(i - 1), cmd_marker()) == cmd_marker() + q[i - 1] + join_after(
                q.skip(i as int),
                cmd_marker(),
            ));
            assert(out@ + join_after(q.skip(i as int), cmd_marker()) =~= before + join_after(
                q.skip(i - 1),
                cmd_marker(),
            ));
        }
    }
    assert(q.skip(i as int) =~= Seq::<Seq<char>>::empty());
    assert(out@ =~= out@ + join_after(q.skip(i as int), cmd_marker()));
    Some(out)
}

/// Under a bound that it does not exceed, a log stays as it is; above it,
/// exactly its last `n` entries remain, in their order, with nothing before
/// the first of them.
pub proof fn lemma_trim_keeps_last(c: Seq<char>, n: nat)
    ensures
        !needs_trim(c, n) ==> trimmed(c, n) == c,
        needs_trim(c, n) ==> {
            let es = entries_of(c);
            &&& entries_of(trimmed(c, n)) == es.skip(es.len() - n)
            &&& entries_of(trimmed(c, n)).len() == n
            &&& split_spec(trimmed(c, n), cmd_marker())[0] == Seq::<char>::empty()
        },
{
    if needs_trim(c, n) {
        let q = split_spec(c, cmd_marker());
        let es = entries_of(c);
        let j = 1 + es.len() - n;
        lemma_split_nonempty(c, cmd_marker());
        assert(es.skip(es.len() - n) =~= q.skip(j));
        lemma_split_tail(c, cmd_marker(), j);
        let t = trimmed(c, n);
        assert(split_spec(t, cmd_marker()) == seq![Seq::<char>::empty()] + q.skip(j));
        assert(entries_of(t) =~= q.skip(j));
    }
}

/// What trimming to the bound `n` removes from the front of `c`.
pub open spec fn trimmed_head(c: Seq<char>, n: nat) -> Seq<char> {
    c.take(c.len() - trimmed(c, n).len())
}

/// What remains after trimming is the end of the log.
pub proof fn lemma_trim_suffix(c: Seq<char>, n: nat)
    ensures
        trimmed(c, n).len() <= c.len(),
        c == trimmed_head(c, n) + trimmed(c, n),
        needs_trim(c, n) ==> has_prefix(trimmed(c, n), cmd_marker()),
{
    if needs_trim(c, n) {
        let q = split_spec(c, cmd_marker());
        let es = entries_of(c);
        lemma_split_nonempty(c, cmd_marker());
        let j = 1 + es.len() - n;
        assert(es.skip(es.len() - n) =~= q.skip(j));
        lemma_split_join(c, cmd_marker());
        assert(q.skip(1) =~= q.subrange(1, j) + q.skip(j));
        lemma_join_after_concat(q.subrange(1, j), q.skip(j), cmd_marker());
        let head = q[0] + join_after(q.subrange(1, j), cmd_marker());
        let t = trimmed(c, n);
        assert(c =~= head + t);
        assert(c.take(c.len() - t.len()) =~= head);
        assert(t == cmd_marker() + q[j] + join_after(q.skip(j).skip(1), cmd_marker()));
        assert(t.take(cmd_marker().len() as int) =~= cmd_marker());
    } else {
        assert(c.take(0) + c =~= c);
    }
}

/// Trimming only takes identifiers away: every identifier left was in the
/// log. When the part trimmed off ends a line (as it does where every entry
/// ends with a newline), the log's identifiers are exactly those of that part
/// together with those that remain.
pub proof fn lemma_trim_ids(c: Seq<char>, n: nat)
    ensures
        synced_ids(trimmed(c, n)).subset_of(synced_ids(c)),
        ends_line(trimmed_head(c, n)) ==> synced_ids(c) == synced_ids(trimmed_head(c, n)).union(
            synced_ids(trimmed(c, n)),
        ),
{
    lemma_trim_suffix(c, n);
    let h = trimmed_head(c, n);
    let t = trimmed(c, n);
    if ends_line(h) {
        lemma_synced_ids_concat(h, t);
    }
    if needs_trim(c, n) {
        lemma_pieces_concat(h, t);
        let ph = pieces_of(h);
        let pt = pieces_of(t);
        let pc = pieces_of(c);
        let lt = lines_of(t);
        let l = lines_of(c);
        lemma_split_nonempty(t, newline());
        let m = cmd_marker();
        let rest = t.skip(m.len() as int);
        assert(t =~= m + rest);
        assert(no_newline(m));
        lemma_pieces_single(m);
        lemma_pieces_concat(m, rest);
        lemma_split_nonempty(rest, newline());
        assert(pt[0] == m + pieces_of(rest)[0]);
        assert(pt[0][0] == m[0]);
        assert(id_of_line(lt[0]) is None) by {
            if lt[0].len() >= uuid_prefix().len() {
                assert(lt[0][0] == pt[0][0]);
                assert(lt[0].take(uuid_prefix().len() as int)[0] == lt[0][0]);
            }
        }
        assert(pc.len() == ph.len() - 1 + pt.len());
        assert forall|id: Seq<char>| synced_ids(t).contains(id) implies synced_ids(c).contains(id) by {
            let i = choose|i: int| 0 <= i < lt.len() && id_of_line(#[trigger] lt[i]) == Some(id);
            assert(i > 0);
            let k = ph.len() - 1 + i;
            assert(pc[k] == pt[i]);
            assert(l[k] == lt[i]);
        }
    } else {
        assert(t == c);
    }
}

/// The identifiers that a list of entries carries, each entry read after its
/// marker.
pub open spec fn entries_ids(es: Seq<Seq<char>>) -> Set<Seq<char>>
    decreases es.len(),
{
    if es.len() == 0 {
        Set::empty()
    } else {
        synced_ids(cmd_marker() + es[0]).union(entries_ids(es.skip(1)))
    }
}

/// Every entry but the last ends a line, so that each marker after the first
/// starts one.
pub open spec fn markers_start_lines(es: Seq<Seq<char>>) -> bool {
    forall|j: int| 0 <= j < es.len() - 1 ==> ends_line(cmd_marker() + #[trigger] es[j])
}

/// A log made of entries whose markers start lines carries the identifiers
/// of its entries.
pub proof fn lemma_join_entries_ids(es: Seq<Seq<char>>)
    requires
        markers_start_lines(es),
    ensures
        synced_ids(join_entries(es)) == entries_ids(es),
    decreases es.len(),
{
    let m = cmd_marker();
    if es.len() == 0 {
        let e = join_entries(es);
        assert(e =~= Seq::<char>::empty());
        assert(lines_of(e) == seq![e]);
        assert(synced_ids(e) =~= Set::<Seq<char>>::empty()) by {
            assert forall|id: Seq<char>| !synced_ids(e).contains(id) by {
                assert(id_of_line(e) is None);
            }
        }
    } else {
        let rest = es.skip(1);
        assert(markers_start_lines(rest)) by {
            assert forall|j: int| 0 <= j < rest.len() - 1 implies ends_line(m + #[trigger] rest[j]) by {
                assert(rest[j] == es[j + 1]);
            }
        }
        lemma_join_entries_ids(rest);
        let first = m + es[0];
        let tail = join_entries(rest);
        assert(join_entries(es) =~= first + tail);
        if es.len() == 1 {
            assert(rest =~= Seq::<Seq<char>>::empty());
            assert(tail =~= Seq::<char>::empty());
            assert(first + tail =~= first);
            assert(entries_ids(rest) =~= Set::<Seq<char>>::empty());
            assert(entries_ids(es) =~= synced_ids(first));
        } else {
            assert(ends_line(first));
            lemma_synced_ids_concat(first, tail);
        }
    }
}

/// What scanning finds after trimming: under a bound that the log does not
/// exceed, the same identifiers as before; above it, when every entry marker
/// starts a line, exactly the identifiers read from the kept entries, so that
/// those found only in dropped entries or before the first marker are gone.
pub proof fn lemma_trim_scan(c: Seq<char>, n: nat)
    ensures
        !needs_trim(c, n) ==> synced_ids(trimmed(c, n)) == synced_ids(c),
        needs_trim(c, n) && markers_start_lines(entries_of(c)) ==> synced_ids(trimmed(c, n))
            == entries_ids(entries_of(c).skip(entries_of(c).len() - n)),
{
    if needs_trim(c, n) && markers_start_lines(entries_of(c)) {
        let es = entries_of(c);
        let kept = es.skip(es.len() - n);
        assert(markers_start_lines(kept)) by {
            assert forall|j: int| 0 <= j < kept.len() - 1 implies ends_line(
                cmd_marker() + #[trigger] kept[j],
            ) by {
                assert(kept[j] == es[j + es.len() - n]);
            }
        }
        lemma_join_entries_ids(kept);
    }
}

/// Trimming twice to the same bound is trimming once.
pub proof fn lemma_trim_idempotent(c: Seq<char>, n: nat)
    ensures
        trimmed(trimmed(c, n), n) == trimmed(c, n),
{
    lemma_trim_keeps_last(c, n);
    lemma_trim_keeps_last(trimmed(c, n), n);
}

} // verus!
