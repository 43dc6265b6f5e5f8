//! Which records go to the shadow log, and what the log holds after they do.
//!
//! Writing is the caller's part: each entry is appended under an exclusive
//! lock on the file, flushed, and followed by trimming to the bound.

use crate::codec::{
    cmd_line, cmd_marker, entry_of, format_fish_entry, id_of_line, lemma_entry_round_trip,
    lemma_entry_then, meta_line,
    uuid_prefix, when_line, when_prefix, History,
};
use crate::index::{
    ends_line, lemma_synced_ids_concat, lines_of, one_line, string_set, strip_cr, synced_ids,
};
use crate::text::has_prefix;
use crate::trim::{entries_of, lemma_trim_suffix, trimmed, trimmed_head};
use vstd::prelude::*;

verus! {

/// Settings of the fish history sync.
pub struct FishSync {
    /// Whether records are written to the shadow log at all.
    pub enabled: bool,
    /// Where the shadow log is; `~` stands for the home directory.
    pub history_path: String,
    /// The retention bound: the most entries the log keeps; 0 for no bound.
    pub max_entries: usize,
    /// Whether the whole history is reconciled when the shell starts.
    pub sync_on_startup: bool,
    /// Whether the whole history is reconciled after a sync from the command
    /// line.
    pub sync_all_on_cli: bool,
}

/// The log that a list of records gives when written one after the other.
pub open spec fn entries_log(hs: Seq<History>) -> Seq<char>
    decreases hs.len(),
{
    if hs.len() == 0 {
        Seq::empty()
    } else {
        entry_of(hs[0]) + entries_log(hs.skip(1))
    }
}

/// The log `c` after each record of `hs` is appended in turn, each append
/// followed by trimming to the bound `n`.
pub open spec fn append_all(c: Seq<char>, hs: Seq<History>, n: nat) -> Seq<char>
    decreases hs.len(),
{
    if hs.len() == 0 {
        c
    } else {
        append_all(trimmed(c + entry_of(hs[0]), n), hs.skip(1), n)
    }
}

/// The records of `hs` whose identifier is not in `ids`, in their order.
pub open spec fn unsynced(hs: Seq<History>, ids: Set<Seq<char>>) -> Seq<History>
    decreases hs.len(),
{
    if hs.len() == 0 {
        Seq::empty()
    } else if ids.contains(hs.last().id@) {
        unsynced(hs.drop_last(), ids)
    } else {
        unsynced(hs.drop_last(), ids).push(hs.last())
    }
}

/// The identifiers of a list of records.
pub open spec fn ids_of(hs: Seq<History>) -> Set<Seq<char>> {
    Set::new(|id: Seq<char>| exists|i: int| 0 <= i < hs.len() && (#[trigger] hs[i]).id@ == id)
}

/// Every identifier of the records fits on one line.
pub open spec fn ids_one_line(hs: Seq<History>) -> bool {
    forall|i: int| 0 <= i < hs.len() ==> one_line(#[trigger] hs[i].id@)
}

/// The log after one reconciliation: the records of `records` that `c` does
/// not yet carry, appended in order under the bound `n`.
pub open spec fn reconciled(c: Seq<char>, records: Seq<History>, n: nat) -> Seq<char> {
    append_all(c, unsynced(records, synced_ids(c)), n)
}

/// How many of the most recent records a reconciliation fetches from the
/// primary store: as many as the bound keeps, or all of them (`None`) when
/// there is no bound.
pub fn fetch_limit(settings: &FishSync) -> (r: Option<usize>)
    ensures
        r == (if settings.max_entries == 0 {
            None::<usize>
        } else {
            Some(settings.max_entries)
        }),
{
    if settings.max_entries == 0 {
        None
    } else {
        Some(settings.max_entries)
    }
}

/// The entries to append for `entries`, in order: none when the sync is
/// disabled, else the entry of each record.
pub fn sync_entries(entries: &[History], settings: &FishSync) -> (r: Vec<String>)
    ensures
        !settings.enabled ==> r@.len() == 0,
        settings.enabled ==> r@.len() == entries@.len(),
        settings.enabled ==> forall|i: int| 0 <= i < r@.len() ==> #[trigger] r@[i]@ == entry_of(entries@[i]),
{
    let mut out: Vec<String> = Vec::new();
    if !settings.enabled {
        return out;
    }
    let mut i: usize = 0;
    while i < entries.len()
        invariant
            i <= entries@.len(),
            out@.len() == i,
            forall|k: int| 0 <= k < i ==> #[trigger] out@[k]@ == entry_of(entries@[k]),
        decreases entries@.len() - i,
    {
        out.push(format_fish_entry(&entries[i]));
        i = i + 1;
    }
    out
}

/// The records of `entries` that the log does not carry yet, given the
/// identifiers that it does carry, in their order.
pub fn select_unsynced(entries: &[History], synced: &[String]) -> (r: Vec<History>)
    ensures
        r@ == unsynced(entries@, string_set(synced@)),
{
    let ghost ids = string_set(synced@);
    let mut out: Vec<History> = Vec::new();
    let mut i: usize = 0;
    assert(entries@.take(0) =~= Seq::<History>::empty());
    while i < entries.len()
        invariant
            i <= entries@.len(),
            ids == string_set(synced@),
            out@ == unsynced(entries@.take(i as int), ids),
        decreases entries@.len() - i,
    {
        let ghost t = entries@.take(i + 1);
        assert(t.drop_last() =~= entries@.take(i as int));
        assert(t.last() == entries@[i as int]);
        if !crate::index::contains_string(synced, &entries[i].id) {
            out.push(entries[i].duplicate());
        }
        i = i + 1;
    }
    assert(entries@.take(i as int) =~= entries@);
    out
}

/// The lines of the log that records give: three for each record, in order,
/// then the empty rest after the last newline.
pub proof fn lemma_entries_log_lines(hs: Seq<History>)
    requires
        ids_one_line(hs),
    ensures
        lines_of(entries_log(hs)).len() == 3 * hs.len() + 1,
        forall|i: int|
            0 <= i < hs.len() ==> {
                &&& lines_of(entries_log(hs))[3 * i] == strip_cr(cmd_line((#[trigger] hs[i]).command@))
                &&& lines_of(entries_log(hs))[3 * i + 1] == when_line(hs[i].timestamp)
                &&& lines_of(entries_log(hs))[3 * i + 2] == meta_line(hs[i].id@)
            },
        lines_of(entries_log(hs))[3 * hs.len() as int] == Seq::<char>::empty(),
    decreases hs.len(),
{
    if hs.len() == 0 {
        assert(lines_of(Seq::<char>::empty()) == seq![Seq::<char>::empty()]);
    } else {
        let rest = hs.skip(1);
        assert(ids_one_line(rest)) by {
            assert forall|i: int| 0 <= i < rest.len() implies one_line(#[trigger] rest[i].id@) by {
                assert(rest[i] == hs[i + 1]);
            }
        }
        lemma_entries_log_lines(rest);
        assert(one_line(hs[0].id@));
        lemma_entry_then(hs[0].id@, hs[0].timestamp, hs[0].command@, entries_log(rest));
        let l = lines_of(entries_log(hs));
        let lr = lines_of(entries_log(rest));
        assert(l == seq![
            strip_cr(cmd_line(hs[0].command@)),
            when_line(hs[0].timestamp),
            meta_line(hs[0].id@),
        ] + lr);
        assert forall|i: int| 0 <= i < hs.len() implies {
            &&& l[3 * i] == strip_cr(cmd_line((#[trigger] hs[i]).command@))
            &&& l[3 * i + 1] == when_line(hs[i].timestamp)
            &&& l[3 * i + 2] == meta_line(hs[i].id@)
        } by {
            if i > 0 {
                assert(rest[i - 1] == hs[i]);
                assert(l[3 * i] == lr[3 * (i - 1)]);
                assert(l[3 * i + 1] == lr[3 * (i - 1) + 1]);
                assert(l[3 * i + 2] == lr[3 * (i - 1) + 2]);
            }
        }
        assert(l[3 * hs.len() as int] == lr[3 * rest.len() as int]);
    }
}

/// The log that records give ends a line.
pub proof fn lemma_entries_log_ends_line(hs: Seq<History>)
    ensures
        ends_line(entries_log(hs)),
    decreases hs.len(),
{
    if hs.len() > 0 {
        let rest = hs.skip(1);
        lemma_entries_log_ends_line(rest);
        let e = entry_of(hs[0]);
        let r = entries_log(rest);
        if r.len() == 0 {
            assert(e + r =~= e);
        } else {
            assert((e + r).last() == r.last());
        }
    }
}

/// The metadata lines of the log that records give carry exactly their
/// identifiers.
pub proof fn lemma_entries_log_ids(hs: Seq<History>)
    requires
        ids_one_line(hs),
    ensures
        ends_line(entries_log(hs)),
        synced_ids(entries_log(hs)) == ids_of(hs),
{
    lemma_entries_log_ends_line(hs);
    lemma_entries_log_lines(hs);
    let l = lines_of(entries_log(hs));
    assert forall|id: Seq<char>| synced_ids(entries_log(hs)).contains(id) implies ids_of(hs).contains(
        id,
    ) by {
        let k = choose|k: int| 0 <= k < l.len() && id_of_line(#[trigger] l[k]) == Some(id);
        let i = k / 3;
        if k == 3 * hs.len() {
        } else if k % 3 == 0 {
            let cl = cmd_line(hs[i].command@);
            assert(l[3 * i] == strip_cr(cl));
            if l[k].len() >= uuid_prefix().len() {
                assert(l[k][0] == cl[0]);
                assert(l[k].take(uuid_prefix().len() as int)[0] == cmd_marker()[0]);
            }
        } else if k % 3 == 1 {
            assert(l[3 * i + 1] == when_line(hs[i].timestamp));
            assert(l[k].take(uuid_prefix().len() as int)[2] == when_prefix()[2]);
        } else {
            assert(l[3 * i + 2] == meta_line(hs[i].id@));
            assert(l[k].skip(uuid_prefix().len() as int) =~= hs[i].id@);
        }
    }
    assert forall|id: Seq<char>| ids_of(hs).contains(id) implies synced_ids(entries_log(hs)).contains(
        id,
    ) by {
        let i = choose|i: int| 0 <= i < hs.len() && (#[trigger] hs[i]).id@ == id;
        let m = l[3 * i + 2];
        assert(m == meta_line(hs[i].id@));
        assert(m.take(uuid_prefix().len() as int) =~= uuid_prefix());
        assert(m.skip(uuid_prefix().len() as int) =~= id);
        assert(id_of_line(l[3 * i + 2]) == Some(id));
    }
    assert(synced_ids(entries_log(hs)) =~= ids_of(hs));
}

/// Without a bound, appending records one after the other adds their entries
/// at the end of the log.
pub proof fn lemma_append_unbounded(c: Seq<char>, hs: Seq<History>)
    ensures
        append_all(c, hs, 0) == c + entries_log(hs),
    decreases hs.len(),
{
    if hs.len() == 0 {
        assert(c + Seq::<char>::empty() =~= c);
    } else {
        lemma_append_unbounded(c + entry_of(hs[0]), hs.skip(1));
        assert(c + entry_of(hs[0]) + entries_log(hs.skip(1)) =~= c + entries_log(hs));
    }
}

/// Appending records one after the other to an empty log with no bound gives
/// a log of well-formed entries, one per record and in order, none
/// interleaved with another: three lines each (command, timestamp,
/// metadata), and nothing after the last newline. Identifiers must fit on
/// one line; a command line that ends with a carriage return is read
/// without it.
pub proof fn lemma_appends_well_formed(hs: Seq<History>)
    requires
        ids_one_line(hs),
    ensures
        lines_of(append_all(Seq::empty(), hs, 0)).len() == 3 * hs.len() + 1,
        forall|i: int|
            0 <= i < hs.len() ==> {
                &&& lines_of(append_all(Seq::empty(), hs, 0))[3 * i] == strip_cr(
                    cmd_line((#[trigger] hs[i]).command@),
                )
                &&& lines_of(append_all(Seq::empty(), hs, 0))[3 * i + 1] == when_line(
                    hs[i].timestamp,
                )
                &&& lines_of(append_all(Seq::empty(), hs, 0))[3 * i + 2] == meta_line(hs[i].id@)
            },
        lines_of(append_all(Seq::empty(), hs, 0))[3 * hs.len() as int] == Seq::<char>::empty(),
{
    lemma_append_unbounded(Seq::empty(), hs);
    assert(Seq::<char>::empty() + entries_log(hs) =~= entries_log(hs));
    lemma_entries_log_lines(hs);
}

/// Appending one record to an empty log, under any bound, leaves exactly
/// that record's entry: its command line, its timestamp line and its
/// metadata line. The entry must hold no second entry marker (which its
/// command could bring), or a bound of one would cut it; the identifier
/// must fit on one line.
pub proof fn lemma_first_append(h: History, n: nat)
    requires
        one_line(h.id@),
        entries_of(entry_of(h)).len() == 1,
    ensures
        append_all(Seq::empty(), seq![h], n) == entry_of(h),
        lines_of(append_all(Seq::empty(), seq![h], n)) == seq![
            strip_cr(cmd_line(h.command@)),
            when_line(h.timestamp),
            meta_line(h.id@),
            Seq::<char>::empty(),
        ],
{
    let e = entry_of(h);
    assert(Seq::<char>::empty() + e =~= e);
    assert(seq![h].skip(1) =~= Seq::<History>::empty());
    assert(trimmed(e, n) == e);
    assert(seq![h][0] == h);
    assert(append_all(e, Seq::<History>::empty(), n) == e);
    assert(append_all(Seq::empty(), seq![h], n) == append_all(
        trimmed(Seq::<char>::empty() + entry_of(h), n),
        seq![h].skip(1),
        n,
    ));
    lemma_entry_round_trip(h.id@, h.timestamp, h.command@);
}

/// A record is left out of `unsynced` exactly when its identifier is in
/// `ids`.
pub proof fn lemma_unsynced_members(hs: Seq<History>, ids: Set<Seq<char>>)
    ensures
        forall|i: int|
            0 <= i < unsynced(hs, ids).len() ==> !ids.contains(#[trigger] unsynced(hs, ids)[i].id@),
        ids_one_line(hs) ==> ids_one_line(unsynced(hs, ids)),
        forall|i: int|
            0 <= i < hs.len() && !ids.contains(#[trigger] hs[i].id@) ==> ids_of(
                unsynced(hs, ids),
            ).contains(hs[i].id@),
    decreases hs.len(),
{
    if hs.len() > 0 {
        let d = hs.drop_last();
        lemma_unsynced_members(d, ids);
        let u = unsynced(hs, ids);
        let ud = unsynced(d, ids);
        if ids_one_line(hs) {
            assert(ids_one_line(d)) by {
                assert forall|i: int| 0 <= i < d.len() implies one_line(#[trigger] d[i].id@) by {
                    assert(d[i] == hs[i]);
                }
            }
            assert forall|i: int| 0 <= i < u.len() implies one_line(#[trigger] u[i].id@) by {
                if i < ud.len() {
                    assert(u[i] == ud[i]);
                } else {
                    assert(u[i] == hs[hs.len() - 1]);
                }
            }
        }
        assert forall|i: int| 0 <= i < hs.len() && !ids.contains(#[trigger] hs[i].id@) implies ids_of(
            u,
        ).contains(hs[i].id@) by {
            if i < hs.len() - 1 {
                assert(d[i] == hs[i]);
                assert(ids_of(ud).contains(d[i].id@));
                let j = choose|j: int| 0 <= j < ud.len() && (#[trigger] ud[j]).id@ == d[i].id@;
                assert(u[j] == ud[j]);
            } else {
                assert(u[u.len() - 1] == hs.last());
            }
        }
    }
}

/// Appending under a bound leaves the end of what appending without one
/// gives: trimming only ever cuts text away from the front.
pub proof fn lemma_append_all_suffix(c: Seq<char>, hs: Seq<History>, n: nat)
    ensures
        append_all(c, hs, n).len() <= (c + entries_log(hs)).len(),
        c + entries_log(hs) == (c + entries_log(hs)).take(
            (c + entries_log(hs)).len() - append_all(c, hs, n).len(),
        ) + append_all(c, hs, n),
    decreases hs.len(),
{
    let full = c + entries_log(hs);
    let r = append_all(c, hs, n);
    if hs.len() == 0 {
        assert(full =~= c);
        assert(full.take(0) + r =~= full);
    } else {
        let ce = c + entry_of(hs[0]);
        let t = trimmed(ce, n);
        let rest = hs.skip(1);
        lemma_trim_suffix(ce, n);
        lemma_append_all_suffix(t, rest, n);
        let head = trimmed_head(ce, n);
        let t_full = t + entries_log(rest);
        let h2 = t_full.take(t_full.len() - r.len());
        assert(entries_log(hs) == entry_of(hs[0]) + entries_log(rest));
        assert(ce == head + t);
        assert(full =~= ce + entries_log(rest));
        assert(full =~= head + t_full);
        assert(full =~= (head + h2) + r);
        assert(full.take(full.len() - r.len()) =~= head + h2);
    }
}

/// What the trimming of a first reconciliation cut from the front of the log
/// that appending every missing record without a bound would give.
pub open spec fn reconcile_cut(c: Seq<char>, records: Seq<History>, n: nat) -> Seq<char> {
    let full = c + entries_log(unsynced(records, synced_ids(c)));
    full.take(full.len() - reconciled(c, records, n).len())
}

/// Reconciling twice with the same records appends nothing the second time,
/// when the first pass's trimming removed no entry of a fetched record: the
/// text it cut from the front is whole lines and carries none of the
/// records' identifiers. After the first pass the log then carries every
/// record's identifier. The log must also end a line (else the first appended
/// entry would run on into an unfinished metadata line and change its
/// identifier), and every identifier must fit on one line.
pub proof fn lemma_reconcile_twice(c: Seq<char>, records: Seq<History>, n: nat)
    requires
        ends_line(c),
        ids_one_line(records),
        ends_line(reconcile_cut(c, records, n)),
        forall|id: Seq<char>|
            ids_of(records).contains(id) ==> !(#[trigger] synced_ids(
                reconcile_cut(c, records, n),
            ).contains(id)),
    ensures
        unsynced(records, synced_ids(reconciled(c, records, n))) == Seq::<History>::empty(),
{
    let ids = synced_ids(c);
    let fresh = unsynced(records, ids);
    let full = c + entries_log(fresh);
    let r = reconciled(c, records, n);
    let cut = reconcile_cut(c, records, n);
    lemma_unsynced_members(records, ids);
    assert(ids_one_line(fresh));
    lemma_entries_log_ids(fresh);
    lemma_synced_ids_concat(c, entries_log(fresh));
    lemma_append_all_suffix(c, fresh, n);
    assert(full == cut + r);
    lemma_synced_ids_concat(cut, r);
    let ids2 = synced_ids(r);
    assert forall|i: int| 0 <= i < records.len() implies ids2.contains(#[trigger] records[i].id@) by {
        let id = records[i].id@;
        assert(ids_of(records).contains(id));
        if !ids.contains(id) {
            assert(ids_of(fresh).contains(id));
        }
        assert(synced_ids(full).contains(id));
        assert(!synced_ids(cut).contains(id));
    }
    lemma_unsynced_none(records, ids2);
}

/// Without a bound, reconciling twice with the same records appends nothing
/// the second time (for a log that ends a line, and identifiers that fit on
/// one line).
pub proof fn lemma_reconcile_twice_unbounded(c: Seq<char>, records: Seq<History>)
    requires
        ends_line(c),
        ids_one_line(records),
    ensures
        unsynced(records, synced_ids(reconciled(c, records, 0))) == Seq::<History>::empty(),
{
    let fresh = unsynced(records, synced_ids(c));
    lemma_append_unbounded(c, fresh);
    let full = c + entries_log(fresh);
    let cut = reconcile_cut(c, records, 0);
    assert(cut =~= Seq::<char>::empty());
    assert(lines_of(cut) == seq![cut]);
    assert(synced_ids(cut) =~= Set::<Seq<char>>::empty()) by {
        assert forall|id: Seq<char>| !synced_ids(cut).contains(id) by {
            assert(id_of_line(cut) is None);
        }
    }
    lemma_reconcile_twice(c, records, 0);
}

/// When every record's identifier is in `ids`, none is left.
pub proof fn lemma_unsynced_none(hs: Seq<History>, ids: Set<Seq<char>>)
    requires
        forall|i: int| 0 <= i < hs.len() ==> ids.contains(#[trigger] hs[i].id@),
    ensures
        unsynced(hs, ids) == Seq::<History>::empty(),
    decreases hs.len(),
{
    if hs.len() > 0 {
        let d = hs.drop_last();
        assert forall|i: int| 0 <= i < d.len() implies ids.contains(#[trigger] d[i].id@) by {
            assert(d[i] == hs[i]);
        }
        lemma_unsynced_none(d, ids);
        assert(ids.contains(hs[hs.len() - 1].id@));
    }
}

} // verus!
