//! What the shadow log already holds: the identifiers of the records written
//! to it, and the most recent timestamp.

use crate::codec::{id_of_chars, id_of_line, timestamp_of_chars, timestamp_of_line};
use crate::text::{
    chars_of, has_prefix, join_front, lemma_split_nonempty, split_chars, split_spec,
};
use vstd::prelude::*;

verus! {

pub open spec fn newline() -> Seq<char> {
    seq!['\n']
}

/// The pieces of a text between its newlines.
pub open spec fn pieces_of(c: Seq<char>) -> Seq<Seq<char>> {
    split_spec(c, newline())
}

/// A piece without the carriage return that ends it, if one does.
pub open spec fn strip_cr(l: Seq<char>) -> Seq<char> {
    if l.len() > 0 && l.last() == '\r' {
        l.drop_last()
    } else {
        l
    }
}

/// The lines of a text, as `str::lines` reads them: the pieces between its
/// newlines, each piece that a newline ends losing one carriage return right
/// before that newline. A text that ends with a newline has an empty last
/// piece, which no field matches.
pub open spec fn lines_of(c: Seq<char>) -> Seq<Seq<char>> {
    let p = pieces_of(c);
    Seq::new(p.len(), |i: int| if i + 1 < p.len() { strip_cr(p[i]) } else { p[i] })
}

/// The identifiers that metadata lines of `c` carry.
pub open spec fn synced_ids(c: Seq<char>) -> Set<Seq<char>> {
    Set::new(
        |id: Seq<char>|
            exists|i: int| 0 <= i < lines_of(c).len() && id_of_line(#[trigger] lines_of(c)[i]) == Some(id),
    )
}

/// The timestamp of the last line that holds a well-formed one.
pub open spec fn last_timestamp_in(lines: Seq<Seq<char>>) -> Option<i64>
    decreases lines.len(),
{
    if lines.len() == 0 {
        None
    } else {
        match timestamp_of_line(lines.last()) {
            Some(t) => Some(t),
            None => last_timestamp_in(lines.drop_last()),
        }
    }
}

pub open spec fn last_timestamp(c: Seq<char>) -> Option<i64> {
    last_timestamp_in(lines_of(c))
}

/// `c` holds no newline.
pub open spec fn no_newline(c: Seq<char>) -> bool {
    forall|i: int| 0 <= i < c.len() ==> c[i] != '\n'
}

/// `s` fits on one line and keeps all its characters there: no newline, and
/// no carriage return at its end.
pub open spec fn one_line(s: Seq<char>) -> bool {
    no_newline(s) && strip_cr(s) == s
}

/// `c` is empty or ends with a newline: appending to it starts a new line.
pub open spec fn ends_line(c: Seq<char>) -> bool {
    c.len() == 0 || c.last() == '\n'
}

/// A text without newlines is a single piece.
pub proof fn lemma_pieces_single(x: Seq<char>)
    requires
        no_newline(x),
    ensures
        pieces_of(x) == seq![x],
    decreases x.len(),
{
    if x.len() >= 1 {
        assert(!has_prefix(x, newline())) by {
            assert(x.take(1)[0] == x[0]);
        }
        lemma_pieces_single(x.skip(1));
        assert(join_front(seq![x[0]], seq![x.skip(1)]) =~= seq![x]) by {
            assert(seq![x[0]] + x.skip(1) =~= x);
        }
    }
}

/// A piece, a newline, and then `y`: that piece comes first, then the pieces
/// of `y`.
pub proof fn lemma_pieces_cons(x: Seq<char>, y: Seq<char>)
    requires
        no_newline(x),
    ensures
        pieces_of(x + newline() + y) == seq![x] + pieces_of(y),
    decreases x.len(),
{
    let s = x + newline() + y;
    lemma_split_nonempty(y, newline());
    if x.len() == 0 {
        assert(s =~= newline() + y);
        assert(s.take(1) =~= newline());
        assert(s.skip(1) =~= y);
        assert(has_prefix(s, newline()));
        assert(pieces_of(s) == seq![Seq::<char>::empty()] + pieces_of(s.skip(1)));
        assert(x =~= Seq::<char>::empty());
    } else {
        assert(!has_prefix(s, newline())) by {
            assert(s.take(1)[0] == x[0]);
        }
        let x1 = x.skip(1);
        assert(s.skip(1) =~= x1 + newline() + y);
        lemma_pieces_cons(x1, y);
        let q = pieces_of(s);
        assert(q == join_front(seq![x[0]], seq![x1] + pieces_of(y)));
        assert(seq![x[0]] + x1 =~= x);
        assert(q =~= seq![x] + pieces_of(y));
    }
}

/// The pieces of `a + b`: those of `a` but its last, which runs on into the
/// first piece of `b`, then the other pieces of `b`.
pub proof fn lemma_pieces_concat(a: Seq<char>, b: Seq<char>)
    ensures
        pieces_of(a).len() >= 1,
        pieces_of(a + b) == pieces_of(a).drop_last() + join_front(pieces_of(a).last(), pieces_of(b)),
    decreases a.len(),
{
    lemma_split_nonempty(a, newline());
    lemma_split_nonempty(b, newline());
    let s = a + b;
    let qb = pieces_of(b);
    if a.len() == 0 {
        assert(s =~= b);
        assert(pieces_of(a) == seq![a]);
        assert(join_front(a, qb) =~= qb) by {
            assert(a + qb[0] =~= qb[0]);
        }
        assert(pieces_of(a).drop_last() + join_front(pieces_of(a).last(), qb) =~= qb);
    } else {
        let a1 = a.skip(1);
        lemma_pieces_concat(a1, b);
        lemma_split_nonempty(a1, newline());
        let p = pieces_of(a1);
        assert(s.skip(1) =~= a1 + b);
        assert(s.take(1) =~= a.take(1));
        if a[0] == '\n' {
            assert(a.take(1) =~= newline());
            assert(has_prefix(a, newline()));
            assert(has_prefix(s, newline()));
            assert(pieces_of(a) == seq![Seq::<char>::empty()] + p);
            assert(pieces_of(s) == seq![Seq::<char>::empty()] + pieces_of(a1 + b));
            assert(pieces_of(a).drop_last() =~= seq![Seq::<char>::empty()] + p.drop_last());
            assert(pieces_of(a).last() == p.last());
            assert(pieces_of(s) =~= pieces_of(a).drop_last() + join_front(pieces_of(a).last(), qb));
        } else {
            assert(!has_prefix(a, newline())) by {
                assert(a.take(1)[0] == a[0]);
            }
            assert(!has_prefix(s, newline())) by {
                assert(s.take(1)[0] == a[0]);
            }
            let h = seq![a[0]];
            assert(pieces_of(a) == join_front(h, p));
            assert(pieces_of(s) == join_front(h, pieces_of(a1 + b)));
            if p.len() == 1 {
                assert(pieces_of(a).drop_last() =~= Seq::<Seq<char>>::empty());
                assert(pieces_of(a).last() == h + p[0]);
                assert(p.drop_last() =~= Seq::<Seq<char>>::empty());
                assert(pieces_of(a1 + b) =~= join_front(p.last(), qb));
                assert(h + (p.last() + qb[0]) =~= (h + p[0]) + qb[0]);
                assert(pieces_of(s) =~= pieces_of(a).drop_last() + join_front(pieces_of(a).last(), qb));
            } else {
                assert(pieces_of(a).drop_last() =~= join_front(h, p.drop_last()));
                assert(pieces_of(a).last() == p.last());
                assert(pieces_of(s) =~= pieces_of(a).drop_last() + join_front(pieces_of(a).last(), qb));
            }
        }
    }
}

/// After text that ends a line, the pieces of what follows stand as they
/// are.
pub proof fn lemma_pieces_after_line_end(a: Seq<char>, b: Seq<char>)
    requires
        ends_line(a),
    ensures
        pieces_of(a + b) == pieces_of(a).drop_last() + pieces_of(b),
        pieces_of(a).last() == Seq::<char>::empty(),
{
    lemma_pieces_concat(a, b);
    lemma_split_nonempty(b, newline());
    if a.len() == 0 {
        assert(pieces_of(a) == seq![a]);
    } else {
        let a0 = a.drop_last();
        assert(a =~= a0 + newline() + Seq::<char>::empty());
        lemma_pieces_concat(a0, newline());
        lemma_split_nonempty(a0, newline());
        assert(pieces_of(newline()) == seq![Seq::<char>::empty()] + pieces_of(Seq::<char>::empty())) by {
            assert(newline().take(1) =~= newline());
            assert(newline().skip(1) =~= Seq::<char>::empty());
        }
        assert(pieces_of(Seq::<char>::empty()) == seq![Seq::<char>::empty()]);
        assert(a0 + newline() =~= a);
        assert(pieces_of(a).last() == Seq::<char>::empty());
    }
    assert(join_front(Seq::<char>::empty(), pieces_of(b)) =~= pieces_of(b)) by {
        assert(Seq::<char>::empty() + pieces_of(b)[0] =~= pieces_of(b)[0]);
    }
}

/// A line, a newline, and then `y`: that line comes first, without a carriage
/// return before the newline, then the lines of `y`.
pub proof fn lemma_lines_cons(x: Seq<char>, y: Seq<char>)
    requires
        no_newline(x),
    ensures
        lines_of(x + newline() + y) == seq![strip_cr(x)] + lines_of(y),
{
    lemma_pieces_cons(x, y);
    lemma_split_nonempty(y, newline());
    let p = pieces_of(x + newline() + y);
    let py = pieces_of(y);
    assert forall|i: int| 0 <= i < p.len() implies #[trigger] lines_of(x + newline() + y)[i] == (
    seq![strip_cr(x)] + lines_of(y))[i] by {
        if i > 0 {
            assert(p[i] == py[i - 1]);
        }
    }
    assert(lines_of(x + newline() + y) =~= seq![strip_cr(x)] + lines_of(y));
}

/// After text that ends a line, the lines of what follows stand as they are.
pub proof fn lemma_lines_after_line_end(a: Seq<char>, b: Seq<char>)
    requires
        ends_line(a),
    ensures
        lines_of(a).len() >= 1,
        lines_of(a + b) == lines_of(a).drop_last() + lines_of(b),
        lines_of(a).last() == Seq::<char>::empty(),
{
    lemma_pieces_after_line_end(a, b);
    lemma_split_nonempty(a, newline());
    lemma_split_nonempty(b, newline());
    let pa = pieces_of(a);
    let pb = pieces_of(b);
    let p = pieces_of(a + b);
    assert(p == pa.drop_last() + pb);
    assert forall|i: int| 0 <= i < p.len() implies #[trigger] lines_of(a + b)[i] == (lines_of(
        a,
    ).drop_last() + lines_of(b))[i] by {
        if i < pa.len() - 1 {
            assert(p[i] == pa[i]);
        } else {
            assert(p[i] == pb[i - (pa.len() - 1)]);
        }
    }
    assert(lines_of(a + b) =~= lines_of(a).drop_last() + lines_of(b));
}

/// The identifiers of a text that continues one ending a line are those of
/// both parts: scanning does not depend on how the text is cut, nor on the
/// order of such parts.
pub proof fn lemma_synced_ids_concat(a: Seq<char>, b: Seq<char>)
    requires
        ends_line(a),
    ensures
        synced_ids(a + b) == synced_ids(a).union(synced_ids(b)),
{
    lemma_lines_after_line_end(a, b);
    lemma_split_nonempty(a, newline());
    let la = lines_of(a);
    let lb = lines_of(b);
    let l = lines_of(a + b);
    assert(l == la.drop_last() + lb);
    assert(l.len() == la.len() - 1 + lb.len());
    assert(id_of_line(la.last()) is None);
    assert forall|id: Seq<char>| synced_ids(a + b).contains(id) implies synced_ids(a).union(
        synced_ids(b),
    ).contains(id) by {
        let i = choose|i: int| 0 <= i < l.len() && id_of_line(#[trigger] l[i]) == Some(id);
        if i < la.len() - 1 {
            assert(l[i] == la[i]);
            assert(synced_ids(a).contains(id));
        } else {
            assert(l[i] == lb[i - (la.len() - 1)]);
            assert(synced_ids(b).contains(id));
        }
    }
    assert forall|id: Seq<char>| synced_ids(a).union(synced_ids(b)).contains(id) implies synced_ids(
        a + b,
    ).contains(id) by {
        if synced_ids(a).contains(id) {
            let i = choose|i: int| 0 <= i < la.len() && id_of_line(#[trigger] la[i]) == Some(id);
            assert(i != la.len() - 1);
            assert(l[i] == la[i]);
        } else {
            let i = choose|i: int| 0 <= i < lb.len() && id_of_line(#[trigger] lb[i]) == Some(id);
            assert(l[i + la.len() - 1] == lb[i]);
        }
    }
    assert(synced_ids(a + b) =~= synced_ids(a).union(synced_ids(b)));
}

/// Scanning two texts that each end a line gives the same identifiers in
/// either order.
pub proof fn lemma_synced_ids_order(a: Seq<char>, b: Seq<char>)
    requires
        ends_line(a),
        ends_line(b),
    ensures
        synced_ids(a + b) == synced_ids(b + a),
{
    lemma_synced_ids_concat(a, b);
    lemma_synced_ids_concat(b, a);
    assert(synced_ids(a).union(synced_ids(b)) =~= synced_ids(b).union(synced_ids(a)));
}

/// The texts of a list of strings, as a set.
pub open spec fn string_set(v: Seq<String>) -> Set<Seq<char>> {
    Set::new(|s: Seq<char>| exists|i: int| 0 <= i < v.len() && (#[trigger] v[i])@ == s)
}

/// No two strings of the list have the same text.
pub open spec fn distinct_strings(v: Seq<String>) -> bool {
    forall|i: int, j: int| 0 <= i < v.len() && 0 <= j < v.len() && i != j ==> (#[trigger] v[i])@
        != (#[trigger] v[j])@
}

/// Whether `v` holds a string with the text of `s`.
pub fn contains_string(v: &[String], s: &String) -> (r: bool)
    ensures
        r == string_set(v@).contains(s@),
{
    let mut i: usize = 0;
    while i < v.len()
        invariant
            i <= v@.len(),
            forall|j: int| 0 <= j < i ==> (#[trigger] v@[j])@ != s@,
        decreases v@.len() - i,
    {
        if v[i] == *s {
            assert(v@[i as int]@ == s@);
            return true;
        }
        i = i + 1;
    }
    false
}

fn newline_chars() -> (r: Vec<char>)
    ensures
        r@ == newline(),
{
    let r = vec!['\n'];
    assert(r@ =~= newline());
    r
}

/// The lines of `content` (see `lines_of`), as characters.
fn lines_chars(content: &str) -> (r: Vec<Vec<char>>)
    ensures
        r@.len() == lines_of(content@).len(),
        forall|j: int| 0 <= j < r@.len() ==> #[trigger] r@[j]@ == lines_of(content@)[j],
{
    let cs = chars_of(content);
    let nl = newline_chars();
    let pieces = split_chars(cs.as_slice(), nl.as_slice());
    let ghost ps = pieces_of(content@);
    let ghost ls = lines_of(content@);
    let mut out: Vec<Vec<char>> = Vec::new();
    let mut k: usize = 0;
    while k < pieces.len()
        invariant
            k <= pieces@.len(),
            pieces@.len() == ps.len(),
            ps == pieces_of(content@),
            ls == lines_of(content@),
            forall|j: int| 0 <= j < pieces@.len() ==> #[trigger] pieces@[j]@ == ps[j],
            out@.len() == k,
            forall|j: int| 0 <= j < k ==> #[trigger] out@[j]@ == ls[j],
        decreases pieces@.len() - k,
    {
        let piece = &pieces[k];
        assert(piece@ == ps[k as int]);
        let mut n: usize = piece.len();
        if k + 1 < pieces.len() && n > 0 && piece[n - 1] == '\r' {
            n = n - 1;
        }
        let mut line: Vec<char> = Vec::new();
        let mut i: usize = 0;
        while i < n
            invariant
                i <= n <= piece@.len(),
                line@ == piece@.take(i as int),
            decreases n - i,
        {
            line.push(piece[i]);
            i = i + 1;
            assert(piece@.take(i as int) =~= piece@.take(i - 1).push(piece@[i - 1]));
        }
        proof {
            if n < piece@.len() {
                assert(line@ =~= piece@.drop_last());
            } else {
                assert(line@ =~= piece@);
            }
            assert(line@ == ls[k as int]);
        }
        let ghost before = out@;
        out.push(line);
        proof {
            assert forall|j: int| 0 <= j < k + 1 implies #[trigger] out@[j]@ == ls[j] by {
                if j < k {
                    assert(out@[j] == before[j]);
                }
            }
        }
        k = k + 1;
    }
    out
}

/// The identifiers that the metadata lines of `content` carry, each once.
pub fn get_synced_uuids(content: &str) -> (r: Vec<String>)
    ensures
        string_set(r@) == synced_ids(content@),
        distinct_strings(r@),
{
    let lines = lines_chars(content);
    let ghost ls = lines_of(content@);
    let mut out: Vec<String> = Vec::new();
    let mut k: usize = 0;
    while k < lines.len()
        invariant
            k <= lines@.len(),
            lines@.len() == ls.len(),
            forall|j: int| 0 <= j < lines@.len() ==> #[trigger] lines@[j]@ == ls[j],
            distinct_strings(out@),
            string_set(out@) == Set::new(
                |id: Seq<char>| exists|i: int| 0 <= i < k && id_of_line(#[trigger] ls[i]) == Some(id),
            ),
        decreases lines@.len() - k,
    {
        let ghost before = out@;
        let ghost seen = Set::new(
            |id: Seq<char>| exists|i: int| 0 <= i < k && id_of_line(#[trigger] ls[i]) == Some(id),
        );
        let ghost seen_next = Set::new(
            |id: Seq<char>| exists|i: int| 0 <= i < k + 1 && id_of_line(#[trigger] ls[i]) == Some(id),
        );
        assert(lines@[k as int]@ == ls[k as int]);
        match id_of_chars(lines[k].as_slice()) {
            Some(id) => {
                let ghost idv = id@;
                if !contains_string(out.as_slice(), &id) {
                    out.push(id);
                    proof {
                        assert forall|i: int, j: int|
                            0 <= i < out@.len() && 0 <= j < out@.len() && i != j implies (#[trigger] out@[i])@
                            != (#[trigger] out@[j])@ by {
                            if i < before.len() && j < before.len() {
                                assert(out@[i] == before[i] && out@[j] == before[j]);
                            } else if i < before.len() {
                                assert(out@[i] == before[i]);
                            } else {
                                assert(out@[j] == before[j]);
                            }
                        }
                        assert(string_set(out@) =~= seen.insert(idv)) by {
                            assert forall|s: Seq<char>| string_set(out@).contains(s) implies seen.insert(
                                idv,
                            ).contains(s) by {
                                let i = choose|i: int| 0 <= i < out@.len() && (#[trigger] out@[i])@ == s;
                                if i < before.len() {
                                    assert(out@[i] == before[i]);
                                    assert(string_set(before).contains(s));
                                }
                            }
                            assert forall|s: Seq<char>| seen.insert(idv).contains(s) implies string_set(
                                out@,
                            ).contains(s) by {
                                if s == idv {
                                    assert(out@[before.len() as int]@ == s);
                                } else {
                                    assert(string_set(before).contains(s));
                                    let i = choose|i: int| 0 <= i < before.len() && (#[trigger] before[i])@ == s;
                                    assert(out@[i] == before[i]);
                                }
                            }
                        }
                    }
                }
                proof {
                    assert(seen_next =~= seen.insert(idv)) by {
                        assert(id_of_line(ls[k as int]) == Some(idv));
                        assert forall|s: Seq<char>| seen_next.contains(s) implies seen.insert(idv).contains(s) by {
                            let i = choose|i: int| 0 <= i < k + 1 && id_of_line(#[trigger] ls[i]) == Some(s);
                            if i < k {
                                assert(seen.contains(s));
                            }
                        }
                    }
                    assert(seen.insert(idv) =~= string_set(out@));
                }
            },
            None => {
                proof {
                    assert(seen_next =~= seen) by {
                        assert forall|s: Seq<char>| seen_next.contains(s) implies seen.contains(s) by {
                            let i = choose|i: int| 0 <= i < k + 1 && id_of_line(#[trigger] ls[i]) == Some(s);
                            assert(i < k);
                        }
                    }
                }
            },
        }
        k = k + 1;
    }
    proof {
        assert(string_set(out@) =~= synced_ids(content@));
    }
    out
}

/// The timestamp of the last line of `content` that holds a well-formed one;
/// `None` when no line does.
pub fn get_last_synced_timestamp(content: &str) -> (r: Option<i64>)
    ensures
        r == last_timestamp(content@),
{
    let lines = lines_chars(content);
    let ghost ls = lines_of(content@);
    assert(ls.take(lines@.len() as int) =~= ls);
    let mut k: usize = lines.len();
    while k > 0
        invariant
            k <= lines@.len(),
            lines@.len() == ls.len(),
            forall|j: int| 0 <= j < lines@.len() ==> #[trigger] lines@[j]@ == ls[j],
            ls == lines_of(content@),
            last_timestamp_in(ls) == last_timestamp_in(ls.take(k as int)),
        decreases k,
    {
        let ghost t = ls.take(k as int);
        assert(t.last() == ls[k - 1]);
        assert(t.drop_last() =~= ls.take(k - 1));
        assert(lines@[k - 1]@ == ls[k - 1]);
        match timestamp_of_chars(lines[k - 1].as_slice()) {
            Some(ts) => {
                assert(last_timestamp_in(t) == Some(ts));
                return Some(ts);
            },
            None => {
                k = k - 1;
            },
        }
    }
    assert(ls.take(0) =~= Seq::<Seq<char>>::empty());
    None
}

} // verus!
