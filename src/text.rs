//! Character-level helpers: the text of a `str` as characters, building a
//! `String` one character at a time, and splitting on a separator.

use vstd::prelude::*;
use vstd::std_specs::iter::IteratorSpec;

verus! {

broadcast use vstd::string::group_string_axioms;

/// The characters of `s`, in order.
pub fn chars_of(s: &str) -> (r: Vec<char>)
    ensures
        r@ == s@,
{
    let mut out: Vec<char> = Vec::new();
    for c in it: s.chars()
        invariant
            out@ == it.seq().take(it.index() as int),
    {
        out.push(c);
    }
    out
}

/// Relies on `String::push`: appends one character at the end.
#[verifier::external_body]
pub(crate) fn push_char(s: &mut String, c: char)
    ensures
        final(s)@ == old(s)@.push(c),
{
    s.push(c);
}

/// Appends the characters of `cs` to `s`.
pub(crate) fn push_chars(s: &mut String, cs: &[char])
    ensures
        final(s)@ == old(s)@ + cs@,
{
    let ghost start = s@;
    let mut i: usize = 0;
    while i < cs.len()
        invariant
            i <= cs@.len(),
            s@ == start + cs@.take(i as int),
        decreases cs@.len() - i,
    {
        push_char(s, cs[i]);
        i = i + 1;
        assert(cs@.take(i as int) =~= cs@.take((i - 1) as int).push(cs@[i - 1]));
    }
    assert(cs@.take(i as int) =~= cs@);
}

/// A `String` holding the characters of `cs` from position `start` on.
pub(crate) fn string_from(cs: &[char], start: usize) -> (r: String)
    requires
        start <= cs@.len(),
    ensures
        r@ == cs@.skip(start as int),
{
    let mut s = String::new();
    let mut i: usize = start;
    while i < cs.len()
        invariant
            start <= i <= cs@.len(),
            s@ == cs@.subrange(start as int, i as int),
        decreases cs@.len() - i,
    {
        push_char(&mut s, cs[i]);
        i = i + 1;
        assert(cs@.subrange(start as int, i as int) =~= cs@.subrange(start as int, i - 1).push(
            cs@[i - 1],
        ));
    }
    assert(cs@.subrange(start as int, i as int) =~= cs@.skip(start as int));
    s
}

/// `s` begins with `p`.
pub open spec fn has_prefix(s: Seq<char>, p: Seq<char>) -> bool {
    p.len() <= s.len() && s.take(p.len() as int) == p
}

/// `s` holds `sep` starting at position `i`.
pub open spec fn occurs_at(s: Seq<char>, sep: Seq<char>, i: int) -> bool {
    0 <= i && i + sep.len() <= s.len() && s.subrange(i, i + sep.len()) == sep
}

/// Whether `s` holds `sep` starting at position `i`.
pub(crate) fn matches_at(s: &[char], sep: &[char], i: usize) -> (r: bool)
    ensures
        r == occurs_at(s@, sep@, i as int),
{
    if i > s.len() || sep.len() > s.len() - i {
        return false;
    }
    let mut k: usize = 0;
    while k < sep.len()
        invariant
            i + sep@.len() <= s@.len(),
            k <= sep@.len(),
            forall|j: int| 0 <= j < k ==> s@[i + j] == sep@[j],
        decreases sep@.len() - k,
    {
        assert(i + k < s.len());
        if s[i + k] != sep[k] {
            assert(s@.subrange(i as int, i + sep@.len())[k as int] != sep@[k as int]);
            return false;
        }
        k = k + 1;
    }
    assert(s@.subrange(i as int, i + sep@.len()) =~= sep@);
    true
}

/// Whether `s` begins with `p`.
pub(crate) fn starts_with(s: &[char], p: &[char]) -> (r: bool)
    ensures
        r == has_prefix(s@, p@),
{
    let r = matches_at(s, p, 0);
    proof {
        if p@.len() <= s@.len() {
            assert(s@.subrange(0, p@.len() as int) =~= s@.take(p@.len() as int));
        }
    }
    r
}

/// Adds `head` in front of the first piece of `pieces`.
pub open spec fn join_front(head: Seq<char>, pieces: Seq<Seq<char>>) -> Seq<Seq<char>>
    recommends
        pieces.len() > 0,
{
    pieces.update(0, head + pieces[0])
}

/// The pieces of `s` between the occurrences of `sep`, taken leftmost first
/// and without overlap, as `str::split` gives them: one more piece than there
/// are occurrences, empty pieces included.
pub open spec fn split_spec(s: Seq<char>, sep: Seq<char>) -> Seq<Seq<char>>
    recommends
        sep.len() > 0,
    decreases s.len(),
{
    if sep.len() == 0 || s.len() < sep.len() {
        seq![s]
    } else if has_prefix(s, sep) {
        seq![Seq::<char>::empty()] + split_spec(s.skip(sep.len() as int), sep)
    } else {
        join_front(seq![s[0]], split_spec(s.skip(1), sep))
    }
}

/// A split always has at least one piece.
pub proof fn lemma_split_nonempty(s: Seq<char>, sep: Seq<char>)
    ensures
        split_spec(s, sep).len() >= 1,
    decreases s.len(),
{
    if sep.len() == 0 || s.len() < sep.len() {
    } else if has_prefix(s, sep) {
        lemma_split_nonempty(s.skip(sep.len() as int), sep);
    } else {
        lemma_split_nonempty(s.skip(1), sep);
    }
}

/// Each piece written after a separator, in order: the inverse of a split,
/// leaving out the piece before the first separator.
pub open spec fn join_after(pieces: Seq<Seq<char>>, sep: Seq<char>) -> Seq<char>
    decreases pieces.len(),
{
    if pieces.len() == 0 {
        Seq::empty()
    } else {
        sep + pieces[0] + join_after(pieces.skip(1), sep)
    }
}

/// Joining two lists of pieces one after the other joins each in turn.
pub proof fn lemma_join_after_concat(a: Seq<Seq<char>>, b: Seq<Seq<char>>, sep: Seq<char>)
    ensures
        join_after(a + b, sep) == join_after(a, sep) + join_after(b, sep),
    decreases a.len(),
{
    if a.len() == 0 {
        assert(a + b =~= b);
        assert(Seq::<char>::empty() + join_after(b, sep) =~= join_after(b, sep));
    } else {
        lemma_join_after_concat(a.skip(1), b, sep);
        assert((a + b).skip(1) =~= a.skip(1) + b);
        assert((a + b)[0] == a[0]);
        assert(join_after(a + b, sep) =~= join_after(a, sep) + join_after(b, sep));
    }
}

/// The first piece of a split, and the split of what follows the first
/// separator.
pub proof fn lemma_split_first(s: Seq<char>, sep: Seq<char>)
    requires
        sep.len() > 0,
    ensures
        split_spec(s, sep).len() >= 1,
        split_spec(s, sep).len() == 1 ==> s == split_spec(s, sep)[0],
        split_spec(s, sep).len() >= 2 ==> {
            let q = split_spec(s, sep);
            let r = s.skip((q[0].len() + sep.len()) as int);
            &&& q[0].len() + sep.len() <= s.len()
            &&& s == q[0] + sep + r
            &&& split_spec(r, sep) == q.skip(1)
        },
    decreases s.len(),
{
    lemma_split_nonempty(s, sep);
    let q = split_spec(s, sep);
    if s.len() < sep.len() {
    } else if has_prefix(s, sep) {
        let r = s.skip(sep.len() as int);
        lemma_split_nonempty(r, sep);
        assert(q[0] == Seq::<char>::empty());
        assert(s =~= q[0] + sep + r);
        assert(q.skip(1) =~= split_spec(r, sep));
    } else {
        let s1 = s.skip(1);
        lemma_split_first(s1, sep);
        let q1 = split_spec(s1, sep);
        lemma_split_nonempty(s1, sep);
        assert(q == join_front(seq![s[0]], q1));
        assert(q.len() == q1.len());
        assert(q[0] == seq![s[0]] + q1[0]);
        assert(s =~= seq![s[0]] + s1);
        if q1.len() == 1 {
            assert(s =~= seq![s[0]] + q1[0]);
        } else {
            let r1 = s1.skip((q1[0].len() + sep.len()) as int);
            assert(q[0] == seq![s[0]] + q1[0]);
            assert(s.skip((q[0].len() + sep.len()) as int) =~= r1);
            assert(s1 == q1[0] + sep + r1);
            assert(s =~= q[0] + sep + r1);
            assert(q.skip(1) =~= q1.skip(1));
        }
    }
}

/// A text is its first piece followed by the other pieces, each after a
/// separator.
pub proof fn lemma_split_join(s: Seq<char>, sep: Seq<char>)
    requires
        sep.len() > 0,
    ensures
        s == split_spec(s, sep)[0] + join_after(split_spec(s, sep).skip(1), sep),
    decreases s.len(),
{
    lemma_split_first(s, sep);
    let q = split_spec(s, sep);
    if q.len() == 1 {
        assert(q.skip(1) =~= Seq::<Seq<char>>::empty());
        assert(s =~= q[0] + Seq::<char>::empty());
    } else {
        let r = s.skip((q[0].len() + sep.len()) as int);
        lemma_split_join(r, sep);
        assert(q.skip(1).skip(1) =~= q.skip(2));
        assert(split_spec(r, sep).skip(1) =~= q.skip(2));
        assert(join_after(q.skip(1), sep) == sep + q[1] + join_after(q.skip(2), sep));
        assert(s =~= q[0] + join_after(q.skip(1), sep));
    }
}

/// Joining the pieces of a split from the `j`-th on and splitting again gives
/// those pieces back, after an empty first piece.
pub proof fn lemma_split_tail(s: Seq<char>, sep: Seq<char>, j: int)
    requires
        sep.len() > 0,
        1 <= j < split_spec(s, sep).len(),
    ensures
        split_spec(join_after(split_spec(s, sep).skip(j), sep), sep) == seq![Seq::<char>::empty()]
            + split_spec(s, sep).skip(j),
    decreases s.len(),
{
    lemma_split_first(s, sep);
    let q = split_spec(s, sep);
    let r = s.skip((q[0].len() + sep.len()) as int);
    if j == 1 {
        lemma_split_join(r, sep);
        assert(split_spec(r, sep).skip(1) =~= q.skip(2));
        assert(q.skip(1).skip(1) =~= q.skip(2));
        let t = join_after(q.skip(1), sep);
        assert(t == sep + q[1] + join_after(q.skip(2), sep));
        assert(t =~= sep + r);
        assert(t.take(sep.len() as int) =~= sep);
        assert(t.skip(sep.len() as int) =~= r);
        assert(split_spec(t, sep) == seq![Seq::<char>::empty()] + split_spec(r, sep));
    } else {
        lemma_split_tail(r, sep, j - 1);
        assert(split_spec(r, sep).skip(j - 1) =~= q.skip(j));
    }
}

/// Splits `s` on `sep`, as `split_spec` describes.
pub(crate) fn split_chars(s: &[char], sep: &[char]) -> (r: Vec<Vec<char>>)
    requires
        sep@.len() > 0,
    ensures
        r@.len() == split_spec(s@, sep@).len(),
        forall|k: int| 0 <= k < r@.len() ==> #[trigger] r@[k]@ == split_spec(s@, sep@)[k],
{
    let mut done: Vec<Vec<char>> = Vec::new();
    let mut cur: Vec<char> = Vec::new();
    let mut i: usize = 0;
    proof {
        lemma_split_nonempty(s@, sep@);
        assert(s@.skip(0) =~= s@);
        assert(join_front(cur@, split_spec(s@.skip(0), sep@)) =~= split_spec(s@, sep@));
    }
    while i < s.len()
        invariant
            sep@.len() > 0,
            i <= s@.len(),
            split_spec(s@.skip(i as int), sep@).len() >= 1,
            done@.map_values(|v: Vec<char>| v@) + join_front(cur@, split_spec(s@.skip(i as int), sep@))
                == split_spec(s@, sep@),
        decreases s@.len() - i,
    {
        let ghost rest = s@.skip(i as int);
        let ghost before = done@.map_values(|v: Vec<char>| v@);
        if matches_at(s, sep, i) {
            proof {
                assert(rest.take(sep@.len() as int) =~= s@.subrange(i as int, i + sep@.len()));
                assert(rest.skip(sep@.len() as int) =~= s@.skip(i + sep@.len()));
                lemma_split_nonempty(s@.skip(i + sep@.len()), sep@);
            }
            let piece = cur;
            done.push(piece);
            cur = Vec::new();
            i = i + sep.len();
            proof {
                let tail = split_spec(s@.skip(i as int), sep@);
                assert(split_spec(rest, sep@) == seq![Seq::<char>::empty()] + tail);
                assert(done@.map_values(|v: Vec<char>| v@) =~= before.push(piece@));
                assert(join_front(piece@, split_spec(rest, sep@)) =~= seq![piece@] + tail);
                assert(join_front(cur@, tail) =~= tail);
                assert(before.push(piece@) + join_front(cur@, tail) =~= before + (seq![piece@]
                    + tail));
            }
        } else {
            proof {
                if rest.len() >= sep@.len() {
                    assert(rest.take(sep@.len() as int) =~= s@.subrange(i as int, i + sep@.len()));
                }
                assert(rest.skip(1) =~= s@.skip(i + 1));
                lemma_split_nonempty(s@.skip(i + 1), sep@);
            }
            let ghost old_cur = cur@;
            let ghost tail = split_spec(s@.skip(i + 1), sep@);
            cur.push(s[i]);
            i = i + 1;
            proof {
                if rest.len() < sep@.len() {
                    // Too short to hold the separator: the rest is one piece.
                    assert(tail == seq![s@.skip(i as int)]);
                    assert(split_spec(rest, sep@) == seq![rest]);
                    assert(rest =~= seq![rest[0]] + s@.skip(i as int));
                    assert(old_cur + rest =~= cur@ + tail[0]);
                } else {
                    assert(split_spec(rest, sep@) == join_front(seq![rest[0]], tail));
                    assert(old_cur + (seq![rest[0]] + tail[0]) =~= cur@ + tail[0]);
                }
                assert(join_front(old_cur, split_spec(rest, sep@)) =~= join_front(cur@, tail));
            }
        }
    }
    proof {
        assert(s@.skip(i as int) =~= Seq::<char>::empty());
        assert(join_front(cur@, split_spec(s@.skip(i as int), sep@)) =~= seq![cur@]);
    }
    let ghost before = done@.map_values(|v: Vec<char>| v@);
    done.push(cur);
    proof {
        assert(done@.map_values(|v: Vec<char>| v@) =~= before.push(cur@));
        assert(before.push(cur@) =~= before + seq![cur@]);
    }
    done
}

} // verus!
