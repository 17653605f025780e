//! Text primitives over sequences of characters: searching, splitting from
//! either end, joining and replacing, each with its mathematical model.
use vstd::prelude::*;

verus! {

/// The views of a sequence of character vectors.
pub open spec fn views(v: Seq<Vec<char>>) -> Seq<Seq<char>> {
    v.map_values(|p: Vec<char>| p@)
}

/// The views of a sequence of strings.
pub open spec fn string_views(v: Seq<String>) -> Seq<Seq<char>> {
    v.map_values(|p: String| p@)
}

/// `pat` occurs in `s` at index `i`.
pub open spec fn occurs_at(s: Seq<char>, pat: Seq<char>, i: int) -> bool {
    &&& 0 <= i
    &&& i + pat.len() <= s.len()
    &&& s.subrange(i, i + pat.len()) == pat
}

/// `pat` occurs somewhere in `s`.
pub open spec fn contains(s: Seq<char>, pat: Seq<char>) -> bool {
    exists|i: int| occurs_at(s, pat, i)
}

/// The pieces of `s` from `start` on, scanning for `pat` from `pos`:
/// matches are taken left to right and do not overlap.
pub open spec fn split_from(s: Seq<char>, pat: Seq<char>, start: int, pos: int) -> Seq<Seq<char>>
    decreases s.len() - pos,
{
    if pat.len() == 0 || pos + pat.len() > s.len() {
        seq![s.subrange(start, s.len() as int)]
    } else if s.subrange(pos, pos + pat.len()) == pat {
        seq![s.subrange(start, pos)] + split_from(s, pat, pos + pat.len(), pos + pat.len())
    } else {
        split_from(s, pat, start, pos + 1)
    }
}

/// The pieces of `s` between the matches of a non-empty `pat`, first to last.
pub open spec fn split(s: Seq<char>, pat: Seq<char>) -> Seq<Seq<char>> {
    split_from(s, pat, 0, 0)
}

/// The pieces of `s` up to `end`, scanning for `pat` backwards from the match
/// that would end at `pos`: matches are taken right to left and do not overlap.
pub open spec fn rsplit_from(s: Seq<char>, pat: Seq<char>, end: int, pos: int) -> Seq<Seq<char>>
    decreases pos,
{
    if pat.len() == 0 || pos < pat.len() {
        seq![s.subrange(0, end)]
    } else if s.subrange(pos - pat.len(), pos) == pat {
        seq![s.subrange(pos, end)] + rsplit_from(s, pat, pos - pat.len(), pos - pat.len())
    } else {
        rsplit_from(s, pat, end, pos - 1)
    }
}

/// The pieces of `s` between the matches of a non-empty `pat`, last to first.
pub open spec fn rsplit(s: Seq<char>, pat: Seq<char>) -> Seq<Seq<char>> {
    rsplit_from(s, pat, s.len() as int, s.len() as int)
}

/// The pieces concatenated with `sep` between each two of them.
pub open spec fn join(parts: Seq<Seq<char>>, sep: Seq<char>) -> Seq<char>
    decreases parts.len(),
{
    if parts.len() == 0 {
        seq![]
    } else if parts.len() == 1 {
        parts[0]
    } else {
        join(parts.drop_last(), sep) + sep + parts.last()
    }
}

/// `s` with every match of `from` (left to right, not overlapping) replaced by `to`.
pub open spec fn replace(s: Seq<char>, from: Seq<char>, to: Seq<char>) -> Seq<char> {
    join(split(s, from), to)
}

/// Joining a first piece before other pieces puts the separator between it and them.
pub proof fn lemma_join_prepend(a: Seq<char>, rest: Seq<Seq<char>>, sep: Seq<char>)
    requires
        rest.len() > 0,
    ensures
        join(seq![a] + rest, sep) == a + sep + join(rest, sep),
    decreases rest.len(),
{
    let all = seq![a] + rest;
    if rest.len() == 1 {
        assert(all.drop_last() =~= seq![a]);
        assert(join(all.drop_last(), sep) == a);
        assert(join(rest, sep) == rest[0]);
        assert(all.last() == rest[0]);
        assert(join(all, sep) =~= a + sep + join(rest, sep));
    } else {
        lemma_join_prepend(a, rest.drop_last(), sep);
        assert(all.drop_last() =~= seq![a] + rest.drop_last());
        assert(all.last() == rest.last());
        assert(join(all, sep) == join(seq![a] + rest.drop_last(), sep) + sep + rest.last());
        assert(join(all, sep) =~= a + sep + join(rest, sep));
    }
}

/// Joining the pieces of `s` from `start` on puts the matches back.
proof fn lemma_join_split_from(s: Seq<char>, pat: Seq<char>, start: int, pos: int)
    requires
        pat.len() > 0,
        0 <= start <= pos <= s.len(),
    ensures
        join(split_from(s, pat, start, pos), pat) == s.subrange(start, s.len() as int),
    decreases s.len() - pos,
{
    if pos + pat.len() > s.len() {
    } else if s.subrange(pos, pos + pat.len()) == pat {
        let rest = split_from(s, pat, pos + pat.len(), pos + pat.len());
        lemma_join_split_from(s, pat, pos + pat.len(), pos + pat.len());
        lemma_split_from_nonempty(s, pat, pos + pat.len(), pos + pat.len());
        lemma_join_prepend(s.subrange(start, pos), rest, pat);
        assert(s.subrange(start, pos) + pat + s.subrange(pos + pat.len(), s.len() as int)
            =~= s.subrange(start, s.len() as int));
    } else {
        lemma_join_split_from(s, pat, start, pos + 1);
    }
}

/// A split has at least one piece.
pub proof fn lemma_split_from_nonempty(s: Seq<char>, pat: Seq<char>, start: int, pos: int)
    ensures
        split_from(s, pat, start, pos).len() >= 1,
    decreases s.len() - pos,
{
    if pat.len() == 0 || pos + pat.len() > s.len() {
    } else if s.subrange(pos, pos + pat.len()) == pat {
        lemma_split_from_nonempty(s, pat, pos + pat.len(), pos + pat.len());
    } else {
        lemma_split_from_nonempty(s, pat, start, pos + 1);
    }
}

/// Law: joining the pieces of a split with the pattern that cut them gives
/// back the text; so replacing a pattern by itself changes nothing.
pub proof fn lemma_join_split(s: Seq<char>, pat: Seq<char>)
    requires
        pat.len() > 0,
    ensures
        join(split(s, pat), pat) == s,
        replace(s, pat, pat) == s,
{
    lemma_join_split_from(s, pat, 0, 0);
    assert(s.subrange(0, s.len() as int) =~= s);
}

/// `s` with the matches of `from` replaced by `to`, read from the front: a
/// match at the start is replaced and skipped, else the first character is kept.
pub open spec fn replace_from_front(s: Seq<char>, from: Seq<char>, to: Seq<char>) -> Seq<char>
    decreases s.len(),
{
    if from.len() == 0 || s.len() < from.len() {
        s
    } else if s.subrange(0, from.len() as int) == from {
        to + replace_from_front(s.skip(from.len() as int), from, to)
    } else {
        seq![s[0]] + replace_from_front(s.skip(1), from, to)
    }
}

/// The joined pieces of a scan are the text read from the front.
proof fn lemma_join_split_from_front(s: Seq<char>, pat: Seq<char>, to: Seq<char>, start: int, pos: int)
    requires
        pat.len() > 0,
        0 <= start <= pos <= s.len(),
    ensures
        join(split_from(s, pat, start, pos), to) == s.subrange(start, pos) + replace_from_front(
            s.skip(pos),
            pat,
            to,
        ),
    decreases s.len() - pos,
{
    let rest = s.skip(pos);
    if pos + pat.len() > s.len() {
        assert(s.subrange(start, pos) + rest =~= s.subrange(start, s.len() as int));
    } else if s.subrange(pos, pos + pat.len()) == pat {
        lemma_join_split_from_front(s, pat, to, pos + pat.len(), pos + pat.len());
        lemma_split_from_nonempty(s, pat, pos + pat.len(), pos + pat.len());
        lemma_join_prepend(
            s.subrange(start, pos),
            split_from(s, pat, pos + pat.len(), pos + pat.len()),
            to,
        );
        assert(rest.subrange(0, pat.len() as int) =~= s.subrange(pos, pos + pat.len()));
        assert(rest.skip(pat.len() as int) =~= s.skip(pos + pat.len()));
        assert(s.subrange(pos + pat.len(), pos + pat.len()) =~= Seq::<char>::empty());
        assert(join(split_from(s, pat, start, pos), to) =~= s.subrange(start, pos)
            + replace_from_front(rest, pat, to));
    } else {
        lemma_join_split_from_front(s, pat, to, start, pos + 1);
        assert(rest.subrange(0, pat.len() as int) =~= s.subrange(pos, pos + pat.len()));
        assert(rest.skip(1) =~= s.skip(pos + 1));
        assert(s.subrange(start, pos + 1) =~= s.subrange(start, pos) + seq![rest[0]]);
        assert(s.subrange(start, pos + 1) + replace_from_front(s.skip(pos + 1), pat, to)
            =~= s.subrange(start, pos) + replace_from_front(rest, pat, to));
    }
}

/// `replace` reads the text from the front.
pub proof fn lemma_replace_from_front(s: Seq<char>, from: Seq<char>, to: Seq<char>)
    requires
        from.len() > 0,
    ensures
        replace(s, from, to) == replace_from_front(s, from, to),
{
    lemma_join_split_from_front(s, from, to, 0, 0);
    assert(s.skip(0) =~= s);
    assert(s.subrange(0, 0) + replace_from_front(s, from, to) =~= replace_from_front(s, from, to));
}

/// Reading from the front keeps out a character that neither the text nor the
/// replacement holds.
pub proof fn lemma_replace_from_front_without(s: Seq<char>, from: Seq<char>, to: Seq<char>, c: char)
    requires
        !s.contains(c),
        !to.contains(c),
    ensures
        !replace_from_front(s, from, to).contains(c),
    decreases s.len(),
{
    if from.len() == 0 || s.len() < from.len() {
    } else if s.subrange(0, from.len() as int) == from {
        let rest = s.skip(from.len() as int);
        assert(!rest.contains(c)) by {
            if rest.contains(c) {
                let i = choose|i: int| 0 <= i < rest.len() && rest[i] == c;
                assert(s[i + from.len()] == c);
            }
        }
        lemma_replace_from_front_without(rest, from, to, c);
        let r = to + replace_from_front(rest, from, to);
        assert(!r.contains(c)) by {
            if r.contains(c) {
                let i = choose|i: int| 0 <= i < r.len() && r[i] == c;
                if i < to.len() {
                    assert(to[i] == c);
                } else {
                    assert(replace_from_front(rest, from, to)[i - to.len()] == c);
                }
            }
        }
    } else {
        let rest = s.skip(1);
        assert(!rest.contains(c)) by {
            if rest.contains(c) {
                let i = choose|i: int| 0 <= i < rest.len() && rest[i] == c;
                assert(s[i + 1] == c);
            }
        }
        lemma_replace_from_front_without(rest, from, to, c);
        let r = seq![s[0]] + replace_from_front(rest, from, to);
        assert(!r.contains(c)) by {
            if r.contains(c) {
                let i = choose|i: int| 0 <= i < r.len() && r[i] == c;
                if i == 0 {
                    assert(s[0] == c);
                } else {
                    assert(replace_from_front(rest, from, to)[i - 1] == c);
                }
            }
        }
    }
}

/// A character that the pattern does not hold cuts the text read from the
/// front into the two sides, each read on its own.
pub proof fn lemma_replace_from_front_at(
    u: Seq<char>,
    v: Seq<char>,
    from: Seq<char>,
    to: Seq<char>,
    c: char,
)
    requires
        from.len() > 0,
        !from.contains(c),
    ensures
        replace_from_front(u + seq![c] + v, from, to) == replace_from_front(u, from, to) + seq![c]
            + replace_from_front(v, from, to),
    decreases u.len(),
{
    let s = u + seq![c] + v;
    let m = from.len() as int;
    if s.len() < m {
        if u.len() >= m {
            assert(false);
        }
        assert(v.len() < m);
    } else if s.subrange(0, m) == from {
        if u.len() < m {
            assert(from[u.len() as int] == s[u.len() as int]);
            assert(from.contains(c));
        }
        assert(u.subrange(0, m) =~= s.subrange(0, m));
        assert(s.skip(m) =~= u.skip(m) + seq![c] + v);
        lemma_replace_from_front_at(u.skip(m), v, from, to, c);
        assert(replace_from_front(s, from, to) =~= replace_from_front(u, from, to) + seq![c]
            + replace_from_front(v, from, to));
    } else if u.len() == 0 {
        assert(s.skip(1) =~= v);
        assert(replace_from_front(u, from, to) =~= Seq::<char>::empty());
        assert(replace_from_front(s, from, to) =~= replace_from_front(u, from, to) + seq![c]
            + replace_from_front(v, from, to));
    } else {
        assert(s.skip(1) =~= u.skip(1) + seq![c] + v);
        lemma_replace_from_front_at(u.skip(1), v, from, to, c);
        if u.len() >= m {
            assert(u.subrange(0, m) =~= s.subrange(0, m));
        } else {
            assert(u.skip(1).len() < m);
        }
        assert(replace_from_front(s, from, to) =~= replace_from_front(u, from, to) + seq![c]
            + replace_from_front(v, from, to));
    }
}

/// A scan that meets its first match at `j` cuts its first piece there.
pub proof fn lemma_split_from_first_match(s: Seq<char>, pat: Seq<char>, start: int, pos: int, j: int)
    requires
        pat.len() > 0,
        0 <= start <= pos <= j,
        occurs_at(s, pat, j),
        forall|k: int| pos <= k < j ==> !occurs_at(s, pat, k),
    ensures
        split_from(s, pat, start, pos)[0] == s.subrange(start, j),
    decreases j - pos,
{
    if pos < j {
        assert(!occurs_at(s, pat, pos));
        lemma_split_from_first_match(s, pat, start, pos + 1, j);
    } else {
        let rest = split_from(s, pat, j + pat.len(), j + pat.len());
        assert(split_from(s, pat, start, pos) == seq![s.subrange(start, j)] + rest);
        assert((seq![s.subrange(start, j)] + rest)[0] == s.subrange(start, j));
    }
}

/// A scan that meets no match keeps the rest of the text as one piece.
pub proof fn lemma_split_from_no_match(s: Seq<char>, pat: Seq<char>, start: int, pos: int)
    requires
        pat.len() > 0,
        0 <= pos,
        forall|k: int| pos <= k ==> !occurs_at(s, pat, k),
    ensures
        split_from(s, pat, start, pos) == seq![s.subrange(start, s.len() as int)],
    decreases s.len() - pos,
{
    if pos + pat.len() <= s.len() {
        assert(!occurs_at(s, pat, pos));
        lemma_split_from_no_match(s, pat, start, pos + 1);
    }
}

/// The first piece of a text cut at a character is the text up to that
/// character's first occurrence.
pub proof fn lemma_split_char_first(p: Seq<char>, q: Seq<char>, c: char)
    requires
        !p.contains(c),
    ensures
        split(p + seq![c] + q, seq![c])[0] == p,
{
    let s = p + seq![c] + q;
    assert(s.subrange(p.len() as int, p.len() + 1 as int) =~= seq![c]);
    assert forall|k: int| 0 <= k < p.len() implies !occurs_at(s, seq![c], k) by {
        if occurs_at(s, seq![c], k) {
            assert(s.subrange(k, k + 1)[0] == c);
            assert(p[k] == c);
        }
    }
    lemma_split_from_first_match(s, seq![c], 0, 0, p.len() as int);
    assert(s.subrange(0, p.len() as int) =~= p);
}

/// A text without the character is its own first piece.
pub proof fn lemma_split_char_absent(s: Seq<char>, c: char)
    requires
        !s.contains(c),
    ensures
        split(s, seq![c])[0] == s,
{
    assert forall|k: int| 0 <= k implies !occurs_at(s, seq![c], k) by {
        if occurs_at(s, seq![c], k) {
            assert(s.subrange(k, k + 1)[0] == c);
            assert(s[k] == c);
        }
    }
    lemma_split_from_no_match(s, seq![c], 0, 0);
    assert(s.subrange(0, s.len() as int) =~= s);
}

/// The first occurrence of a character that a text holds.
pub proof fn lemma_first_occurrence(s: Seq<char>, c: char) -> (k: int)
    requires
        s.contains(c),
    ensures
        0 <= k < s.len(),
        s[k] == c,
        !s.take(k).contains(c),
    decreases s.len(),
{
    if s[0] == c {
        assert(s.take(0) =~= Seq::<char>::empty());
        0
    } else {
        let i = choose|i: int| 0 <= i < s.len() && s[i] == c;
        assert(s.skip(1)[i - 1] == c);
        let k = lemma_first_occurrence(s.skip(1), c);
        let t = s.take(k + 1);
        assert(!t.contains(c)) by {
            if t.contains(c) {
                let j = choose|j: int| 0 <= j < t.len() && t[j] == c;
                if j > 0 {
                    assert(s.skip(1).take(k)[j - 1] == c);
                }
            }
        }
        k + 1
    }
}

/// Law: where neither the pattern nor its replacement holds the character
/// `c`, cutting at the first `c` and replacing commute: the part before the
/// first `c` of the replaced text is the replaced part before the first `c`.
pub proof fn lemma_replace_then_cut(x: Seq<char>, from: Seq<char>, to: Seq<char>, c: char)
    requires
        from.len() > 0,
        !from.contains(c),
        !to.contains(c),
    ensures
        split(replace(x, from, to), seq![c])[0] == replace(split(x, seq![c])[0], from, to),
{
    lemma_replace_from_front(x, from, to);
    if x.contains(c) {
        let k = lemma_first_occurrence(x, c);
        let u = x.take(k);
        let v = x.skip(k + 1);
        assert(x =~= u + seq![c] + v);
        lemma_split_char_first(u, v, c);
        lemma_replace_from_front_at(u, v, from, to, c);
        lemma_replace_from_front(u, from, to);
        lemma_replace_from_front_without(u, from, to, c);
        lemma_split_char_first(replace_from_front(u, from, to), replace_from_front(v, from, to), c);
    } else {
        lemma_split_char_absent(x, c);
        lemma_replace_from_front_without(x, from, to, c);
        lemma_split_char_absent(replace_from_front(x, from, to), c);
    }
}

/// No two matches of `pat` in `s` overlap.
pub open spec fn matches_apart(s: Seq<char>, pat: Seq<char>) -> bool {
    forall|i: int, j: int|
        occurs_at(s, pat, i) && occurs_at(s, pat, j) && i < j ==> j >= i + pat.len()
}

/// A pattern whose first character does not recur in it has no overlapping
/// matches.
pub proof fn lemma_matches_apart(s: Seq<char>, pat: Seq<char>)
    requires
        pat.len() > 0,
        forall|d: int| 1 <= d < pat.len() ==> #[trigger] pat[d] != pat[0],
    ensures
        matches_apart(s, pat),
{
    assert forall|i: int, j: int|
        occurs_at(s, pat, i) && occurs_at(s, pat, j) && i < j implies j >= i + pat.len() by {
        if j < i + pat.len() {
            assert(s.subrange(j, j + pat.len())[0] == pat[0]);
            assert(s.subrange(i, i + pat.len())[j - i] == pat[j - i]);
            assert(s[j] == pat[0] && s[j] == pat[j - i]);
        }
    }
}

/// The next match at or after `pos`, or the length of the text where there is none.
pub proof fn lemma_next_match(s: Seq<char>, pat: Seq<char>, pos: int) -> (e: int)
    requires
        pat.len() > 0,
        0 <= pos <= s.len(),
    ensures
        pos <= e <= s.len(),
        (e == s.len() && forall|j: int| pos <= j ==> !occurs_at(s, pat, j)) || (occurs_at(s, pat, e)
            && forall|j: int| pos <= j < e ==> !occurs_at(s, pat, j)),
    decreases s.len() - pos,
{
    if occurs_at(s, pat, pos) {
        pos
    } else if pos == s.len() {
        assert forall|j: int| pos <= j implies !occurs_at(s, pat, j) by {}
        pos
    } else {
        lemma_next_match(s, pat, pos + 1)
    }
}

/// A scan that meets its first match at `j` gives the piece up to `j`, then
/// goes on after the match.
pub proof fn lemma_split_from_step(s: Seq<char>, pat: Seq<char>, start: int, pos: int, j: int)
    requires
        pat.len() > 0,
        0 <= start <= pos <= j,
        occurs_at(s, pat, j),
        forall|k: int| pos <= k < j ==> !occurs_at(s, pat, k),
    ensures
        split_from(s, pat, start, pos) == seq![s.subrange(start, j)] + split_from(
            s,
            pat,
            j + pat.len(),
            j + pat.len(),
        ),
    decreases j - pos,
{
    if pos < j {
        assert(!occurs_at(s, pat, pos));
        lemma_split_from_step(s, pat, start, pos + 1, j);
    }
}

/// A backward scan that meets no match keeps the text up to `end` as one piece.
pub proof fn lemma_rsplit_from_no_match(s: Seq<char>, pat: Seq<char>, end: int, pos: int)
    requires
        pat.len() > 0,
        0 <= pos <= s.len(),
        forall|k: int| 0 <= k && k + pat.len() <= pos ==> !occurs_at(s, pat, k),
    ensures
        rsplit_from(s, pat, end, pos) == seq![s.subrange(0, end)],
    decreases pos,
{
    if pos >= pat.len() {
        assert(!occurs_at(s, pat, pos - pat.len()));
        lemma_rsplit_from_no_match(s, pat, end, pos - 1);
    }
}

/// A backward scan that has not yet passed the leftmost match `i0` ends with
/// the text before `i0`, preceded by the text from the end of `i0` to the next
/// match found, or to `end` where there is none before `pos`.
proof fn lemma_rsplit_from_leftmost(s: Seq<char>, pat: Seq<char>, end: int, pos: int, i0: int) -> (e: int)
    requires
        pat.len() > 0,
        matches_apart(s, pat),
        occurs_at(s, pat, i0),
        forall|k: int| k < i0 ==> !occurs_at(s, pat, k),
        i0 + pat.len() <= pos <= end <= s.len(),
    ensures
        rsplit_from(s, pat, end, pos).len() >= 2,
        rsplit_from(s, pat, end, pos).last() == s.subrange(0, i0),
        rsplit_from(s, pat, end, pos)[rsplit_from(s, pat, end, pos).len() - 2] == s.subrange(
            i0 + pat.len(),
            e,
        ),
        i0 + pat.len() <= e <= end,
        (e == end && forall|j: int| i0 < j && j + pat.len() <= pos ==> !occurs_at(s, pat, j)) || (
        occurs_at(s, pat, e) && e + pat.len() <= pos && forall|j: int|
            i0 < j < e ==> !occurs_at(s, pat, j)),
    decreases pos,
{
    let m = pat.len() as int;
    let r = rsplit_from(s, pat, end, pos);
    if s.subrange(pos - m, pos) == pat {
        assert(occurs_at(s, pat, pos - m));
        let inner = rsplit_from(s, pat, pos - m, pos - m);
        assert(r == seq![s.subrange(pos, end)] + inner);
        if pos - m == i0 {
            lemma_rsplit_from_no_match(s, pat, i0, i0);
            assert(r =~= seq![s.subrange(pos, end), s.subrange(0, i0)]);
            end
        } else {
            assert(pos - m >= i0 + m);
            let e1 = lemma_rsplit_from_leftmost(s, pat, pos - m, pos - m, i0);
            assert(r.last() == inner.last());
            assert(r[r.len() - 2] == inner[inner.len() - 2]);
            if e1 == pos - m {
                assert forall|j: int| i0 < j < e1 implies !occurs_at(s, pat, j) by {
                    if occurs_at(s, pat, j) && j + m > pos - m {
                        assert(j + m <= pos - m || j >= pos - m);
                    }
                }
            }
            e1
        }
    } else {
        assert(!occurs_at(s, pat, pos - m));
        let e1 = lemma_rsplit_from_leftmost(s, pat, end, pos - 1, i0);
        e1
    }
}

/// The pieces after the first match of the forward split and before the
/// last piece of the backward split are the same text, for a pattern whose
/// matches cannot overlap.
pub proof fn lemma_rsplit_split_same_second(s: Seq<char>, pat: Seq<char>)
    requires
        pat.len() > 0,
        matches_apart(s, pat),
        contains(s, pat),
    ensures
        split(s, pat).len() >= 2,
        rsplit(s, pat).len() >= 2,
        rsplit(s, pat)[rsplit(s, pat).len() - 2] == split(s, pat)[1],
{
    let m = pat.len() as int;
    let i0 = lemma_next_match(s, pat, 0);
    if i0 == s.len() {
        let i = choose|i: int| occurs_at(s, pat, i);
        assert(!occurs_at(s, pat, i));
    }
    assert forall|k: int| k < i0 implies !occurs_at(s, pat, k) by {}
    let e1 = lemma_rsplit_from_leftmost(s, pat, s.len() as int, s.len() as int, i0);
    lemma_split_from_step(s, pat, 0, 0, i0);
    let rest = split_from(s, pat, i0 + m, i0 + m);
    lemma_split_from_nonempty(s, pat, i0 + m, i0 + m);
    assert(split(s, pat) == seq![s.subrange(0, i0)] + rest);
    assert(split(s, pat)[1] == rest[0]);
    let e2 = lemma_next_match(s, pat, i0 + m);
    if e2 == s.len() && forall|j: int| i0 + m <= j ==> !occurs_at(s, pat, j) {
        lemma_split_from_no_match(s, pat, i0 + m, i0 + m);
        if e1 != s.len() {
            assert(occurs_at(s, pat, e1));
            assert(false);
        }
    } else {
        lemma_split_from_first_match(s, pat, i0 + m, i0 + m, e2);
        if e1 == s.len() {
            assert(e2 + m <= s.len());
            assert(false);
        } else if e1 < e2 {
            assert(!occurs_at(s, pat, e1));
        } else if e2 < e1 {
            assert(!occurs_at(s, pat, e2));
        }
    }
}

/// `pat` occurs in `s` at `k` and nowhere before.
pub open spec fn first_at(s: Seq<char>, pat: Seq<char>, k: int) -> bool {
    &&& occurs_at(s, pat, k)
    &&& forall|j: int| 0 <= j < k ==> !occurs_at(s, pat, j)
}

/// A scan of the text from `d` on is the scan of the text that starts at `d`.
pub proof fn lemma_split_from_shift(s: Seq<char>, pat: Seq<char>, d: int, start: int, pos: int)
    requires
        pat.len() > 0,
        0 <= d <= start <= pos <= s.len(),
    ensures
        split_from(s, pat, start, pos) == split_from(s.skip(d), pat, start - d, pos - d),
    decreases s.len() - pos,
{
    let t = s.skip(d);
    let m = pat.len() as int;
    if pos + m > s.len() {
        assert(s.subrange(start, s.len() as int) =~= t.subrange(start - d, t.len() as int));
    } else {
        assert(s.subrange(pos, pos + m) =~= t.subrange(pos - d, pos - d + m));
        if s.subrange(pos, pos + m) == pat {
            lemma_split_from_shift(s, pat, d, pos + m, pos + m);
            assert(s.subrange(start, pos) =~= t.subrange(start - d, pos - d));
        } else {
            lemma_split_from_shift(s, pat, d, start, pos + 1);
        }
    }
}

/// Law: where the first match of `pat` in `s` is at `k`, the split of `s` is
/// the text before `k` followed by the split of the text after that match.
pub proof fn lemma_split_at_first(s: Seq<char>, pat: Seq<char>, k: int)
    requires
        pat.len() > 0,
        first_at(s, pat, k),
    ensures
        split(s, pat) == seq![s.take(k)] + split(s.skip(k + pat.len()), pat),
{
    lemma_split_from_step(s, pat, 0, 0, k);
    lemma_split_from_shift(s, pat, k + pat.len(), k + pat.len(), k + pat.len());
    assert(s.subrange(0, k) =~= s.take(k));
}

/// Law: a text where `pat` does not occur is its own single piece.
pub proof fn lemma_split_absent(s: Seq<char>, pat: Seq<char>)
    requires
        pat.len() > 0,
        !contains(s, pat),
    ensures
        split(s, pat) == seq![s],
{
    assert forall|k: int| 0 <= k implies !occurs_at(s, pat, k) by {}
    lemma_split_from_no_match(s, pat, 0, 0);
    assert(s.subrange(0, s.len() as int) =~= s);
}

/// The first piece of a split where `pat` does not start before `b` is the
/// text up to some point at or after `b`.
pub proof fn lemma_split_first_piece(s: Seq<char>, pat: Seq<char>, b: int) -> (g: int)
    requires
        pat.len() > 0,
        0 <= b <= s.len(),
        forall|k: int| 0 <= k < b ==> !occurs_at(s, pat, k),
    ensures
        b <= g <= s.len(),
        split(s, pat)[0] == s.take(g),
{
    let g = lemma_next_match(s, pat, b);
    if occurs_at(s, pat, g) && forall|j: int| b <= j < g ==> !occurs_at(s, pat, j) {
        lemma_split_from_first_match(s, pat, 0, 0, g);
    } else {
        assert forall|k: int| 0 <= k implies !occurs_at(s, pat, k) by {}
        lemma_split_from_no_match(s, pat, 0, 0);
    }
    assert(s.subrange(0, g) =~= s.take(g));
    g
}

/// A first match stays first in a prefix that holds it.
pub proof fn lemma_first_at_prefix(s: Seq<char>, pat: Seq<char>, k: int, n: int)
    requires
        first_at(s, pat, k),
        k + pat.len() <= n <= s.len(),
    ensures
        first_at(s.take(n), pat, k),
{
    let t = s.take(n);
    assert(t.subrange(k, k + pat.len()) =~= s.subrange(k, k + pat.len()));
    assert forall|j: int| 0 <= j < k implies !occurs_at(t, pat, j) by {
        if occurs_at(t, pat, j) {
            assert(t.subrange(j, j + pat.len()) =~= s.subrange(j, j + pat.len()));
            assert(occurs_at(s, pat, j));
        }
    }
}

/// The separator occurs in `part + sep` only at the end of `part`: it does
/// not start inside the part, even running into the separator after it.
pub open spec fn cut_only_at_end(part: Seq<char>, sep: Seq<char>) -> bool {
    first_at(part + sep, sep, part.len() as int)
}

/// Law: splitting the join of parts gives the parts back, where the separator
/// starts nowhere inside a part but after its end.
pub proof fn lemma_split_join(parts: Seq<Seq<char>>, sep: Seq<char>)
    requires
        sep.len() > 0,
        parts.len() >= 1,
        forall|i: int| 0 <= i < parts.len() - 1 ==> cut_only_at_end(#[trigger] parts[i], sep),
        !contains(parts.last(), sep),
    ensures
        split(join(parts, sep), sep) == parts,
    decreases parts.len(),
{
    if parts.len() == 1 {
        lemma_split_absent(parts[0], sep);
        assert(parts =~= seq![parts[0]]);
    } else {
        let p0 = parts[0];
        let rest = parts.drop_first();
        assert(parts =~= seq![p0] + rest);
        lemma_join_prepend(p0, rest, sep);
        let s = join(parts, sep);
        let m = sep.len() as int;
        assert(cut_only_at_end(parts[0], sep));
        let ps = p0 + sep;
        assert(s =~= ps + join(rest, sep));
        assert(s.subrange(p0.len() as int, p0.len() + m) =~= ps.subrange(p0.len() as int, p0.len() + m));
        assert forall|j: int| 0 <= j < p0.len() implies !occurs_at(s, sep, j) by {
            if occurs_at(s, sep, j) {
                assert(s.subrange(j, j + m) =~= ps.subrange(j, j + m));
                assert(occurs_at(ps, sep, j));
            }
        }
        lemma_split_at_first(s, sep, p0.len() as int);
        assert(s.take(p0.len() as int) =~= p0);
        assert(s.skip(p0.len() + m) =~= join(rest, sep));
        assert forall|i: int| 0 <= i < rest.len() - 1 implies cut_only_at_end(#[trigger] rest[i], sep) by {
            assert(rest[i] == parts[i + 1]);
        }
        lemma_split_join(rest, sep);
    }
}

/// A backward scan that meets its first match ending at `j` starts with the
/// text from `j` to `end`.
pub proof fn lemma_rsplit_from_first_back(s: Seq<char>, pat: Seq<char>, end: int, pos: int, j: int)
    requires
        pat.len() > 0,
        pat.len() <= j <= pos <= end <= s.len(),
        occurs_at(s, pat, j - pat.len()),
        forall|q: int| j - pat.len() < q <= pos - pat.len() ==> !occurs_at(s, pat, q),
    ensures
        rsplit_from(s, pat, end, pos)[0] == s.subrange(j, end),
    decreases pos,
{
    if pos > j {
        assert(!occurs_at(s, pat, pos - pat.len()));
        lemma_rsplit_from_first_back(s, pat, end, pos - 1, j);
    } else {
        let rest = rsplit_from(s, pat, j - pat.len(), j - pat.len());
        assert(rsplit_from(s, pat, end, pos) == seq![s.subrange(j, end)] + rest);
        assert((seq![s.subrange(j, end)] + rest)[0] == s.subrange(j, end));
    }
}

/// Law: the first piece of a backward split at a character is the text after
/// its last occurrence.
pub proof fn lemma_rsplit_char_last(a: Seq<char>, t: Seq<char>, c: char)
    requires
        !t.contains(c),
    ensures
        rsplit(a + seq![c] + t, seq![c])[0] == t,
{
    let s = a + seq![c] + t;
    let j: int = a.len() + 1int;
    assert(s.subrange(j - 1, j) =~= seq![c]);
    assert forall|q: int| j - 1 < q <= s.len() - 1 implies !occurs_at(s, seq![c], q) by {
        if occurs_at(s, seq![c], q) {
            assert(s.subrange(q, q + 1)[0] == c);
            assert(t[q - j] == c);
        }
    }
    lemma_rsplit_from_first_back(s, seq![c], s.len() as int, s.len() as int, j);
    assert(s.subrange(j, s.len() as int) =~= t);
}

/// Law: a text where the pattern does not occur is left as it is by `replace`.
pub proof fn lemma_replace_absent(s: Seq<char>, from: Seq<char>, to: Seq<char>)
    requires
        from.len() > 0,
        !contains(s, from),
    ensures
        replace(s, from, to) == s,
{
    lemma_split_absent(s, from);
    assert(join(seq![s], to) == s);
}

/// A first match stays first when text is appended after it.
pub proof fn lemma_first_at_extend(a: Seq<char>, b: Seq<char>, pat: Seq<char>, k: int)
    requires
        first_at(a, pat, k),
    ensures
        first_at(a + b, pat, k),
{
    let s = a + b;
    assert(s.subrange(k, k + pat.len()) =~= a.subrange(k, k + pat.len()));
    assert forall|j: int| 0 <= j < k implies !occurs_at(s, pat, j) by {
        if occurs_at(s, pat, j) {
            assert(s.subrange(j, j + pat.len()) =~= a.subrange(j, j + pat.len()));
            assert(occurs_at(a, pat, j));
        }
    }
}

/// A text without the character does not hold it as a one-character pattern.
pub proof fn lemma_char_free_absent(t: Seq<char>, c: char)
    requires
        !t.contains(c),
    ensures
        !contains(t, seq![c]),
{
    assert forall|j: int| !occurs_at(t, seq![c], j) by {
        if occurs_at(t, seq![c], j) {
            assert(t.subrange(j, j + 1)[0] == c);
            assert(t[j] == c);
        }
    }
}

/// A text without the character is cut by it only at its end.
pub proof fn lemma_char_free_cut(x: Seq<char>, c: char)
    requires
        !x.contains(c),
    ensures
        cut_only_at_end(x, seq![c]),
{
    let s = x + seq![c];
    assert(s.subrange(x.len() as int, x.len() + 1int) =~= seq![c]);
    assert forall|j: int| 0 <= j < x.len() implies !occurs_at(s, seq![c], j) by {
        if occurs_at(s, seq![c], j) {
            assert(s.subrange(j, j + 1)[0] == c);
            assert(x[j] == c);
        }
    }
}

/// A pattern that occurs in a text occurs in any text that ends with it.
pub proof fn lemma_contains_suffix(a: Seq<char>, b: Seq<char>, pat: Seq<char>)
    requires
        contains(b, pat),
    ensures
        contains(a + b, pat),
{
    let j = choose|j: int| occurs_at(b, pat, j);
    assert((a + b).subrange(a.len() + j, a.len() + j + pat.len()) =~= b.subrange(j, j + pat.len()));
    assert(occurs_at(a + b, pat, a.len() + j));
}

/// Appends one character to a string.
/// Calls `String::push`, which appends the given `char` to the end of the string.
#[verifier::external_body]
fn push_char(s: &mut String, c: char)
    ensures
        final(s)@ == old(s)@.push(c),
{
    s.push(c);
}

/// The characters of `s`, in order.
pub fn chars_of(s: &str) -> (v: Vec<char>)
    ensures
        v@ == s@,
{
    broadcast use vstd::string::group_string_axioms;

    let mut v: Vec<char> = Vec::new();
    for c in it: s.chars()
        invariant
            it.seq() == s@,
            v@ == it.seq().take(it.index()),
    {
        v.push(c);
    }
    assert(v@ =~= s@);
    v
}

/// A string holding the characters of `v`.
pub fn string_of(v: &Vec<char>) -> (s: String)
    ensures
        s@ == v@,
{
    let mut s = String::new();
    let n = v.len();
    for i in 0..n
        invariant
            n == v@.len(),
            s@ == v@.take(i as int),
    {
        push_char(&mut s, v[i]);
        assert(v@.take((i + 1) as int) =~= v@.take(i as int).push(v@[i as int]));
    }
    assert(v@.take(n as int) =~= v@);
    s
}

/// The characters of `s` from `from` (included) to `to` (excluded).
pub fn slice(s: &Vec<char>, from: usize, to: usize) -> (r: Vec<char>)
    requires
        from <= to <= s@.len(),
    ensures
        r@ == s@.subrange(from as int, to as int),
{
    let mut r: Vec<char> = Vec::new();
    let mut i = from;
    while i < to
        invariant
            from <= i <= to <= s@.len(),
            r@ == s@.subrange(from as int, i as int),
        decreases to - i,
    {
        r.push(s[i]);
        i = i + 1;
        assert(r@ =~= s@.subrange(from as int, i as int));
    }
    r
}

/// Whether `pat` occurs in `s` at index `pos`.
pub fn occurs_at_exec(s: &Vec<char>, pat: &Vec<char>, pos: usize) -> (b: bool)
    requires
        pos + pat@.len() <= s@.len(),
    ensures
        b == (s@.subrange(pos as int, pos + pat@.len()) == pat@),
{
    let m = pat.len();
    let n = s.len();
    let mut j: usize = 0;
    while j < m
        invariant
            m == pat@.len(),
            n == s@.len(),
            pos + m <= s@.len(),
            j <= m,
            forall|k: int| 0 <= k < j ==> s@[pos + k] == pat@[k],
        decreases m - j,
    {
        if s[pos + j] != pat[j] {
            assert(s@.subrange(pos as int, pos + m)[j as int] != pat@[j as int]);
            return false;
        }
        j = j + 1;
    }
    assert(s@.subrange(pos as int, pos + m) =~= pat@);
    true
}

/// Whether `pat` occurs anywhere in `s`.
pub fn contains_exec(s: &Vec<char>, pat: &Vec<char>) -> (b: bool)
    ensures
        b == contains(s@, pat@),
{
    let n = s.len();
    let m = pat.len();
    if m > n {
        assert(!contains(s@, pat@));
        return false;
    }
    if m == 0 {
        assert(s@.subrange(0, 0) =~= pat@);
        assert(occurs_at(s@, pat@, 0));
        return true;
    }
    let mut pos: usize = 0;
    while pos <= n - m
        invariant
            n == s@.len(),
            m == pat@.len(),
            0 < m <= n,
            forall|i: int| 0 <= i < pos ==> !occurs_at(s@, pat@, i),
        decreases n - m + 1 - pos,
    {
        if occurs_at_exec(s, pat, pos) {
            assert(occurs_at(s@, pat@, pos as int));
            return true;
        }
        pos = pos + 1;
    }
    assert forall|i: int| !occurs_at(s@, pat@, i) by {
        if 0 <= i && i + m <= n {
            assert(i < pos);
        }
    }
    false
}

/// Whether two character vectors hold the same characters.
pub fn same_chars(a: &Vec<char>, b: &Vec<char>) -> (r: bool)
    ensures
        r == (a@ == b@),
{
    if a.len() != b.len() {
        return false;
    }
    let n = a.len();
    for i in 0..n
        invariant
            n == a@.len(),
            n == b@.len(),
            forall|j: int| 0 <= j < i ==> a@[j] == b@[j],
    {
        if a[i] != b[i] {
            return false;
        }
    }
    assert(a@ =~= b@);
    true
}

/// The pieces of `s` between the matches of `pat`, first to last.
pub fn split_exec(s: &Vec<char>, pat: &Vec<char>) -> (parts: Vec<Vec<char>>)
    requires
        pat@.len() > 0,
    ensures
        views(parts@) == split(s@, pat@),
        parts@.len() >= 1,
{
    let n = s.len();
    let m = pat.len();
    let mut parts: Vec<Vec<char>> = Vec::new();
    let mut start: usize = 0;
    let mut pos: usize = 0;
    while m <= n && pos <= n - m
        invariant
            n == s@.len(),
            m == pat@.len(),
            m > 0,
            start <= pos <= n,
            views(parts@) + split_from(s@, pat@, start as int, pos as int) == split(s@, pat@),
        decreases n - pos,
    {
        let ghost before = views(parts@);
        if occurs_at_exec(s, pat, pos) {
            let piece = slice(s, start, pos);
            parts.push(piece);
            assert(views(parts@) =~= before.push(s@.subrange(start as int, pos as int)));
            pos = pos + m;
            start = pos;
        } else {
            pos = pos + 1;
        }
    }
    let ghost before = views(parts@);
    let last = slice(s, start, n);
    parts.push(last);
    assert(views(parts@) =~= before.push(s@.subrange(start as int, n as int)));
    parts
}

/// The pieces of `s` between the matches of `pat`, last to first.
pub fn rsplit_exec(s: &Vec<char>, pat: &Vec<char>) -> (parts: Vec<Vec<char>>)
    requires
        pat@.len() > 0,
    ensures
        views(parts@) == rsplit(s@, pat@),
        parts@.len() >= 1,
{
    let n = s.len();
    let m = pat.len();
    let mut parts: Vec<Vec<char>> = Vec::new();
    let mut end: usize = n;
    let mut pos: usize = n;
    while pos >= m
        invariant
            n == s@.len(),
            m == pat@.len(),
            m > 0,
            pos <= end <= n,
            views(parts@) + rsplit_from(s@, pat@, end as int, pos as int) == rsplit(s@, pat@),
        decreases pos,
    {
        let ghost before = views(parts@);
        if occurs_at_exec(s, pat, pos - m) {
            let piece = slice(s, pos, end);
            parts.push(piece);
            assert(views(parts@) =~= before.push(s@.subrange(pos as int, end as int)));
            pos = pos - m;
            end = pos;
        } else {
            pos = pos - 1;
        }
    }
    let ghost before = views(parts@);
    let last = slice(s, 0, end);
    parts.push(last);
    assert(views(parts@) =~= before.push(s@.subrange(0, end as int)));
    parts
}

/// The pieces concatenated with `sep` between each two of them.
pub fn join_exec(parts: &Vec<Vec<char>>, sep: &Vec<char>) -> (r: Vec<char>)
    ensures
        r@ == join(views(parts@), sep@),
{
    let mut r: Vec<char> = Vec::new();
    let k = parts.len();
    for i in 0..k
        invariant
            k == parts@.len(),
            r@ == join(views(parts@).take(i as int), sep@),
    {
        let ghost taken = views(parts@).take((i + 1) as int);
        assert(taken.drop_last() =~= views(parts@).take(i as int));
        if i > 0 {
            let mut j: usize = 0;
            let ghost r0 = r@;
            while j < sep.len()
                invariant
                    r@ == r0 + sep@.take(j as int),
                    j <= sep@.len(),
                decreases sep@.len() - j,
            {
                r.push(sep[j]);
                j = j + 1;
                assert(r@ =~= r0 + sep@.take(j as int));
            }
            assert(sep@.take(j as int) =~= sep@);
        }
        let piece = &parts[i];
        let ghost r1 = r@;
        let mut j: usize = 0;
        while j < piece.len()
            invariant
                r@ == r1 + piece@.take(j as int),
                j <= piece@.len(),
            decreases piece@.len() - j,
        {
            r.push(piece[j]);
            j = j + 1;
            assert(r@ =~= r1 + piece@.take(j as int));
        }
        assert(piece@.take(j as int) =~= piece@);
        assert(r@ =~= join(taken, sep@));
    }
    assert(views(parts@).take(k as int) =~= views(parts@));
    r
}

/// `s` with every match of `from` replaced by `to`.
pub fn replace_exec(s: &Vec<char>, from: &Vec<char>, to: &Vec<char>) -> (r: Vec<char>)
    requires
        from@.len() > 0,
    ensures
        r@ == replace(s@, from@, to@),
{
    let parts = split_exec(s, from);
    join_exec(&parts, to)
}

/// The texts of `s`, each once, in the order of their first occurrence.
pub open spec fn dedup(s: Seq<Seq<char>>) -> Seq<Seq<char>>
    decreases s.len(),
{
    if s.len() == 0 {
        seq![]
    } else if s.drop_last().contains(s.last()) {
        dedup(s.drop_last())
    } else {
        dedup(s.drop_last()).push(s.last())
    }
}

/// A sequence holds `x` exactly when its part before the last element holds
/// it or its last element is `x`.
pub proof fn lemma_contains_drop_last<A>(s: Seq<A>, x: A)
    requires
        s.len() > 0,
    ensures
        s.contains(x) <==> (s.drop_last().contains(x) || s.last() == x),
{
    if s.contains(x) {
        let i = choose|i: int| 0 <= i < s.len() && s[i] == x;
        if i < s.len() - 1 {
            assert(s.drop_last()[i] == x);
        }
    }
    if s.drop_last().contains(x) {
        let i = choose|i: int| 0 <= i < s.drop_last().len() && s.drop_last()[i] == x;
        assert(s[i] == x);
    }
    if s.last() == x {
        assert(s[s.len() - 1] == x);
    }
}

/// Law: `dedup` keeps every text of the sequence and no other, each once.
pub proof fn lemma_dedup(s: Seq<Seq<char>>)
    ensures
        forall|x: Seq<char>| dedup(s).contains(x) <==> s.contains(x),
        forall|i: int, j: int|
            0 <= i < dedup(s).len() && 0 <= j < dedup(s).len() && i != j ==> dedup(s)[i]
                != dedup(s)[j],
    decreases s.len(),
{
    if s.len() > 0 {
        lemma_dedup(s.drop_last());
        let d = dedup(s.drop_last());
        assert forall|x: Seq<char>| dedup(s).contains(x) <==> s.contains(x) by {
            lemma_contains_drop_last(s, x);
            if !s.drop_last().contains(s.last()) {
                lemma_contains_drop_last(d.push(s.last()), x);
                assert(d.push(s.last()).drop_last() =~= d);
            }
        }
        if !s.drop_last().contains(s.last()) {
            let e = d.push(s.last());
            assert forall|i: int, j: int|
                0 <= i < e.len() && 0 <= j < e.len() && i != j implies e[i] != e[j] by {
                if i == d.len() && j < d.len() {
                    assert(d[j] == e[j]);
                    assert(d.contains(e[j]));
                } else if j == d.len() && i < d.len() {
                    assert(d[i] == e[i]);
                    assert(d.contains(e[i]));
                } else if i < d.len() && j < d.len() {
                    assert(d[i] == e[i] && d[j] == e[j]);
                }
            }
        }
    }
}

/// Whether `v[0..k]` holds a string that reads as `x`.
pub fn holds_before(v: &Vec<String>, k: usize, x: &String) -> (b: bool)
    requires
        k <= v@.len(),
    ensures
        b == string_views(v@).take(k as int).contains(x@),
{
    let ghost sv = string_views(v@).take(k as int);
    for i in 0..k
        invariant
            k <= v@.len(),
            sv == string_views(v@).take(k as int),
            forall|j: int| 0 <= j < i ==> sv[j] != x@,
    {
        if v[i] == *x {
            assert(sv[i as int] == x@);
            return true;
        }
    }
    false
}

/// The strings of `v`, each once, in the order of their first occurrence.
pub fn distinct(v: &Vec<String>) -> (r: Vec<String>)
    ensures
        string_views(r@) == dedup(string_views(v@)),
{
    let ghost sv = string_views(v@);
    let mut r: Vec<String> = Vec::new();
    let n = v.len();
    assert(sv.take(0) =~= Seq::<Seq<char>>::empty());
    for i in 0..n
        invariant
            n == v@.len(),
            sv == string_views(v@),
            string_views(r@) == dedup(sv.take(i as int)),
    {
        let ghost t = sv.take((i + 1) as int);
        assert(t.drop_last() =~= sv.take(i as int));
        assert(t.last() == v@[i as int]@);
        if !holds_before(v, i, &v[i]) {
            let s = v[i].clone();
            let ghost before = string_views(r@);
            r.push(s);
            assert(string_views(r@) =~= before.push(s@));
        }
    }
    assert(sv.take(n as int) =~= sv);
    r
}

/// The strings holding the given character vectors.
pub fn strings_of(v: &Vec<Vec<char>>) -> (r: Vec<String>)
    ensures
        string_views(r@) == views(v@),
{
    let mut r: Vec<String> = Vec::new();
    let k = v.len();
    for i in 0..k
        invariant
            k == v@.len(),
            string_views(r@) == views(v@).take(i as int),
    {
        let s = string_of(&v[i]);
        let ghost before = string_views(r@);
        r.push(s);
        assert(string_views(r@) =~= before.push(s@));
        assert(views(v@).take((i + 1) as int) =~= views(v@).take(i as int).push(v@[i as int]@));
    }
    assert(views(v@).take(k as int) =~= views(v@));
    r
}

} // verus!
