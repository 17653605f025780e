//! The consolidated result of a search: for each word, each synonym found for
//! it once, with the number of sites that listed it.
use vstd::prelude::*;

use crate::messages::ResultBuilderMessage;
use crate::pairs::{
    find_key, keys_distinct, lemma_pairs_dom, lemma_pairs_index, lemma_pairs_push,
    lemma_pairs_update, pairs_to_map,
};
use crate::text::{dedup, holds_before, lemma_contains_drop_last, string_views};

verus! {

/// How many times `s` was listed for `w` in the consolidated result `m`.
pub open spec fn spec_count(m: Map<Seq<char>, Map<Seq<char>, nat>>, w: Seq<char>, s: Seq<char>) -> nat {
    if m.contains_key(w) && m[w].contains_key(s) {
        m[w][s]
    } else {
        0
    }
}

/// `m` with an entry for `w`, empty if it had none.
pub open spec fn with_word(m: Map<Seq<char>, Map<Seq<char>, nat>>, w: Seq<char>) -> Map<
    Seq<char>,
    Map<Seq<char>, nat>,
> {
    if m.contains_key(w) {
        m
    } else {
        m.insert(w, Map::empty())
    }
}

/// `m` after one more listing of `s` for `w`.
pub open spec fn add_one(m: Map<Seq<char>, Map<Seq<char>, nat>>, w: Seq<char>, s: Seq<char>) -> Map<
    Seq<char>,
    Map<Seq<char>, nat>,
> {
    m.insert(w, with_word(m, w)[w].insert(s, spec_count(m, w, s) + 1))
}

/// `m` after a site listed `syns` for `w`: the entry for `w` exists, and each
/// synonym that the list holds is counted once more, however many times the
/// list repeats it: the count of a synonym is the number of sites' lists that
/// hold it.
pub open spec fn add_all(
    m: Map<Seq<char>, Map<Seq<char>, nat>>,
    w: Seq<char>,
    syns: Seq<Seq<char>>,
) -> Map<Seq<char>, Map<Seq<char>, nat>>
    decreases syns.len(),
{
    if syns.len() == 0 {
        with_word(m, w)
    } else if syns.drop_last().contains(syns.last()) {
        add_all(m, w, syns.drop_last())
    } else {
        add_one(add_all(m, w, syns.drop_last()), w, syns.last())
    }
}

/// `m` after one listing of each element of `syns` for `w`, one after another.
pub open spec fn add_each(
    m: Map<Seq<char>, Map<Seq<char>, nat>>,
    w: Seq<char>,
    syns: Seq<Seq<char>>,
) -> Map<Seq<char>, Map<Seq<char>, nat>>
    decreases syns.len(),
{
    if syns.len() == 0 {
        m
    } else {
        add_one(add_each(m, w, syns.drop_last()), w, syns.last())
    }
}

/// How many times `s` occurs in `syns`.
pub open spec fn occurrences(syns: Seq<Seq<char>>, s: Seq<char>) -> nat
    decreases syns.len(),
{
    if syns.len() == 0 {
        0
    } else {
        occurrences(syns.drop_last(), s) + if syns.last() == s {
            1nat
        } else {
            0nat
        }
    }
}

/// The synonyms of one word with their counts, as (synonym, count) pairs.
pub open spec fn count_pairs(v: Seq<(String, usize)>) -> Seq<(Seq<char>, nat)> {
    v.map_values(|p: (String, usize)| (p.0@, p.1 as nat))
}

/// The map from synonym to count that a list of (synonym, count) pairs holds.
pub open spec fn counts_view(v: Seq<(String, usize)>) -> Map<Seq<char>, nat> {
    pairs_to_map(count_pairs(v))
}

/// The (word, counts) pairs that a list of entries holds.
pub open spec fn entry_pairs(v: Seq<(String, Vec<(String, usize)>)>) -> Seq<
    (Seq<char>, Map<Seq<char>, nat>),
> {
    v.map_values(|e: (String, Vec<(String, usize)>)| (e.0@, counts_view(e.1@)))
}

/// The consolidated result that a list of entries holds.
pub open spec fn entries_view(v: Seq<(String, Vec<(String, usize)>)>) -> Map<
    Seq<char>,
    Map<Seq<char>, nat>,
> {
    pairs_to_map(entry_pairs(v))
}

/// No word occurs twice, and no synonym occurs twice for one word.
pub open spec fn entries_wf(v: Seq<(String, Vec<(String, usize)>)>) -> bool {
    &&& keys_distinct(entry_pairs(v))
    &&& forall|i: int| 0 <= i < v.len() ==> keys_distinct(count_pairs(#[trigger] v[i].1@))
}

/// The consolidated result of a search.
pub struct SynonymTally {
    entries: Vec<(String, Vec<(String, usize)>)>,
}

impl View for SynonymTally {
    type V = Map<Seq<char>, Map<Seq<char>, nat>>;

    closed spec fn view(&self) -> Self::V {
        entries_view(self.entries@)
    }
}

/// One more listing of `s` for `w` adds one to that count and to no other.
proof fn lemma_add_one_counts(m: Map<Seq<char>, Map<Seq<char>, nat>>, w: Seq<char>, s: Seq<char>)
    ensures
        add_one(m, w, s).contains_key(w),
        forall|t: Seq<char>|
            #[trigger] spec_count(add_one(m, w, s), w, t) == spec_count(m, w, t) + if t == s {
                1nat
            } else {
                0nat
            },
        forall|v: Seq<char>|
            v != w ==> (#[trigger] add_one(m, w, s).contains_key(v) == m.contains_key(v)),
        forall|v: Seq<char>| v != w && m.contains_key(v) ==> #[trigger] add_one(m, w, s)[v] == m[v],
{
}

/// Law: after a site lists `syns` for `w`, the count of each synonym of `w`
/// has grown by one if the list holds it and is unchanged otherwise, `w` has
/// an entry, and the entries of the other words are unchanged.
pub proof fn lemma_add_all_counts(
    m: Map<Seq<char>, Map<Seq<char>, nat>>,
    w: Seq<char>,
    syns: Seq<Seq<char>>,
)
    ensures
        add_all(m, w, syns).contains_key(w),
        forall|t: Seq<char>|
            #[trigger] spec_count(add_all(m, w, syns), w, t) == spec_count(m, w, t) + if syns.contains(
                t,
            ) {
                1nat
            } else {
                0nat
            },
        forall|v: Seq<char>|
            v != w ==> (#[trigger] add_all(m, w, syns).contains_key(v) == m.contains_key(v)),
        forall|v: Seq<char>|
            v != w && m.contains_key(v) ==> #[trigger] add_all(m, w, syns)[v] == m[v],
    decreases syns.len(),
{
    if syns.len() > 0 {
        lemma_add_all_counts(m, w, syns.drop_last());
        lemma_add_one_counts(add_all(m, w, syns.drop_last()), w, syns.last());
        assert forall|t: Seq<char>| #[trigger] syns.contains(t) == (syns.drop_last().contains(t)
            || syns.last() == t) by {
            lemma_contains_drop_last(syns, t);
        }
    }
}

/// Law: listing each element of `syns` once more adds, to each count, the
/// number of times `syns` holds that synonym.
pub proof fn lemma_add_each_counts(
    m: Map<Seq<char>, Map<Seq<char>, nat>>,
    w: Seq<char>,
    syns: Seq<Seq<char>>,
)
    ensures
        forall|t: Seq<char>|
            #[trigger] spec_count(add_each(m, w, syns), w, t) == spec_count(m, w, t)
                + occurrences(syns, t),
        forall|v: Seq<char>|
            v != w ==> (#[trigger] add_each(m, w, syns).contains_key(v) == m.contains_key(v)),
        forall|v: Seq<char>|
            v != w && m.contains_key(v) ==> #[trigger] add_each(m, w, syns)[v] == m[v],
    decreases syns.len(),
{
    if syns.len() > 0 {
        lemma_add_each_counts(m, w, syns.drop_last());
        lemma_add_one_counts(add_each(m, w, syns.drop_last()), w, syns.last());
    }
}

/// A text occurs in the deduplicated sequence once if the sequence holds it,
/// and not at all otherwise.
proof fn lemma_occurrences_dedup(s: Seq<Seq<char>>, t: Seq<char>)
    ensures
        occurrences(dedup(s), t) == if s.contains(t) {
            1nat
        } else {
            0nat
        },
    decreases s.len(),
{
    if s.len() > 0 {
        lemma_occurrences_dedup(s.drop_last(), t);
        lemma_contains_drop_last(s, t);
        if !s.drop_last().contains(s.last()) {
            let d = dedup(s.drop_last());
            assert(d.push(s.last()).drop_last() =~= d);
        }
    }
}

/// Law: counting, one message each, the synonyms of one answer after the
/// repeats are dropped gives each synonym the count that `add_all` gives it:
/// one more if the answer lists it.
pub proof fn lemma_answer_messages_count(
    m: Map<Seq<char>, Map<Seq<char>, nat>>,
    w: Seq<char>,
    syns: Seq<Seq<char>>,
    t: Seq<char>,
)
    ensures
        spec_count(add_each(m, w, dedup(syns)), w, t) == spec_count(add_all(m, w, syns), w, t),
{
    lemma_add_each_counts(m, w, dedup(syns));
    lemma_add_all_counts(m, w, syns);
    lemma_occurrences_dedup(syns, t);
}

/// `m` after the sites gave `lists` for `w`, one list after another.
pub open spec fn add_lists(
    m: Map<Seq<char>, Map<Seq<char>, nat>>,
    w: Seq<char>,
    lists: Seq<Seq<Seq<char>>>,
) -> Map<Seq<char>, Map<Seq<char>, nat>>
    decreases lists.len(),
{
    if lists.len() == 0 {
        m
    } else {
        add_all(add_lists(m, w, lists.drop_last()), w, lists.last())
    }
}

/// How many of the lists hold `s`.
pub open spec fn lists_holding(lists: Seq<Seq<Seq<char>>>, s: Seq<char>) -> nat
    decreases lists.len(),
{
    if lists.len() == 0 {
        0
    } else {
        lists_holding(lists.drop_last(), s) + if lists.last().contains(s) {
            1nat
        } else {
            0nat
        }
    }
}

/// Law: the count of a synonym is the number of sites whose list holds it.
pub proof fn lemma_count_is_sites_listing(
    m: Map<Seq<char>, Map<Seq<char>, nat>>,
    w: Seq<char>,
    lists: Seq<Seq<Seq<char>>>,
    s: Seq<char>,
)
    ensures
        spec_count(add_lists(m, w, lists), w, s) == spec_count(m, w, s) + lists_holding(lists, s),
    decreases lists.len(),
{
    if lists.len() > 0 {
        lemma_count_is_sites_listing(m, w, lists.drop_last(), s);
        lemma_add_all_counts(add_lists(m, w, lists.drop_last()), w, lists.last());
    }
}

/// Every count in `m` is at least one.
pub open spec fn counts_positive(m: Map<Seq<char>, Map<Seq<char>, nat>>) -> bool {
    forall|v: Seq<char>, s: Seq<char>|
        m.contains_key(v) && #[trigger] m[v].contains_key(s) ==> m[v][s] >= 1
}

/// One more listing keeps every count at least one and lowers none.
proof fn lemma_add_one_keeps_counts(m: Map<Seq<char>, Map<Seq<char>, nat>>, w: Seq<char>, s: Seq<char>)
    requires
        counts_positive(m),
    ensures
        counts_positive(add_one(m, w, s)),
        forall|v: Seq<char>, t: Seq<char>|
            #[trigger] spec_count(add_one(m, w, s), v, t) >= spec_count(m, v, t),
{
    lemma_add_one_counts(m, w, s);
    assert forall|v: Seq<char>, t: Seq<char>|
        #[trigger] spec_count(add_one(m, w, s), v, t) >= spec_count(m, v, t) by {
        if v == w {
            assert(spec_count(add_one(m, w, s), w, t) >= spec_count(m, w, t));
        }
    }
}

/// Law: a site's list keeps every count at least one and lowers none.
pub proof fn lemma_add_all_keeps_counts(
    m: Map<Seq<char>, Map<Seq<char>, nat>>,
    w: Seq<char>,
    syns: Seq<Seq<char>>,
)
    requires
        counts_positive(m),
    ensures
        counts_positive(add_all(m, w, syns)),
        forall|v: Seq<char>, t: Seq<char>|
            #[trigger] spec_count(add_all(m, w, syns), v, t) >= spec_count(m, v, t),
    decreases syns.len(),
{
    if syns.len() == 0 {
        assert forall|v: Seq<char>, t: Seq<char>|
            #[trigger] spec_count(add_all(m, w, syns), v, t) >= spec_count(m, v, t) by {
            if v == w && !m.contains_key(w) {
                assert(spec_count(m, v, t) == 0);
            }
        }
    } else {
        lemma_add_all_keeps_counts(m, w, syns.drop_last());
        if !syns.drop_last().contains(syns.last()) {
            lemma_add_one_keeps_counts(add_all(m, w, syns.drop_last()), w, syns.last());
        }
        let prev = add_all(m, w, syns.drop_last());
        assert forall|v: Seq<char>, t: Seq<char>|
            #[trigger] spec_count(add_all(m, w, syns), v, t) >= spec_count(m, v, t) by {
            assert(spec_count(prev, v, t) >= spec_count(m, v, t));
        }
    }
}

/// Law: two listings, in either order, give the same result.
pub proof fn lemma_add_one_commutes(
    m: Map<Seq<char>, Map<Seq<char>, nat>>,
    w1: Seq<char>,
    s1: Seq<char>,
    w2: Seq<char>,
    s2: Seq<char>,
)
    ensures
        add_one(add_one(m, w1, s1), w2, s2) == add_one(add_one(m, w2, s2), w1, s1),
{
    let a = add_one(add_one(m, w1, s1), w2, s2);
    let b = add_one(add_one(m, w2, s2), w1, s1);
    if w1 == w2 {
        assert(a[w1] =~= b[w1]);
    } else {
        assert(a[w1] =~= b[w1]);
        assert(a[w2] =~= b[w2]);
    }
    assert(a =~= b);
}

/// Giving a word its entry and counting a listing can go in either order.
proof fn lemma_with_word_add_one(
    m: Map<Seq<char>, Map<Seq<char>, nat>>,
    w1: Seq<char>,
    w2: Seq<char>,
    s2: Seq<char>,
)
    ensures
        with_word(add_one(m, w2, s2), w1) == add_one(with_word(m, w1), w2, s2),
{
    let a = with_word(add_one(m, w2, s2), w1);
    let b = add_one(with_word(m, w1), w2, s2);
    if w1 == w2 {
        assert(a[w1] =~= b[w1]);
    } else {
        assert(a[w1] =~= b[w1]);
        assert(a[w2] =~= b[w2]);
    }
    assert(a =~= b);
}

/// A listing for one word commutes with a whole list for another.
proof fn lemma_add_one_add_all(
    m: Map<Seq<char>, Map<Seq<char>, nat>>,
    w1: Seq<char>,
    a: Seq<Seq<char>>,
    w2: Seq<char>,
    s2: Seq<char>,
)
    ensures
        add_one(add_all(m, w1, a), w2, s2) == add_all(add_one(m, w2, s2), w1, a),
    decreases a.len(),
{
    if a.len() == 0 {
        lemma_with_word_add_one(m, w1, w2, s2);
    } else {
        lemma_add_one_add_all(m, w1, a.drop_last(), w2, s2);
        lemma_add_one_commutes(add_all(m, w1, a.drop_last()), w1, a.last(), w2, s2);
    }
}

/// Giving two words their entries goes in either order.
proof fn lemma_with_word_commutes(m: Map<Seq<char>, Map<Seq<char>, nat>>, w1: Seq<char>, w2: Seq<char>)
    ensures
        with_word(with_word(m, w1), w2) == with_word(with_word(m, w2), w1),
{
    assert(with_word(with_word(m, w1), w2) =~= with_word(with_word(m, w2), w1));
}

/// Giving a word its entry commutes with a whole list for a word.
proof fn lemma_with_word_add_all(
    m: Map<Seq<char>, Map<Seq<char>, nat>>,
    w1: Seq<char>,
    a: Seq<Seq<char>>,
    w2: Seq<char>,
)
    ensures
        with_word(add_all(m, w1, a), w2) == add_all(with_word(m, w2), w1, a),
    decreases a.len(),
{
    if a.len() == 0 {
        lemma_with_word_commutes(m, w1, w2);
    } else {
        lemma_with_word_add_all(m, w1, a.drop_last(), w2);
        lemma_with_word_add_one(add_all(m, w1, a.drop_last()), w2, w1, a.last());
    }
}

/// Law: the consolidated result does not depend on the order in which the
/// sites' lists arrive: two lists, in either order, give the same result.
pub proof fn lemma_add_all_commutes(
    m: Map<Seq<char>, Map<Seq<char>, nat>>,
    w1: Seq<char>,
    a: Seq<Seq<char>>,
    w2: Seq<char>,
    b: Seq<Seq<char>>,
)
    ensures
        add_all(add_all(m, w1, a), w2, b) == add_all(add_all(m, w2, b), w1, a),
    decreases b.len(),
{
    if b.len() == 0 {
        lemma_with_word_add_all(m, w1, a, w2);
    } else {
        lemma_add_all_commutes(m, w1, a, w2, b.drop_last());
        lemma_add_one_add_all(add_all(m, w2, b.drop_last()), w1, a, w2, b.last());
    }
}

impl SynonymTally {
    #[verifier::type_invariant]
    closed spec fn inv(self) -> bool {
        entries_wf(self.entries@)
    }

    /// An empty result.
    pub fn new() -> (t: Self)
        ensures
            t@ == Map::<Seq<char>, Map<Seq<char>, nat>>::empty(),
    {
        let t = SynonymTally { entries: Vec::new() };
        assert(entry_pairs(t.entries@) =~= Seq::empty());
        t
    }

    /// How many times `synonym` was listed for `word`.
    pub fn count(&self, word: &str, synonym: &str) -> (n: usize)
        ensures
            n == spec_count(self@, word@, synonym@),
    {
        proof {
            use_type_invariant(self);
        }
        let w = String::from_str(word);
        let s = String::from_str(synonym);
        let ghost ep = entry_pairs(self.entries@);
        match find_key(&self.entries, &w) {
            Some(i) => {
                let counts = &self.entries[i].1;
                proof {
                    assert(ep[i as int] == (self.entries@[i as int].0@, counts_view(counts@)));
                    lemma_pairs_index(ep, i as int);
                }
                let ghost cp = count_pairs(counts@);
                match find_key(counts, &s) {
                    Some(j) => {
                        proof {
                            assert(cp[j as int] == (counts@[j as int].0@, counts@[j as int].1 as nat));
                            lemma_pairs_index(cp, j as int);
                        }
                        counts[j].1
                    },
                    None => {
                        proof {
                            lemma_pairs_dom(cp, synonym@);
                            assert forall|j: int| 0 <= j < cp.len() implies #[trigger] cp[j].0
                                != synonym@ by {
                                assert(cp[j].0 == counts@[j].0@);
                            }
                        }
                        0
                    },
                }
            },
            None => {
                proof {
                    lemma_pairs_dom(ep, word@);
                    assert forall|j: int| 0 <= j < ep.len() implies #[trigger] ep[j].0
                        != word@ by {
                        assert(ep[j].0 == self.entries@[j].0@);
                    }
                }
                0
            },
        }
    }

    /// Gives `word` an entry, empty if it had none.
    pub fn add_word(&mut self, word: &str)
        ensures
            final(self)@ == with_word(old(self)@, word@),
    {
        proof {
            use_type_invariant(&*self);
        }
        let w = String::from_str(word);
        let mut entries: Vec<(String, Vec<(String, usize)>)> = Vec::new();
        std::mem::swap(&mut entries, &mut self.entries);
        let ghost old_entries = entries@;
        let ghost ep = entry_pairs(entries@);
        match find_key(&entries, &w) {
            Some(i) => {
                proof {
                    assert(ep[i as int].0 == word@);
                    lemma_pairs_index(ep, i as int);
                }
            },
            None => {
                proof {
                    lemma_pairs_dom(ep, word@);
                    assert forall|j: int| 0 <= j < ep.len() implies #[trigger] ep[j].0
                        != word@ by {
                        assert(ep[j].0 == old_entries[j].0@);
                    }
                }
                let empty: Vec<(String, usize)> = Vec::new();
                proof {
                    assert(count_pairs(empty@) =~= Seq::empty());
                    assert(counts_view(empty@) =~= Map::empty());
                    lemma_pairs_push(ep, word@, Map::empty());
                }
                entries.push((w, empty));
                proof {
                    assert(entry_pairs(entries@) =~= ep.push((word@, Map::empty())));
                    assert forall|k: int| 0 <= k < entries@.len() implies keys_distinct(
                        count_pairs(#[trigger] entries@[k].1@),
                    ) by {
                        if k < old_entries.len() {
                            assert(entries@[k] == old_entries[k]);
                        }
                    }
                }
            },
        }
        self.entries = entries;
    }

    /// Counts one more listing of `synonym` for `word`.
    pub fn add_synonym(&mut self, word: &str, synonym: &str)
        requires
            spec_count(old(self)@, word@, synonym@) < usize::MAX,
        ensures
            final(self)@ == add_one(old(self)@, word@, synonym@),
    {
        proof {
            use_type_invariant(&*self);
        }
        let ghost m = self@;
        self.add_word(word);
        proof {
            use_type_invariant(&*self);
        }
        let w = String::from_str(word);
        let s = String::from_str(synonym);
        let mut entries: Vec<(String, Vec<(String, usize)>)> = Vec::new();
        std::mem::swap(&mut entries, &mut self.entries);
        let ghost old_entries = entries@;
        let ghost ep = entry_pairs(entries@);
        assert(pairs_to_map(ep) == with_word(m, word@));
        match find_key(&entries, &w) {
            Some(i) => {
                proof {
                    assert(ep[i as int] == (old_entries[i as int].0@, counts_view(
                        old_entries[i as int].1@,
                    )));
                    lemma_pairs_index(ep, i as int);
                }
                let (ew, mut counts) = entries.remove(i);
                let ghost old_counts = counts@;
                let ghost cp = count_pairs(counts@);
                assert(keys_distinct(cp)) by {
                    assert(old_entries[i as int].1@ == counts@);
                }
                match find_key(&counts, &s) {
                    Some(j) => {
                        proof {
                            assert(cp[j as int] == (counts@[j as int].0@, counts@[j as int].1 as nat));
                            lemma_pairs_index(cp, j as int);
                        }
                        let (cs, c) = counts.remove(j);
                        counts.insert(j, (cs, c + 1));
                        proof {
                            assert(counts@ =~= old_counts.update(
                                j as int,
                                (old_counts[j as int].0, (c + 1) as usize),
                            ));
                            assert(count_pairs(counts@) =~= cp.update(
                                j as int,
                                (cp[j as int].0, (c + 1) as nat),
                            ));
                            lemma_pairs_update(cp, j as int, (c + 1) as nat);
                        }
                    },
                    None => {
                        proof {
                            lemma_pairs_dom(cp, synonym@);
                            assert forall|j: int| 0 <= j < cp.len() implies #[trigger] cp[j].0
                                != synonym@ by {
                                assert(cp[j].0 == old_counts[j].0@);
                            }
                            lemma_pairs_push(cp, synonym@, 1nat);
                        }
                        counts.push((s, 1));
                        proof {
                            assert(count_pairs(counts@) =~= cp.push((synonym@, 1nat)));
                        }
                    },
                }
                let ghost new_inner = counts_view(counts@);
                assert(new_inner == with_word(m, word@)[word@].insert(
                    synonym@,
                    spec_count(m, word@, synonym@) + 1,
                ));
                entries.insert(i, (ew, counts));
                proof {
                    assert(entries@ =~= old_entries.update(i as int, (ew, counts)));
                    assert(entry_pairs(entries@) =~= ep.update(i as int, (ep[i as int].0, new_inner)));
                    lemma_pairs_update(ep, i as int, new_inner);
                    assert forall|k: int| 0 <= k < entries@.len() implies keys_distinct(
                        count_pairs(#[trigger] entries@[k].1@),
                    ) by {
                        if k != i {
                            assert(entries@[k] == old_entries[k]);
                        }
                    }
                    assert(entries_view(entries@) =~= add_one(m, word@, synonym@));
                }
                self.entries = entries;
            },
            None => {
                proof {
                    lemma_pairs_dom(ep, word@);
                    assert(false);
                }
                self.entries = entries;
            },
        }
    }

    /// Counts a list of synonyms that a site gave for `word`: each synonym
    /// that the list holds once more, however many times the list repeats it.
    pub fn add_synonyms(&mut self, word: &str, synonyms: &Vec<String>)
        requires
            forall|i: int|
                0 <= i < synonyms@.len() ==> spec_count(old(self)@, word@, (#[trigger] synonyms@[i])@)
                    < usize::MAX,
        ensures
            final(self)@ == add_all(old(self)@, word@, string_views(synonyms@)),
    {
        let ghost m = self@;
        let ghost syns = string_views(synonyms@);
        self.add_word(word);
        assert(syns.take(0) =~= Seq::<Seq<char>>::empty());
        let n = synonyms.len();
        for i in 0..n
            invariant
                n == synonyms@.len(),
                syns == string_views(synonyms@),
                forall|k: int|
                    0 <= k < synonyms@.len() ==> spec_count(m, word@, (#[trigger] synonyms@[k])@)
                        < usize::MAX,
                self@ == add_all(m, word@, syns.take(i as int)),
        {
            let ghost t = syns.take((i + 1) as int);
            assert(t.drop_last() =~= syns.take(i as int));
            assert(t.last() == synonyms@[i as int]@);
            if !holds_before(synonyms, i, &synonyms[i]) {
                proof {
                    lemma_add_all_counts(m, word@, syns.take(i as int));
                    assert(spec_count(m, word@, synonyms@[i as int]@) < usize::MAX);
                }
                self.add_synonym(word, synonyms[i].as_str());
            }
        }
        assert(syns.take(n as int) =~= syns);
    }

    /// Handles one message to the thread that consolidates the results: a new
    /// synonym is counted and the thread goes on (`false`); the end of the
    /// search changes nothing and ends the thread (`true`).
    pub fn handle_message(&mut self, msg: ResultBuilderMessage) -> (done: bool)
        requires
            msg matches ResultBuilderMessage::NewSynonym { word, synonym } ==> spec_count(
                old(self)@,
                word@,
                synonym@,
            ) < usize::MAX,
        ensures
            match msg {
                ResultBuilderMessage::NewSynonym { word, synonym } => !done && final(self)@
                    == add_one(old(self)@, word@, synonym@),
                ResultBuilderMessage::NoMoreSynonyms => done && final(self)@ == old(self)@,
            },
    {
        match msg {
            ResultBuilderMessage::NewSynonym { word, synonym } => {
                self.add_synonym(word.as_str(), synonym.as_str());
                false
            },
            ResultBuilderMessage::NoMoreSynonyms => true,
        }
    }

    /// The entries of the result: each word once, with each of its synonyms
    /// once and the number of sites that listed it.
    pub fn into_entries(self) -> (v: Vec<(String, Vec<(String, usize)>)>)
        ensures
            entries_view(v@) == self@,
            entries_wf(v@),
    {
        proof {
            use_type_invariant(&self);
        }
        self.entries
    }
}

} // verus!
