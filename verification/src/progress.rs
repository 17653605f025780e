//! When the search is over: every site has answered for every word.
use vstd::prelude::*;

verus! {

/// The count that the coordinator of the search keeps.
pub struct SearchProgress {
    /// The words read from the input so far.
    pub num_words: usize,
    /// The answers that the sites have given so far.
    pub num_processed_words: usize,
    /// The sites asked for each word.
    pub num_providers: usize,
}

/// Whether the answer that brings the count to `processed` ends a search of
/// `words` words on `providers` sites.
pub open spec fn ends_search(words: nat, providers: nat, processed: nat) -> bool {
    words * providers == processed
}

/// How many of the answers numbered 1 to `n` end a search of `words` words on
/// `providers` sites.
pub open spec fn end_signals(words: nat, providers: nat, n: nat) -> nat
    decreases n,
{
    if n == 0 {
        0
    } else {
        end_signals(words, providers, (n - 1) as nat) + if ends_search(words, providers, n) {
            1nat
        } else {
            0nat
        }
    }
}

/// How many times the end of the search is signalled: once checked right
/// after the input is read (no answer yet), then at the answers numbered 1
/// to `n`.
pub open spec fn end_signals_from_start(words: nat, providers: nat, n: nat) -> nat {
    (if ends_search(words, providers, 0) {
        1nat
    } else {
        0nat
    }) + end_signals(words, providers, n)
}

/// Over the answers numbered 1 to `n`, the end is signalled once if the
/// expected number of answers is between 1 and `n`, and never otherwise.
proof fn lemma_end_signals(words: nat, providers: nat, n: nat)
    ensures
        end_signals(words, providers, n) == if 1 <= words * providers <= n {
            1nat
        } else {
            0nat
        },
    decreases n,
{
    if n > 0 {
        lemma_end_signals(words, providers, (n - 1) as nat);
    }
}

/// Law: counting the check made once the input is read, the end of the search
/// is signalled exactly once as soon as the expected number of answers, words
/// times sites, has come (at once when there is no word), and never before.
pub proof fn lemma_end_signalled_once(words: nat, providers: nat, n: nat)
    ensures
        end_signals_from_start(words, providers, n) == if words * providers <= n {
            1nat
        } else {
            0nat
        },
{
    lemma_end_signals(words, providers, n);
}

impl SearchProgress {
    /// No words, no answers, no sites.
    pub fn new() -> (p: Self)
        ensures
            p.num_words == 0,
            p.num_processed_words == 0,
            p.num_providers == 0,
    {
        SearchProgress { num_words: 0, num_processed_words: 0, num_providers: 0 }
    }

    /// Sets the number of sites asked for each word.
    pub fn set_providers(&mut self, num_providers: usize)
        ensures
            final(self).num_providers == num_providers,
            final(self).num_words == old(self).num_words,
            final(self).num_processed_words == old(self).num_processed_words,
    {
        self.num_providers = num_providers;
    }

    /// Counts one more word read from the input.
    pub fn add_word(&mut self)
        requires
            old(self).num_words < usize::MAX,
        ensures
            final(self).num_words == old(self).num_words + 1,
            final(self).num_providers == old(self).num_providers,
            final(self).num_processed_words == old(self).num_processed_words,
    {
        self.num_words = self.num_words + 1;
    }

    /// Whether all the sites have answered for all the words; checked once
    /// the input is read, so that a search without words ends at once.
    pub fn all_answered(&self) -> (done: bool)
        requires
            self.num_words * self.num_providers <= usize::MAX,
        ensures
            done == ends_search(
                self.num_words as nat,
                self.num_providers as nat,
                self.num_processed_words as nat,
            ),
    {
        self.num_words * self.num_providers == self.num_processed_words
    }

    /// Counts one more answer of a site, and tells whether it ends the search:
    /// whether all the sites have now answered for all the words.
    pub fn provider_finished(&mut self) -> (finished: bool)
        requires
            old(self).num_processed_words < usize::MAX,
            old(self).num_words * old(self).num_providers <= usize::MAX,
        ensures
            final(self).num_processed_words == old(self).num_processed_words + 1,
            final(self).num_words == old(self).num_words,
            final(self).num_providers == old(self).num_providers,
            finished == ends_search(
                old(self).num_words as nat,
                old(self).num_providers as nat,
                final(self).num_processed_words as nat,
            ),
    {
        self.num_processed_words = self.num_processed_words + 1;
        self.num_words * self.num_providers == self.num_processed_words
    }
}

} // verus!
