//! The synonym sites, their addresses, and the reading of their answers.
use vstd::prelude::*;

use crate::messages::ResultBuilderMessage;
use crate::providers::{merriam_webster, thesaurus, thesaurus2};
use crate::text::{dedup, distinct, string_views};

verus! {

/// A site that lists synonyms.
#[derive(Debug, Clone, Copy, PartialEq, Eq, Structural)]
pub enum Provider {
    Thesaurus,
    Thesaurus2,
    MerriamWebster,
}

/// The address to which a site appends the word to look up.
pub open spec fn spec_base_url(provider: Provider) -> Seq<char> {
    match provider {
        Provider::Thesaurus => "https://thesaurus.yourdictionary.com/"@,
        Provider::MerriamWebster => "https://www.merriam-webster.com/thesaurus/"@,
        Provider::Thesaurus2 => "https://www.thesaurus.com/browse/"@,
    }
}

/// The synonyms that a site's answer lists, as its reader reads them, or
/// `None` where the answer is not of the form the reader expects.
pub open spec fn spec_synonyms_in(provider: Provider, raw: Seq<char>) -> Option<Seq<Seq<char>>> {
    match provider {
        Provider::Thesaurus => thesaurus::spec_raw_response_to_synonyms(raw),
        Provider::MerriamWebster => merriam_webster::spec_raw_response_to_synonyms(raw),
        Provider::Thesaurus2 => thesaurus2::spec_raw_response_to_synonyms(raw),
    }
}

impl Provider {
    /// The address to which the site appends the word to look up.
    pub fn base_url(&self) -> (url: &'static str)
        ensures
            url@ == spec_base_url(*self),
    {
        match self {
            Provider::Thesaurus => "https://thesaurus.yourdictionary.com/",
            Provider::MerriamWebster => "https://www.merriam-webster.com/thesaurus/",
            Provider::Thesaurus2 => "https://www.thesaurus.com/browse/",
        }
    }
}

/// The address that asks a site for the synonyms of `word`.
pub fn query_url(word: &str, base_url: &str) -> (url: String)
    ensures
        url@ == base_url@ + word@,
{
    let mut url = String::from_str(base_url);
    url.append(word);
    url
}

/// Whether a site's answer has the form that its reader expects.
pub fn is_well_formed(provider: &Provider, raw_response: &str) -> (b: bool)
    ensures
        b == (spec_synonyms_in(*provider, raw_response@) is Some),
{
    match provider {
        Provider::Thesaurus => thesaurus::is_well_formed(raw_response),
        Provider::MerriamWebster => merriam_webster::is_well_formed(raw_response),
        Provider::Thesaurus2 => thesaurus2::is_well_formed(raw_response),
    }
}

/// The synonyms that a site's answer lists, read by that site's reader.
pub fn parse_response(provider: &Provider, raw_response: String) -> (r: Result<Vec<String>, String>)
    requires
        spec_synonyms_in(*provider, raw_response@) is Some,
    ensures
        r matches Ok(v) && Some(string_views(v@)) == spec_synonyms_in(*provider, raw_response@),
{
    match provider {
        Provider::Thesaurus => thesaurus::raw_response_to_synonyms(raw_response),
        Provider::MerriamWebster => merriam_webster::raw_response_to_synonyms(raw_response),
        Provider::Thesaurus2 => thesaurus2::raw_response_to_synonyms(raw_response),
    }
}

/// One `NewSynonym` message for each synonym found for `word`, in order.
pub fn synonym_messages(word: &str, synonyms: Vec<String>) -> (msgs: Vec<ResultBuilderMessage>)
    ensures
        msgs@.len() == synonyms@.len(),
        forall|i: int|
            0 <= i < msgs@.len() ==> match #[trigger] msgs@[i] {
                ResultBuilderMessage::NewSynonym { word: w, synonym: s } => w@ == word@ && s
                    == synonyms@[i],
                ResultBuilderMessage::NoMoreSynonyms => false,
            },
{
    let mut msgs: Vec<ResultBuilderMessage> = Vec::new();
    let mut rest = synonyms;
    let ghost all = rest@;
    let mut i: usize = 0;
    let n = rest.len();
    while i < n
        invariant
            n == all.len(),
            i <= n,
            rest@ == all,
            msgs@.len() == i,
            forall|j: int|
                0 <= j < i ==> match #[trigger] msgs@[j] {
                    ResultBuilderMessage::NewSynonym { word: w, synonym: s } => w@ == word@ && s
                        == all[j],
                    ResultBuilderMessage::NoMoreSynonyms => false,
                },
        decreases n - i,
    {
        let synonym = rest[i].clone();
        msgs.push(ResultBuilderMessage::NewSynonym { word: String::from_str(word), synonym });
        i = i + 1;
    }
    msgs
}

/// The messages that a site's answer for `word` gives to the thread that
/// consolidates the results: one `NewSynonym` for each synonym it lists, once
/// however many times the answer repeats it, in the order of first listing.
pub fn messages_for_answer(word: &str, provider: &Provider, raw_response: String) -> (msgs: Vec<
    ResultBuilderMessage,
>)
    requires
        spec_synonyms_in(*provider, raw_response@) is Some,
    ensures
        msgs@.len() == dedup(spec_synonyms_in(*provider, raw_response@)->0).len(),
        forall|i: int|
            0 <= i < msgs@.len() ==> match #[trigger] msgs@[i] {
                ResultBuilderMessage::NewSynonym { word: w, synonym: s } => w@ == word@ && s@
                    == dedup(spec_synonyms_in(*provider, raw_response@)->0)[i],
                ResultBuilderMessage::NoMoreSynonyms => false,
            },
{
    let ghost expected = dedup(spec_synonyms_in(*provider, raw_response@)->0);
    match parse_response(provider, raw_response) {
        Ok(synonyms) => {
            let once = distinct(&synonyms);
            let ghost sv = once@;
            let msgs = synonym_messages(word, once);
            assert forall|i: int| 0 <= i < msgs@.len() implies match #[trigger] msgs@[i] {
                ResultBuilderMessage::NewSynonym { word: w, synonym: s } => w@ == word@ && s@
                    == expected[i],
                ResultBuilderMessage::NoMoreSynonyms => false,
            } by {
                assert(string_views(sv)[i] == sv[i]@);
            }
            msgs
        },
        Err(_) => Vec::new(),
    }
}

} // verus!
