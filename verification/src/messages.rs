//! The messages that the threads of the search exchange.
use vstd::prelude::*;

verus! {

/// A message to the thread that consolidates the results.
#[derive(Debug)]
pub enum ResultBuilderMessage {
    /// A site listed `synonym` as a synonym of `word`.
    NewSynonym { word: String, synonym: String },
    /// Every site has answered for every word.
    NoMoreSynonyms,
}

/// A message to the thread that spaces the requests to one site.
#[derive(Debug, Clone, Copy, PartialEq, Eq, Structural)]
pub enum SleeperMessage {
    /// A request to the site has just been sent.
    RequestHasStarted,
}

} // verus!
