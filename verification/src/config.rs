//! The choices that the command line makes.
use vstd::prelude::*;

use crate::text::{chars_of, same_chars};

verus! {

/// The way the search runs.
#[derive(Debug, Clone, Copy, PartialEq, Eq, Structural)]
pub enum RunMode {
    /// With actors that exchange messages.
    Actors,
    /// With threads, channels, a semaphore and condition variables.
    WithoutActors,
}

/// The way of running that the option names, if it names one.
pub open spec fn spec_run_mode(option: Seq<char>) -> Option<RunMode> {
    if option == "actors"@ {
        Some(RunMode::Actors)
    } else if option == "without_actors"@ {
        Some(RunMode::WithoutActors)
    } else {
        None
    }
}

/// The way of running that the option names: `actors` or `without_actors`.
pub fn run_mode(option: &str) -> (mode: Option<RunMode>)
    ensures
        mode == spec_run_mode(option@),
{
    let o = chars_of(option);
    if same_chars(&o, &chars_of("actors")) {
        Some(RunMode::Actors)
    } else if same_chars(&o, &chars_of("without_actors")) {
        Some(RunMode::WithoutActors)
    } else {
        None
    }
}

/// The least wait between two requests to one site, in milliseconds, for the
/// number of seconds given on the command line.
pub fn min_wait_millis(min_seconds_between_requests: u64) -> (millis: u64)
    requires
        min_seconds_between_requests * 1000 <= u64::MAX,
    ensures
        millis == min_seconds_between_requests * 1000,
{
    min_seconds_between_requests * 1000
}

} // verus!
