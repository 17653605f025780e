//! Synonym search: the parsing of the answers of three synonym sites, the
//! consolidation of their results and the decisions of the concurrent search.
pub mod text;
pub mod providers;
pub mod messages;
pub mod pairs;
pub mod tally;
pub mod progress;
pub mod config;
pub mod logger;
pub mod throttle;
