//! Builds a sparse, weighted co-play graph from play-session records.
//!
//! The pipeline runs leaves first: player identities are merged across
//! tables ([`identity`]), session records are remapped and merged by code
//! ([`sessions`]), oversized sessions are discarded, appearances counted,
//! frequent players become vertices and co-occurrence weights are summed
//! ([`cooccurrence`], [`edges`]), each vertex keeps its heaviest edges
//! ([`sparsify`]), and the result is laid out for export ([`export`]);
//! [`pipeline`] runs these in turn.
//!
//! The decisions of the record scraper live in [`scrape`], [`registry`]
//! and [`player_table`]; [`listing`] holds the shapes of the listing answers.

pub mod cooccurrence;
pub mod edges;
pub mod export;
pub mod identity;
pub mod listing;
pub mod pipeline;
pub mod player_table;
pub mod registry;
pub mod scrape;
pub mod sessions;
pub mod sparsify;

pub use edges::{EdgeKey, EdgeWeights};
pub use identity::Player;
pub use sessions::Report;
