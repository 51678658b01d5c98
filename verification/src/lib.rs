//! The kernel of a terminal multiplexer for coding agents: the decisions it
//! makes about keys, searches, sessions, runs and timings, stated and proved.
#![allow(unused_imports)]

pub mod text;
pub mod perf;
pub mod snapshot;
pub mod reaper;
pub mod chords;
pub mod search;
pub mod query;
pub mod results;
pub mod ranking;
pub mod keyed;
pub mod search_store;
pub mod repos;
pub mod runs;
pub mod theme;
pub mod programs;
pub mod links;
pub mod surfaces;
pub mod registry;
pub mod updates;
pub mod presets;
pub mod watch;
pub mod agent_meta;
pub mod paints;
pub mod json;
