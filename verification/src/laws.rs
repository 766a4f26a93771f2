//! What holds of the library as a whole, said of what goes in and what comes
//! out.

pub mod compaction;
pub mod compare;
pub mod context_delta;
pub mod cost;
pub mod edits;
pub mod fidelity;
pub mod flow_edges;
pub mod flow_graph;
pub mod ghosts;
pub mod hotspots;
pub mod md;
pub mod order;
pub mod overhead;
pub mod provider;
pub mod reports;
pub mod rollups;
pub mod runs;
pub mod sessions;
pub mod shell;
pub mod sizing;
pub mod skills;
pub mod spans;
pub mod streaks;
pub mod summaries;
pub mod text;
pub mod time;
pub mod waste;
