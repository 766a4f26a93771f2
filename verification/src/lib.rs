//! Token-usage analysis over recorded coding-agent sessions.
//!
//! Every function here is a pure derivation from plain records. Whatever
//! touches the file system, floating-point prices or JSON documents of the
//! ledger lives in the application around this library.

pub mod attempts;
pub mod claude_md;
pub mod compaction;
pub mod compare;
pub mod context_delta;
pub mod cost;
pub mod edits;
pub mod fidelity;
pub mod findings;
pub mod flow_graph;
pub mod ghost_files;
pub mod ghost_report;
pub mod ghost_surface;
pub mod ghost_surface_inputs;
pub mod groups;
pub mod hotspots;
pub mod laws;
pub mod md_cost;
pub mod names;
pub mod order;
pub mod outside;
pub mod overhead;
pub mod patterns;
pub mod provider;
pub mod records;
pub mod rollups;
pub mod sessions;
pub mod shell;
pub mod skills;
pub mod slices;
pub mod span_tree;
pub mod streaks;
pub mod text;
pub mod time;
pub mod tokens;
pub mod waste;
