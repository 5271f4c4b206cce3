//! Verified cores of a collection of algorithm visualizers: conflict-based
//! multi-agent path finding, grid A*, wave function collapse road generation,
//! a Raft consensus simulation and a small full-text search analyzer.

pub mod astar;
pub mod election;
pub mod mapf;
pub mod raft;
pub mod replication;
pub mod search;
pub mod text;
pub mod wfc;
