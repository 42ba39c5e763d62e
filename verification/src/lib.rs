//! Workspace-frontier analysis over a package dependency graph.
//!
//! Given an immutable dependency graph, a target package selected by an
//! identifier substring, and a list of skip substrings, this library computes
//! the closure of all packages that transitively depend on the target
//! (pruning edges whose destination matches a skip substring) and reports
//! every edge in that closure that crosses the boundary between
//! workspace-local and external packages, grouped by the name of the package
//! that introduces the crossing.

pub mod closure;
pub mod graph;
pub mod laws;
pub mod report;
pub mod resolve;
pub mod text;
