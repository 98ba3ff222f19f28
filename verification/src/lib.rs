//! Orchestrates a dependency graph of test nodes: manifests are normalized
//! into nodes, the nodes form an acyclic graph, and a workflow drives every
//! node through its status history while failure propagates to successors
//! as skips.

pub mod conversions;
pub mod dag;
pub mod decimal;
pub mod dot;
pub mod enums;
pub mod graph;
pub mod manifests;
pub mod parser;
pub mod runner;
pub mod storage;
pub mod strings;
pub mod workflow;
