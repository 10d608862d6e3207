//! Dependency graph of a source project: which files import which.
pub mod paths;
pub mod resolve;
pub mod graph;
pub mod imports;
pub mod crawler;
pub mod context;
