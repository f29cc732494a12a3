//! Analysis of the dependency graph of installed packages.
//!
//! The graph is built once per query from plain package records: each record
//! names the package, its version, whether it was installed explicitly, and
//! the packages that require it or optionally use it.  Two queries run over
//! the graph, either whole or restricted to required edges: finding the
//! orphans (packages that no explicitly installed package transitively
//! depends on) and finding the dependents of one package.

pub mod args;
pub mod dependencies;
pub mod graph;
pub mod print;
mod storage;
