//! A depth-bounded crawl engine: a registry of visited addresses with
//! claim-once semantics, a set of discovered links, a coordinator that decides
//! what to fetch next, and an assembler that turns the settled records into a
//! directed graph.
pub mod crawl;
pub mod discovery;
pub mod graph;
pub mod registry;
