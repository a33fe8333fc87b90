//! A shortest-path engine over directed graphs with non-negative integer
//! edge weights.
//!
//! A [`graph::Graph`] is built once with [`graph::Graph::new`] and
//! [`graph::Graph::add_edge`] and is immutable during queries.  Three
//! interchangeable solving strategies answer single-source and
//! point-to-point distance queries: a comparison-based priority queue
//! (classic Dijkstra), a bounded direct-bucket queue (Dial's algorithm),
//! and a hierarchical range-bucket priority queue (a radix heap).  All
//! three are verified against the same mathematical specification of
//! shortest walk weights, stated in [`paths`].

pub mod dial;
pub mod dijkstra;
pub mod facade;
pub mod graph;
pub mod paths;
pub mod radix;
