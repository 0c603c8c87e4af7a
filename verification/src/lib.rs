//! Building and optimising the graph of course segments that a composition of change ringing is a
//! path through.
//!
//! A [`Layout`](layout::Layout) says which rows there are and how segments of them can be joined.
//! The segments become the nodes of a [`Graph`](graph::Graph), which is made smaller by passes
//! before it is searched for compositions.

// Values
pub mod primitives;
pub mod text;
pub mod music;
// Collections
pub mod select;
pub mod hashing;
pub mod keyed;
pub mod frontier;
// Layouts
pub mod layout;
// Graphs
pub mod node_range;
pub mod graph;
pub mod size;
pub mod optimise;
// From layouts to graphs
pub mod expansion;
pub mod falseness;
pub mod predecessors;
pub mod assemble;
pub mod finite;
pub mod soundness;
// Searching
pub mod query;
