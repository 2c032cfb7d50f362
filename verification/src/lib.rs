//! Enumeration of every simple path between two points of a net.
//!
//! A net is a collection of nodes; a node is a point together with the points
//! that can be reached from it in one step. Points are told apart by their
//! identifiers alone.
//!
//! - `point`: the `Point` trait and what it means for two points to be the
//!   same vertex.
//! - `path`: walks through a net, grown one point at a time.
//! - `node`: a point with its connected points.
//! - `net`: the net and its search, `Net::find_paths`.
//! - `routes`: the mathematical definition of what the search yields.
//! - `laws`: the paths found are exactly the simple paths of the net.

pub mod laws;
pub mod net;
pub mod node;
pub mod path;
pub mod point;
pub mod routes;
