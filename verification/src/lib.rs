//! Shortest-route computation between geographic points on the surface of a
//! celestial body.
//!
//! The navigable topology is a caller-supplied list of point-to-point
//! connections. The library turns that list into an indexed, undirected,
//! weighted adjacency graph ([`vertex::VertexBuffer`]), locates the graph
//! node nearest to an arbitrary query point, and runs a shortest-path search
//! with path reconstruction ([`dijkstra::find_shortest_path`]).
//!
//! Coordinates are carried as the raw bit patterns of double-precision
//! latitude/longitude values; node identity is bit-exact coordinate equality.
//! Edge costs are supplied by the caller as plain unsigned integers in any
//! fixed linear unit (the geodesic distance formula itself is evaluated by
//! the caller, outside this library).

pub mod components;
pub mod data;
pub mod dijkstra;
pub mod errors;
pub mod vertex;
