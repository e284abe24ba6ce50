//! Street-completion route planning over a city street graph.
//!
//! The library builds the street, point and adjacency tables from map
//! elements, measures paths over a table of segment lengths, scores hotspot
//! candidates, and runs a bounded branching search that extends a route.
//! Coordinates are held in units of 1e-7 degree and lengths in millimetres;
//! the geodesic measurement itself is supplied by the caller.
pub mod distance;
pub mod graph;
pub mod hotspot;
pub mod search;
pub mod session;
