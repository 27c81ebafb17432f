//! Threat-aware shortest-path navigation on a bounded grid.
//!
//! The library computes an ordered route from an origin cell toward a target
//! cell with a Dijkstra-style relaxation over the full grid.  Two navigation
//! modes are supported: a pursuer that chases directly, and an evader whose
//! route avoids threat cells and is penalized for passing near them.

pub mod arith;
pub mod dijkstra;
pub mod model;
