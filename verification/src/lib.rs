//! Core of a level-of-detail terrain streaming system.
//!
//! A terrain is divided into square nodes arranged in a quadtree: coarse
//! nodes cover wide areas far from the viewer, fine nodes cover the ground
//! nearby. Each frame the quadtree is traversed to decide which nodes are
//! required, the difference against the previous frame drives load and
//! activation requests, and a fixed-capacity atlas of GPU slots admits
//! loaded nodes while evicted ones are kept in an inactive cache for
//! reuse. Asynchronous asset completions are routed back to the waiting
//! nodes through a handle mapping.

pub mod node_atlas;
pub mod nodes;
pub mod quadtree;
pub mod systems;
pub mod table;
