//! Deterministic, chunked procedural dungeon generation, and the spatial
//! queries (tile lookup, region queries, pathfinding) built on top of it.
//!
//! The world is an unbounded grid of tiles split into square chunks. A chunk
//! is generated on first touch from the world's seed and its coordinate
//! alone: rooms are placed by rejection sampling, joined by tunnels along a
//! minimum spanning tree of the Delaunay triangulation of their centers,
//! stitched to the chunk's border, gated with barriers in their doorways
//! and furnished with features.

pub mod coord;
pub mod random;
pub mod geometry;
pub mod map;
pub mod chunk;
pub mod rooms;
pub mod carving;
pub mod barriers;
pub mod features;
pub mod generation;
pub mod triangulation;
mod outside;
