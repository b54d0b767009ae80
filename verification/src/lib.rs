//! Shortest paths on a fixed-size 2D grid with walls, computed by
//! breadth-first search.
//!
//! A [`bfs::BFS`] value owns a deterministically generated wall layout for a
//! `width x height` grid: the whole border is walled, plus two partial
//! interior columns that force a detour. Its `path` operation answers
//! point-to-point shortest-path queries over the open cells, returning the
//! full route from start to goal or reporting that none exists.

pub mod bfs;
pub mod grid;
pub mod point;
