//! A region quadtree for narrowing collision checks: points with integer ids
//! are inserted into a tree over a fixed rectangle, and a query returns the
//! points of every leaf whose region meets the query area.

pub mod geometry;
pub mod quadtree;
