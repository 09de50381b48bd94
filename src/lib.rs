//! Procedural generation of an unbounded, chunk-partitioned world of islands.
//!
//! Heights are fixed-point integers and world positions are counted in halves
//! of a world unit, so that every computation of the generator is exact.
pub mod geometry;
pub mod grid;
pub mod island;
pub mod random;
pub mod terrain;
pub mod world;
pub mod types;
