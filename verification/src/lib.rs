//! Incremental planar Delaunay triangulation over exact integer coordinates,
//! with a quad-bucket spatial index and a greedy terrain-approximation driver.

pub mod arena;
pub mod arith;
pub mod bvh;
pub mod geo;
pub mod mesh;
pub mod scape;
pub mod terrain;
