pub mod scalar;
pub mod types;
pub mod algebra;
pub mod sorting;
pub mod random;
pub mod threads;
pub mod parallelization;
pub mod io;
pub mod bounding;
pub mod geometry;
pub mod camera;
pub mod material;
pub mod hierarchy;
pub mod traversal;
pub mod construction;
