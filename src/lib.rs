//! Adaptive level-of-detail octree over an implicit surface: the spatial
//! index and its subdivision policy, the scheduler of the background meshing
//! worker, and the face-culling core of the isosurface extractor.

pub mod isosurface;
pub mod octree;
pub mod space;
pub mod turns;
pub mod worker;
