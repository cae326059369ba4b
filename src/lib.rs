//! Integer core of a CPU voxel ray tracer: boxes, a sparse octree and a dense
//! voxel grid, the colour and framebuffer formats, all with verified contracts.
pub mod aabb;
pub mod dense;
pub mod framebuffer;
pub mod hash;
pub mod octree;
pub mod scene;
pub mod vec3;
pub mod voxel;
pub mod walk;
