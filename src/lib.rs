//! Integer and text core of a point-cloud software rasterizer: the vertex
//! grammar of the mesh format, the lane-aligned partition of a batch
//! transform across workers, the completion barrier and the worker-pool
//! teardown protocol, and the depth-ordered raster write into a pixel buffer.
use vstd::prelude::*;

pub mod batch;
pub mod obj;
pub mod pool;
pub mod raster;

verus! {

} // verus!
