//! Backend implementations for different spatial strategies.
//!
//! - `flatvec`: flat vector with linear scans (small, simple).
//! - `grid`: uniform grid with configurable cell size.
//! - `rtree`: R-tree with wide nodes.
//! - `bvh`: binary bounding-volume hierarchy.
//!
//! The R-tree and the BVH split overfull nodes by a surface-area
//! heuristic. For a cut `k` along an axis sorted by centre they minimise
//!
//! `cost(k) = area(LB_k) * k + area(RB_k) * (n - k)`
//!
//! where `LB_k` and `RB_k` are the bounding boxes of the first `k` and the
//! remaining `n - k` items. Every `k` is costed in one pass per axis over
//! prefix and suffix bounding boxes, in the scalar's accumulator type.

pub mod bulk;
pub mod bvh;
pub mod cells;
pub mod flatvec;
pub mod grid;
pub mod hierarchy;
pub mod rtree;
pub mod sah;

pub use bvh::{Bvh, BvhI64};
pub use flatvec::FlatVec;
pub use grid::{Grid, GridI64, GridScalar};
pub use rtree::{RTree, RTreeI64};
