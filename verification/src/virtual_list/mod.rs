//! Core 1D virtualization primitives: extent models over a dense strip of
//! items, the visible-range computation, and a small scroll controller.

pub mod fixed;
pub mod grid_track;
pub mod model;
pub mod prefix_sum;
pub mod scalar;
pub mod virtual_list;

pub use fixed::FixedExtentModel;
pub use grid_track::GridTrackModel;
pub use model::{compute_visible_strip, ExtentModel, ResizableExtentModel, VisibleStrip};
pub use prefix_sum::PrefixSumExtentModel;
pub use scalar::Scalar;
pub use virtual_list::{ScrollAlign, VirtualList};
