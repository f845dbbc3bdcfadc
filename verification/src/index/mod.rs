//! A generic index of 2D axis-aligned bounding boxes.
//!
//! Boxes are inserted, updated and removed under generational keys.
//! Changes are staged and take effect on commit, which synchronises the
//! spatial backend and reports coarse damage.

pub mod backend;
pub mod backends;
pub mod damage;
pub mod index;
pub mod laws;
pub mod scalar_i64;
pub mod state;
pub mod types;
pub mod util;

pub use backend::Backend;
pub use damage::Damage;
pub use index::{Index, IndexGeneric};
pub use scalar_i64::ScalarAcc;
pub use state::{Entry, IndexState, Key, Mark};
pub use types::{equatable, max_t, min_t, ordered, Aabb2D, Scalar};
