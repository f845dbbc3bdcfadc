//! Spatial indexing for user-interface scenes, verified with Verus.
//!
//! - [`index`]: a generic 2D index of axis-aligned boxes. Boxes are held
//!   under generational keys; insertions, updates and removals are staged
//!   and take effect on commit, which brings a pluggable spatial backend up
//!   to date and reports the boxes added, removed and moved. The backends
//!   are a flat vector, a uniform grid, an R-tree and a bounding-volume
//!   hierarchy; the last two split their nodes by a surface-area
//!   heuristic.
//! - [`box_tree`]: a tree of regions over that index. Each node has local
//!   bounds, a local transform, an optional clip, a z-index and flags.
//!   World-space data is derived on commit, which also reports damage.
//!   Hit testing ranks candidates by z-index, then by depth, then by the
//!   age of their identifiers.
//! - [`virtual_list`]: extent models over a strip of items and the
//!   computation of the visible range.
//!
//! # How the contracts are stated
//!
//! Each data structure has a mathematical model: the index is viewed as an
//! [`index::IndexState`], the tree as a [`box_tree::TreeState`], a backend
//! as the map from slots to the boxes it holds. Operations are specified
//! as functions or relations on these models, and the laws that relate
//! several operations are proof functions over them.
//!
//! # Coordinates
//!
//! The index is generic in its scalar and is instantiated here at `i64`.
//! The tree takes its geometry from `kurbo`, whose values it carries
//! without looking into them; it indexes each world-space coordinate under
//! an integer key that orders as the coordinate does. What `kurbo`
//! computes is not verified: each of its operations has a named result,
//! and the tree's contracts say which of them are applied to what. What
//! its source shows of rectangles in a few lines, their union, their
//! intersection and the corners that a bounding box holds, is stated over
//! the keys, for coordinates that are numbers.
//!
//! # Clips
//!
//! A node's clip in world space is the intersection of its own clip, if it
//! has one, with the clip inherited from its parent, if there is one. There
//! is no way to opt out of an inherited clip.

pub mod box_tree;
pub mod index;
pub mod virtual_list;
