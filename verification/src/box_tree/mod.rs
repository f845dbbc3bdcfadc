//! A hierarchical tree of boxes over the generic index: local geometry per
//! node, world-space data derived at commit, hit testing and rectangle
//! queries.

pub mod commit;
pub mod damage;
pub mod geometry;
pub mod keys;
pub mod laws;
pub mod order;
pub mod query;
pub mod removal;
pub mod reparent;
pub mod state;
pub mod traverse;
pub mod tree;
pub mod types;
pub mod walk;

pub use damage::Damage;
pub use state::{NodeView, TreeState};
pub use tree::Tree;
pub use types::{id_is_newer, Dirty, Hit, LocalNode, NodeFlags, NodeId, QueryFilter, WorldNode};
