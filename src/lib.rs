//! Transform propagation for parent/child scene hierarchies.
//!
//! Every node carries a local transform (relative to its parent, or to the
//! world when it has none) and a derived global transform.  A pass runs three
//! phases in order: dirty marking, top-down propagation and the fast path for
//! unattached nodes.  After a pass on a hierarchy without cycles, every global
//! transform is the composition of the local transforms from its root.

mod acyclic;
mod dirty;
mod hierarchy;
mod index;
mod locality;
mod pass;
mod plugin;
mod propagate;
mod transform;
mod validate;

pub use acyclic::{lemma_chain_short, lemma_reparent_keeps_acyclic};
pub use hierarchy::{Hierarchy, HierarchyError};
pub use index::without;
pub use locality::{lemma_cycle_not_grounded, lemma_marking_is_local, lemma_reparent_flags_only_moved};
pub use plugin::{Phase, Registration, Stage, TransformPlugin, TransformSystem};
pub use transform::{Transform, compose_spec, identity_spec, translation_spec};
