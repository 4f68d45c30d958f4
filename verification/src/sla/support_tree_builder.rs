//! Elements of a support tree.
use vstd::prelude::*;

verus! {

/// The id of a node that is not part of a tree yet.
pub const ID_UNSET: i64 = -1;

/// A node of a support tree (head, junction, pillar, pedestal, bridge)
/// identified by its id within the tree.
pub trait SupportTreeNode {
    /// The node's id, `ID_UNSET` before it joins a tree.
    fn id(&self) -> i64;

    fn set_id(&mut self, id: i64);
}

} // verus!
