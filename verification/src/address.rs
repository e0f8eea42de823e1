use vstd::prelude::*;

verus! {

/// The stable public identity of a node within one tree snapshot: the
/// resolution level it lives on and its slot on that level's layer.
/// Scale indices decrease from the root (coarsest) toward the leaves.
#[derive(Clone, Copy, PartialEq, Eq, Structural, Debug, Hash)]
pub struct NodeAddress {
    pub scale_index: i32,
    pub slot_index: usize,
}

} // verus!
