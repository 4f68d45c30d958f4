//! Support tree configuration enumerations.
use vstd::prelude::*;

verus! {

/// How neighbouring pillars are interconnected.
#[derive(Clone, Copy, Debug, PartialEq, Eq, Structural)]
pub enum PillarConnectionMode {
    Zigzag,
    Cross,
    Dynamic,
}

/// Which mesh of a support structure is meant.
#[derive(Clone, Copy, Debug, PartialEq, Eq, Structural)]
pub enum MeshType {
    Support,
    Pad,
}

} // verus!
