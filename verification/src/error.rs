//! Error kinds of the residency engine.

use vstd::prelude::*;

verus! {

/// What can go wrong while mutating the brickmaps.
///
/// `Exhausted` means a free list ran out; the caller skips the operation and
/// retries on a later frame. `InvariantViolation` means the operation was
/// asked of a node in the wrong state (dividing an internal node, culling a
/// leaf, and the like); the caller skips it. `OutOfBounds` means a position
/// lay outside the octree's address space.
#[derive(Clone, Copy, PartialEq, Eq, Structural, Debug)]
pub enum VoxelError {
    Exhausted,
    InvariantViolation,
    OutOfBounds,
}

} // verus!
