//! Merkle commitment trees over a fixed-width Poseidon hash, with the bulk of
//! the hashing offloaded to a parallel compute accelerator.
//!
//! The crate provides the pieces that decide and describe a tree build:
//! derivation of the buffer-layout parameters, the bijective mapping from
//! logical tree positions to physical digest-buffer offsets, the per-level
//! dispatch plan for the accelerator kernels, and the assembly of the final
//! tree value (including its truncated cap) from a digest buffer.  The
//! accelerator itself and the hash primitives are external collaborators:
//! the embedding application runs them and hands their results back, and
//! the library's contracts say exactly what is made of whatever comes back.

use vstd::prelude::*;

pub mod dispatch;
pub mod layout;
pub mod params;
pub mod tree;

verus! {

/// Smallest tree height at which a build is sent to the compute accelerator;
/// below it the sequential reference path wins on dispatch overhead.  This is
/// a tunable policy value, not a correctness invariant.
pub const ACCEL_MIN_TREE_HEIGHT: usize = 13;

/// Failure taxonomy for a tree build.  None of these is retried: a build
/// either runs to completion or surfaces its failure to the caller.
#[derive(Clone, Copy, Debug, PartialEq, Eq, Structural)]
pub enum TreeError {
    /// No compatible device was found or the kernel library failed to load.
    Initialization,
    /// The requested cap height is not below the tree height.
    Configuration,
    /// A host/device buffer allocation failed.
    ResourceExhausted,
    /// The device reported an error completing submitted work.
    DispatchFailure,
}

/// Marker type selecting the accelerator-backed Merkle hasher.
#[derive(Clone, Copy, Debug, PartialEq, Eq, Structural)]
pub struct PoseidonGoldilocksGPUMerkleHasher;

/// Marker configuration: Poseidon over the Goldilocks field, with Merkle
/// trees built by the accelerator-backed hasher.
#[derive(Clone, Copy, Debug, PartialEq, Eq, Structural)]
pub struct PoseidonGoldilocksGPUConfig;

} // verus!
