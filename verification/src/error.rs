//! The ways a build can fail.

use vstd::prelude::*;

verus! {

/// Why an operation was refused. Every error is fatal to the build in
/// which it occurs.
#[derive(Clone, Copy, Debug, PartialEq, Eq, Structural)]
pub enum ClusterError {
    /// A disjoint-set operation received an id that is not below the size
    /// the set was created with.
    IndexOutOfRange,
    /// A merge named two keys that already belong to the same cluster.
    SelfMergeError,
}

} // verus!
