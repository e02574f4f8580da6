//! Content-addressed cluster identities for record linkage.
//!
//! A build takes record keys and an ordered list of pairwise merge
//! decisions. It groups the keys into connected components with a
//! union-find structure and gives every component one SHA-256 digest that
//! fingerprints the exact sequence of merges that formed it, together with
//! the confidence of the latest of these merges.
//!
//! * [`key_index`] gives every distinct key a dense id.
//! * [`forest`] is the mathematical model of a union-find forest;
//!   [`disjoint_set`] is the structure that runs.
//! * [`digest`] holds the hash primitive, [`cluster`] the clusters and the
//!   way a combined digest is derived from the digests of the children.
//! * [`build_state`] says what a build computes and states the laws every
//!   build obeys; [`builder`] is the build that runs.
//!
//! Confidences are carried as the bit patterns of IEEE 754 binary32
//! numbers and are never interpreted.

pub mod build_state;
pub mod builder;
pub mod cluster;
pub mod digest;
pub mod disjoint_set;
pub mod error;
pub mod forest;
pub mod key_index;

pub use crate::builder::{merges_to_clusters, ClusterBuilder};
pub use crate::cluster::{Cluster, Merge};
pub use crate::digest::hash_bytes;
pub use crate::disjoint_set::DisjointSet;
pub use crate::error::ClusterError;
pub use crate::key_index::KeyIndex;
