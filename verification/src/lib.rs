//! Locates groups of byte-identical files beneath one or more directory
//! roots.  Observations of `(path, size)` pairs are accumulated in a
//! size-keyed registry; buckets with at least two members are handed out as
//! candidates, fingerprinted by the caller, and the resolver partitions the
//! candidates into duplicate groups in a canonical, deterministic order.

pub mod duplicate_finder;
pub mod fingerprint;
pub mod resolution;
pub mod order;
pub mod output;
