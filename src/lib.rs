//! Rebuilds the storage of one contract from the storage diffs of a range of
//! blocks: each key keeps the value written at the highest block that wrote it,
//! whatever order the blocks arrive in.
pub mod browse;
pub mod diff;
pub mod dump;
pub mod felt;
pub mod scan;
