//! Similarity indexes over fixed-width binary vectors, searched by Hamming
//! distance: an exact flat index and an approximate multi-hash index, each
//! keeping a label per stored vector, with snapshots that restore an index
//! giving the same answers.
pub mod error;
pub mod flat;
pub mod hamming;
pub mod multihash;
pub mod ranking;
pub mod result;
pub mod store;
