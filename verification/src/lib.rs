//! Exposes the operational status of a blockchain validator node, reachable
//! only through an interactive line-oriented console, as machine-readable
//! metrics. This library is the verified core: the text normalizer that
//! strips terminal escape sequences, the record parsers that extract a
//! validator-status record and a pool listing from an unbounded, markerless
//! line stream, and the pure mapping from records to metric label sets.
//! Process spawning, stream I/O and the HTTP surface live outside.

pub mod constants;
pub mod num;
pub mod prometheus;
pub mod ton;
pub mod utils;
