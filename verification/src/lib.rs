//! Two associative tables built over a shared hashing capability.
//!
//! The heart of the crate is [`raw`], an open-addressing table in the
//! SwissTable style: one control byte per slot accelerates probing, groups of
//! sixteen control bytes are matched at a time, and removals leave tombstones
//! that a later rehash reclaims.  [`chained`] is a much simpler table with one
//! linked chain per bucket, kept for contrast.  Both consume the key
//! capability of [`key`]: a deterministic 64-bit digest plus an equality test.

pub mod chained;
pub mod key;
pub mod raw;
