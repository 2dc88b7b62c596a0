//! Decoding and clustering of Timepix3 time-of-flight detector data.
//!
//! The raw detector stream is a sequence of 8-byte little-endian packets.
//! All times in this crate are exact integer counts of the detector's fine
//! clock unit, 25/4096 ns, so the decoder and the clustering pipeline work
//! on plain integers with bit-exact contracts.

pub mod dbscan;
pub mod timepix;
pub mod utility;
