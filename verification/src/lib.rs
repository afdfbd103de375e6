//! File striping with rotating XOR parity.
//!
//! A source byte stream is cut into fixed-size chunks and laid out in stripes
//! across `N` disk images. Every stripe carries `N - 1` data chunks and one
//! parity chunk whose slot rotates with the stripe index, so the set survives
//! the loss of any single disk.
//!
//! A disk image begins with the length of the source, eight bytes in little
//! endian, and goes on with the chunk of the disk for every stripe. The last
//! stripe is padded with zeros; the length in the header says where the
//! source ends.
//!
//! Disk counts of two and more are supported; with two disks the parity disk
//! of a stripe is a copy of its only data chunk. [`split`] refuses fewer.
//!
//! The library works on bytes in memory. Reading and writing the files, whose
//! names [`naming`] gives, is left to the caller.

pub mod error;
pub mod laws;
pub mod merge;
pub mod naming;
pub mod split;
pub mod stripe;

pub use error::Error;
pub use merge::merge;
pub use split::split;
pub use stripe::{Chunk, CHUNK_SIZE, HEADER_SIZE};
