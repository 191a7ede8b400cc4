//! CRC32 preimage toolkit: forward table construction, table-driven CRC32
//! computation, and backward search over a reverse (byte-bucket) table for
//! short byte strings that land on a target checksum.

pub mod alphabet;
pub mod brute;
pub mod crc;
pub mod parse;
pub mod reverse;
pub mod search;

pub use crc::CRC32;
pub use reverse::CRC32Reverse;
