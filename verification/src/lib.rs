//! A self-describing binary wire codec and a perfect-hash-function generator.
//!
//! The wire format prefixes every value with a one-byte tag (a 2-bit kind and
//! 6 bits of inline data), so a reader can traverse any stream without a
//! schema, skipping fields it does not know. Multi-byte integers go through
//! one of two width policies: fixed-width (little- or big-endian) or a
//! LEB128-like continuation varint, with a zigzag mapping for signed values.
//! The perfect-hash generator builds a two-level compress-hash-displace table
//! over a set of byte-string keys, for constant-time lookup.

pub mod continuation;
pub mod de;
pub mod en;
pub mod error;
pub mod format;
pub mod generator;
pub mod hashing;
pub mod integer;
pub mod reader;
pub mod tag;
pub mod writer;
pub mod zigzag;
