//! A compact, self-describing binary serialization format: a tagged-union
//! value model encoded with a variable-length integer scheme.
//!
//! The crate has two layers. The varint layer ([`varint`]) maps unsigned
//! 64-bit integers to little-endian base-128 byte groups, and signed 64-bit
//! integers through a zigzag transform on top of that. The value layer
//! ([`codec`]) encodes and decodes a recursive tagged value — integers,
//! float bit patterns, byte strings, UTF-8 text, lists and string-keyed
//! maps — each value carrying a one-byte type tag.

pub mod codec;
pub mod laws;
pub mod stream;
pub mod varint;
