//! Transcoding between arbitrary-precision integer magnitudes — sequences of
//! 64-bit words, least-significant word first — and flat little-endian or
//! big-endian byte buffers: word-count introspection, byte extraction with
//! minimal significant-length reporting, and byte-to-word reconstruction.

pub mod codec;
pub mod laws;
pub mod model;
