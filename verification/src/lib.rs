//! Length-prefixed message framing over a byte stream.
//!
//! A frame is a 2-byte little-endian length followed by exactly that many
//! payload bytes. The `framing` module builds and decodes frames and proves
//! that the two directions are inverse to each other; the `pubkey` module
//! holds the display options for public keys that accompany the protocol.

pub mod framing;
pub mod pubkey;
