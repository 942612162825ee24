//! A base-62 codec for byte buffers: bytes are cut into chunks of at most
//! 32 bytes and each chunk becomes a fixed-width group of base-62 digits.
pub mod alphabet;
mod bignum;
pub mod codec;
pub mod digits;
pub mod laws;
pub mod tables;

pub use alphabet::is_valid_alphabet;
pub use codec::{array_buffer_to_base62, base62_to_array_buffer, DecodeError};
pub use tables::{chunk_bytes, chunk_width, MAX_CHUNK_BYTES, MAX_CHUNK_CHARS};
