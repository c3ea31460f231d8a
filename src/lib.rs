//! Base65536: a binary-to-text encoding that packs two bytes into one code
//! point, drawn from 256 blocks of 256 code points each.
//!
//! `blocks` holds the block table and its reverse index, `encoder` and
//! `decoder` the two directions, and `laws` what holds between them.

pub mod blocks;
pub mod decoder;
pub mod encoder;
pub mod laws;

pub use blocks::{block_start, index_of, PADDING_BLOCK_START};
pub use decoder::{decode, decode_buf, decode_slice, Error};
pub use encoder::{encode, encode_buf, WrapOptions};
