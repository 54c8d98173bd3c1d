//! A BitTorrent core.
//!
//! - `token`: the bencode tokenizer, with the offset of every token.
//! - `value`, `stack`, `decoder`: decoded values, the stack that nests
//!   them, and decoders of a whole buffer or of chunks as they arrive.
//! - `encode`: the bencode text of a value, and what decoding does to it.
//! - `torrent`, `digest`: the metainfo reader, which keeps the exact bytes
//!   of the `info` dictionary for its SHA-1 digest.
//! - `session`, `worker`, `announce`: the decisions of a session and of a
//!   per-torrent worker, and the reading of a tracker's answer.
//! - `text`: decimal text of numbers.

pub mod text;
pub mod value;
pub mod token;
pub mod stack;
pub mod decoder;
pub mod encode;
pub mod digest;
pub mod torrent;
pub mod worker;
pub mod session;
pub mod announce;
