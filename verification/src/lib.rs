//! Incremental decoder for server-sent-event chat-completion streams: an
//! unbounded byte stream is split on line-feed boundaries, each line is
//! classified (blank, `data:`-prefixed, or other), and the payload of each
//! prefixed line is parsed into a structured chunk; lines that carry no
//! well-formed chunk are skipped without disturbing the rest of the stream.

pub mod chunk;
pub mod decoder;
pub mod laws;

pub use chunk::{ChatChunk, Choice, Delta, FinishReason};
pub use decoder::{decode_all, decode_line, ChunkDecoder, PullResult};
