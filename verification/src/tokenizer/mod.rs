//! Byte-pair tokenizer and chat rendering.
pub mod bpe;
pub mod chat;
pub mod encoding;
pub mod greedy;
pub mod lossy;
pub mod merge;
pub mod rendered;
pub mod shared;
pub mod stream;
