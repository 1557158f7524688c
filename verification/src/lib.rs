//! Verified core of a small GPT training and chat stack.
pub mod binary64;
pub mod chat;
pub mod checkpoint;
pub mod cli;
pub mod data;
pub mod eval;
pub mod flash_attn;
pub mod kept;
pub mod metrics;
pub mod model;
pub mod order;
pub mod rounding;
pub mod seqs;
pub mod settings;
pub mod sft;
pub mod shuffle;
pub mod spelling;
pub mod tasks;
pub mod text;
pub mod tokenizer;
pub mod train;
