//! Fine-tuning tasks: conversations, their mixture, and packing.
pub mod custom_json;
pub mod dataset;
pub mod decoded;
pub mod download;
pub mod fingerprint;
pub mod gsm8k;
pub mod mixture;
pub mod mmlu;
pub mod pack;
pub mod packed;
pub mod smoltalk;

pub use dataset::Split;
