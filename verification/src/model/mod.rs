//! The shape of the model, and the bookkeeping around its attention.
pub mod config;
pub mod flash_attention;
pub mod kv_cache;
pub mod launch;
pub mod loss;
