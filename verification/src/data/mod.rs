//! Training data: shards, download plans, and the packing of documents into
//! batches.
pub mod batch;
pub mod download;
pub mod loader;
pub mod parquet;
pub mod rows;
