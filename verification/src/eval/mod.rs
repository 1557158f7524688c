//! Sampling from a model, and scoring it.
pub mod choice;
pub mod loss;
pub mod sample;
pub mod tokenizer;
