//! Batches of token rows.
use vstd::prelude::*;

verus! {

/// The inputs and the targets of a batch, row after row.
#[derive(Debug, Clone, PartialEq, Eq)]
pub struct FlatBatch {
    pub inputs: Vec<u32>,
    pub targets: Vec<i64>,
}

} // verus!
