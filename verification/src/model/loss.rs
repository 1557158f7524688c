//! How the losses of single positions are brought together.
use vstd::prelude::*;

verus! {

/// How the losses of single positions are brought together.
#[derive(Debug, Clone, Copy, PartialEq, Eq, Structural)]
pub enum Reduction {
    /// Their average over the positions that are not ignored.
    Mean,
    /// Not at all; an ignored position has no loss.
    PerPosition,
}

impl Reduction {
    /// The shape of the result for `batch` rows of `time` positions: a single
    /// number, or one for each position.
    pub fn shape(self, batch: usize, time: usize) -> (dims: Vec<usize>)
        ensures
            dims@ == match self {
                Reduction::Mean => Seq::empty(),
                Reduction::PerPosition => seq![batch, time],
            },
    {
        match self {
            Reduction::Mean => Vec::new(),
            Reduction::PerPosition => vec![batch, time],
        }
    }
}

} // verus!
