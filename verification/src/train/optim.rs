//! The groups of parameters of the optimizer.
use vstd::prelude::*;

use crate::binary64::Real;
use crate::text::{begins_with, chars_of, equals, starts_with, string_views};

verus! {

/// The groups of parameters, each with a learning rate and a decay of its own.
#[derive(Debug, Clone, Copy, PartialEq, Eq, Structural)]
pub enum Group {
    Embedding,
    Unembedding,
    Matrix,
}

/// The learning rates of the groups.
#[derive(Debug, Clone, Copy, PartialEq, Eq, Structural)]
pub struct GroupLrs {
    pub embedding: Real,
    pub unembedding: Real,
    pub matrix: Real,
}

/// The weight decays of the groups.
#[derive(Debug, Clone, Copy, PartialEq, Eq, Structural)]
pub struct GroupWeightDecay {
    pub embedding: Real,
    pub unembedding: Real,
    pub matrix: Real,
}

impl Default for GroupWeightDecay {
    /// The decays of pretraining: 0.001, 0.01 and 0.1.
    fn default() -> (d: GroupWeightDecay)
        ensures
            d.embedding.bits == 0x3f50_624d_d2f1_a9fcu64,
            d.unembedding.bits == 0x3f84_7ae1_47ae_147bu64,
            d.matrix.bits == 0x3fb9_9999_9999_999au64,
    {
        GroupWeightDecay {
            embedding: Real { bits: 0x3f50_624d_d2f1_a9fcu64 },
            unembedding: Real { bits: 0x3f84_7ae1_47ae_147bu64 },
            matrix: Real { bits: 0x3fb9_9999_9999_999au64 },
        }
    }
}

impl GroupWeightDecay {
    /// The decays of finetuning: as in pretraining, but none for the matrices.
    pub fn finetuning() -> (d: GroupWeightDecay)
        ensures
            d.embedding.bits == 0x3f50_624d_d2f1_a9fcu64,
            d.unembedding.bits == 0x3f84_7ae1_47ae_147bu64,
            d.matrix.bits == 0,
    {
        let mut d = GroupWeightDecay::default();
        d.matrix = Real { bits: 0 };
        d
    }
}

/// The group of a parameter, by its name.
pub open spec fn group_of(name: Seq<char>) -> Option<Group> {
    if name == "wte.weight"@ {
        Some(Group::Embedding)
    } else if name == "lm_head.weight"@ {
        Some(Group::Unembedding)
    } else if begins_with(name, "blocks."@) {
        Some(Group::Matrix)
    } else {
        None
    }
}

/// The group of a parameter, by its name; `None` for a name that is not known.
pub fn classify(name: &str) -> (r: Option<Group>)
    ensures
        r == group_of(name@),
{
    if equals(name, "wte.weight") {
        Some(Group::Embedding)
    } else if equals(name, "lm_head.weight") {
        Some(Group::Unembedding)
    } else {
        let chars = chars_of(name);
        let prefix = chars_of("blocks.");
        if starts_with(chars.as_slice(), prefix.as_slice()) {
            Some(Group::Matrix)
        } else {
            None
        }
    }
}

/// The positions below `n` of the names of one group.
pub open spec fn group_members(names: Seq<Seq<char>>, group: Group, n: int) -> Seq<usize>
    decreases n,
{
    if n <= 0 {
        Seq::empty()
    } else {
        let before = group_members(names, group, n - 1);
        if group_of(names[n - 1]) == Some(group) {
            before.push((n - 1) as usize)
        } else {
            before
        }
    }
}

/// The position of the first name at or after `from` that is not known.
pub open spec fn unknown_name(names: Seq<Seq<char>>, from: int) -> Option<int>
    decreases names.len() - from,
{
    if from >= names.len() {
        None
    } else if group_of(names[from]) is None {
        Some(from)
    } else {
        unknown_name(names, from + 1)
    }
}

/// The positions of the parameters of each group.
#[derive(Debug, Clone, PartialEq, Eq)]
pub struct Groups {
    pub embedding: Vec<usize>,
    pub unembedding: Vec<usize>,
    pub matrix: Vec<usize>,
}

/// Sorts parameters into groups. Every parameter comes into one group; a name
/// that is not known is an error.
pub fn partition(names: &Vec<String>) -> (r: Result<Groups, usize>)
    ensures
        match r {
            Ok(g) => {
                let n = names@.len() as int;
                let all = string_views(names@);
                &&& unknown_name(all, 0) is None
                &&& g.embedding@ == group_members(all, Group::Embedding, n)
                &&& g.unembedding@ == group_members(all, Group::Unembedding, n)
                &&& g.matrix@ == group_members(all, Group::Matrix, n)
                &&& g.embedding@.len() + g.unembedding@.len() + g.matrix@.len() == n
            },
            Err(i) => unknown_name(string_views(names@), 0) == Some(i as int),
        },
{
    let ghost all = string_views(names@);
    let mut g = Groups { embedding: Vec::new(), unembedding: Vec::new(), matrix: Vec::new() };
    let mut i: usize = 0;
    while i < names.len()
        invariant
            i <= names@.len(),
            all == string_views(names@),
            unknown_name(all, 0) == unknown_name(all, i as int),
            g.embedding@ == group_members(all, Group::Embedding, i as int),
            g.unembedding@ == group_members(all, Group::Unembedding, i as int),
            g.matrix@ == group_members(all, Group::Matrix, i as int),
            g.embedding@.len() + g.unembedding@.len() + g.matrix@.len() == i,
        decreases names@.len() - i,
    {
        assert(all[i as int] == names@[i as int]@);
        match classify(names[i].as_str()) {
            None => {
                return Err(i);
            },
            Some(Group::Embedding) => {
                g.embedding.push(i);
            },
            Some(Group::Unembedding) => {
                g.unembedding.push(i);
            },
            Some(Group::Matrix) => {
                g.matrix.push(i);
            },
        }
        i += 1;
    }
    Ok(g)
}

} // verus!
