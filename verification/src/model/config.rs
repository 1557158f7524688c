//! The shape of the model.
use vstd::prelude::*;

use crate::binary64::Real32;
use crate::text::{decimal, push_decimal};

verus! {

/// The shape of the model.
#[derive(Debug, Clone, Copy, PartialEq, Eq, Structural)]
pub struct GptConfig {
    pub vocab_size: usize,
    /// The longest context.
    pub sequence_len: usize,
    /// The number of transformer blocks.
    pub n_layer: usize,
    /// The number of attention heads.
    pub n_head: usize,
    /// The width of the residual stream, a multiple of the number of heads.
    pub n_embd: usize,
    /// The base of the rotary frequencies.
    pub rope_base: Real32,
    /// The epsilon of the norms.
    pub norm_eps: Real32,
}

/// One hundred thousand.
pub const ROPE_BASE_BITS: u32 = 0x47c3_5000;

/// One millionth.
pub const NORM_EPS_BITS: u32 = 0x3586_37bd;

/// What is wrong with a shape.
#[derive(Debug, Clone, Copy, PartialEq, Eq, Structural)]
pub enum ConfigError {
    NoHeads,
    HeadsDoNotDivide { n_embd: usize, n_head: usize },
}

impl ConfigError {
    /// The error as a sentence.
    pub open spec fn sentence(self) -> Seq<char> {
        match self {
            ConfigError::NoHeads => "n_head must be non-zero"@,
            ConfigError::HeadsDoNotDivide { n_embd, n_head } => "n_embd ("@ + decimal(
                n_embd as nat,
            ) + ") must be divisible by n_head ("@ + decimal(n_head as nat)
                + ") so head_dim is an integer"@,
        }
    }

    /// The error as a sentence.
    pub fn message(&self) -> (s: String)
        ensures
            s@ == self.sentence(),
    {
        match self {
            ConfigError::NoHeads => String::from_str("n_head must be non-zero"),
            ConfigError::HeadsDoNotDivide { n_embd, n_head } => {
                let mut s = String::from_str("n_embd (");
                push_decimal(&mut s, *n_embd as u64);
                s.append(") must be divisible by n_head (");
                push_decimal(&mut s, *n_head as u64);
                s.append(") so head_dim is an integer");
                s
            },
        }
    }
}

impl GptConfig {
    /// The heads share the width evenly.
    pub open spec fn wf(self) -> bool {
        self.n_head > 0 && self.n_embd % self.n_head == 0
    }

    /// The shape of a first trial on a small machine.
    pub fn mac_smoke() -> (c: GptConfig)
        ensures
            c == (GptConfig {
                vocab_size: 32768,
                sequence_len: 512,
                n_layer: 6,
                n_head: 6,
                n_embd: 384,
                rope_base: Real32 { bits: ROPE_BASE_BITS },
                norm_eps: Real32 { bits: NORM_EPS_BITS },
            }),
            c.wf(),
    {
        GptConfig {
            vocab_size: 32768,
            sequence_len: 512,
            n_layer: 6,
            n_head: 6,
            n_embd: 384,
            rope_base: Real32 { bits: ROPE_BASE_BITS },
            norm_eps: Real32 { bits: NORM_EPS_BITS },
        }
    }

    /// The width of one head.
    pub fn head_dim(&self) -> (d: usize)
        requires
            self.n_head > 0,
        ensures
            d == self.n_embd as int / self.n_head as int,
    {
        self.n_embd / self.n_head
    }

    /// Checks that the heads share the width evenly.
    pub fn validate(&self) -> (r: Result<(), ConfigError>)
        ensures
            match r {
                Ok(_) => self.wf(),
                Err(ConfigError::NoHeads) => self.n_head == 0,
                Err(ConfigError::HeadsDoNotDivide { n_embd, n_head }) => {
                    &&& self.n_head > 0
                    &&& self.n_embd % self.n_head != 0
                    &&& n_embd == self.n_embd
                    &&& n_head == self.n_head
                },
            },
    {
        if self.n_head == 0 {
            return Err(ConfigError::NoHeads);
        }
        if self.n_embd % self.n_head != 0 {
            return Err(
                ConfigError::HeadsDoNotDivide { n_embd: self.n_embd, n_head: self.n_head },
            );
        }
        Ok(())
    }
}

/// In a valid shape the heads together are as wide as the residual stream.
pub proof fn heads_fill_the_width(c: GptConfig)
    requires
        c.wf(),
    ensures
        (c.n_embd as int / c.n_head as int) * c.n_head == c.n_embd,
{
    vstd::arithmetic::div_mod::lemma_fundamental_div_mod(c.n_embd as int, c.n_head as int);
    assert((c.n_embd as int / c.n_head as int) * c.n_head == c.n_head * (c.n_embd as int
        / c.n_head as int)) by (nonlinear_arith);
}

} // verus!
