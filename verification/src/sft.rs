//! Supervised finetuning: the mixture of datasets, the size of the validation
//! set, the checks before a run, and its length.
use vstd::prelude::*;

use crate::binary64::{
    fine_unit, half_even, half_up, nearest, Double, Real, LEAST_MANTISSA, TOP_MANTISSA,
};
use crate::data::batch::FlatBatch;
use crate::seqs::concat;
use crate::shuffle::{numbers, rearrange, rearranged, shuffled, shuffled_numbers};
use crate::tasks::mixture::{mix_if_split, mixed, rendered_all, MixtureError, Source};
use crate::tasks::pack::{
    pack_epoch, packed_tokens, scored_count, PackStats, PackedEpoch, BUFFER_SIZE,
};

use crate::text::{decimal, push_decimal};
use crate::tokenizer::bpe::BpeTokenizer;
use crate::tokenizer::chat::{
    conversation_models, copy_conversations, ChatError, Conversation, MessageModel,
};
use crate::train::optim::{GroupLrs, GroupWeightDecay};
use crate::train::train_loop::{
    count_of, geometry_fault, geometry_fits, iterations_take_their_micro_batches, micro_batches,
    plan, validate_batch_geometry, Pace, TrainConfig,
};

verus! {

/// The file of the conversations that give the model its persona.
pub const IDENTITY_FILE: &'static str = "identity_conversations.jsonl";

/// How often these conversations are in the training mixture.
pub const IDENTITY_COPIES: usize = 2;

/// The sizes of the full validation set, in conversations. They are used as
/// ratios.
pub const VAL_CAP_SMOLTALK: usize = 24_000;

pub const VAL_CAP_MMLU: usize = 5_200;

pub const VAL_CAP_GSM8K: usize = 420;

/// How many conversations are rendered per row of the validation set.
pub const VAL_HEADROOM: usize = 16;

// ---------------------------------------------------------------------------
// The configuration
// ---------------------------------------------------------------------------

/// What a finetuning run is asked to do.
#[derive(Debug, Clone, PartialEq, Eq)]
pub struct SftConfig {
    pub checkpoint: String,
    pub data: String,
    pub vocab: String,
    pub out: String,
    pub device_batch: usize,
    /// Tokens per optimizer step, over all ranks.
    pub total_batch: usize,
    pub gpus: usize,
    /// `None` for one epoch; a number may only shorten that.
    pub num_iters: Option<usize>,
    pub lrs: GroupLrs,
    pub init_lr_frac: Real,
    pub warmup_steps: usize,
    pub warmdown_ratio: Real,
    pub final_lr_frac: Real,
    pub log_every: usize,
    pub eval_every: usize,
    pub eval_steps: usize,
    pub mmlu_epochs: usize,
    pub gsm8k_epochs: usize,
    pub seed: u64,
}

/// What is wrong with a configuration.
#[derive(Debug, Clone, Copy, PartialEq, Eq, Structural)]
pub enum SftConfigError {
    DeviceBatch,
    Gpus,
    LogEvery,
    WarmdownRatio,
    FinalLrFrac,
    InitLrFrac,
    EmbeddingLr,
    UnembeddingLr,
    MatrixLr,
    NumIters,
    EvalSteps,
    EvalEvery,
}

impl SftConfigError {
    /// The error as a sentence. Where a value is out of range, the value is to
    /// follow.
    pub open spec fn sentence(self) -> Seq<char> {
        match self {
            SftConfigError::DeviceBatch => "--device-batch must be >= 1"@,
            SftConfigError::Gpus => "--gpus must be >= 1"@,
            SftConfigError::LogEvery => "--log-every must be >= 1"@,
            SftConfigError::WarmdownRatio => "--warmdown-ratio must be in [0, 1], got "@,
            SftConfigError::FinalLrFrac => "--final-lr-frac must be in [0, 1], got "@,
            SftConfigError::InitLrFrac => "--init-lr-frac must be > 0, got "@,
            SftConfigError::EmbeddingLr => "--embedding-lr must be > 0, got "@,
            SftConfigError::UnembeddingLr => "--unembedding-lr must be > 0, got "@,
            SftConfigError::MatrixLr => "--matrix-lr must be > 0, got "@,
            SftConfigError::NumIters => "--num-iters must be >= 1"@,
            SftConfigError::EvalSteps => "--eval-steps must be >= 1"@,
            SftConfigError::EvalEvery =>
                "--eval-every must be >= 1 (it is what saves <run>/best)"@,
        }
    }

    /// The error as a sentence. Where a value is out of range, the value is to
    /// follow.
    pub fn text(self) -> (s: &'static str)
        ensures
            s@ == self.sentence(),
    {
        match self {
            SftConfigError::DeviceBatch => "--device-batch must be >= 1",
            SftConfigError::Gpus => "--gpus must be >= 1",
            SftConfigError::LogEvery => "--log-every must be >= 1",
            SftConfigError::WarmdownRatio => "--warmdown-ratio must be in [0, 1], got ",
            SftConfigError::FinalLrFrac => "--final-lr-frac must be in [0, 1], got ",
            SftConfigError::InitLrFrac => "--init-lr-frac must be > 0, got ",
            SftConfigError::EmbeddingLr => "--embedding-lr must be > 0, got ",
            SftConfigError::UnembeddingLr => "--unembedding-lr must be > 0, got ",
            SftConfigError::MatrixLr => "--matrix-lr must be > 0, got ",
            SftConfigError::NumIters => "--num-iters must be >= 1",
            SftConfigError::EvalSteps => "--eval-steps must be >= 1",
            SftConfigError::EvalEvery =>
                "--eval-every must be >= 1 (it is what saves <run>/best)",
        }
    }
}

/// Whether a learning rate can be trained with: a finite number above zero.
pub open spec fn usable_rate(r: Real) -> bool {
    r.finite() && r.above_zero()
}

impl SftConfig {
    /// The first thing wrong with the configuration.
    pub open spec fn fault(self) -> Option<SftConfigError> {
        if self.device_batch == 0 {
            Some(SftConfigError::DeviceBatch)
        } else if self.gpus == 0 {
            Some(SftConfigError::Gpus)
        } else if self.log_every == 0 {
            Some(SftConfigError::LogEvery)
        } else if !self.warmdown_ratio.in_unit() {
            Some(SftConfigError::WarmdownRatio)
        } else if !self.final_lr_frac.in_unit() {
            Some(SftConfigError::FinalLrFrac)
        } else if !usable_rate(self.init_lr_frac) {
            Some(SftConfigError::InitLrFrac)
        } else if !usable_rate(self.lrs.embedding) {
            Some(SftConfigError::EmbeddingLr)
        } else if !usable_rate(self.lrs.unembedding) {
            Some(SftConfigError::UnembeddingLr)
        } else if !usable_rate(self.lrs.matrix) {
            Some(SftConfigError::MatrixLr)
        } else if self.num_iters == Some(0usize) {
            Some(SftConfigError::NumIters)
        } else if self.eval_steps == 0 {
            Some(SftConfigError::EvalSteps)
        } else if self.eval_every == 0 {
            Some(SftConfigError::EvalEvery)
        } else {
            None
        }
    }

    /// Checks everything that can be checked without the checkpoint or the
    /// data.
    pub fn validate(&self) -> (r: Result<(), SftConfigError>)
        ensures
            match r {
                Ok(_) => self.fault() is None,
                Err(e) => self.fault() == Some(e),
            },
    {
        if self.device_batch == 0 {
            return Err(SftConfigError::DeviceBatch);
        }
        if self.gpus == 0 {
            return Err(SftConfigError::Gpus);
        }
        if self.log_every == 0 {
            return Err(SftConfigError::LogEvery);
        }
        if !self.warmdown_ratio.is_fraction() {
            return Err(SftConfigError::WarmdownRatio);
        }
        if !self.final_lr_frac.is_fraction() {
            return Err(SftConfigError::FinalLrFrac);
        }
        if !self.init_lr_frac.is_finite() || !self.init_lr_frac.is_positive() {
            return Err(SftConfigError::InitLrFrac);
        }
        if !self.lrs.embedding.is_finite() || !self.lrs.embedding.is_positive() {
            return Err(SftConfigError::EmbeddingLr);
        }
        if !self.lrs.unembedding.is_finite() || !self.lrs.unembedding.is_positive() {
            return Err(SftConfigError::UnembeddingLr);
        }
        if !self.lrs.matrix.is_finite() || !self.lrs.matrix.is_positive() {
            return Err(SftConfigError::MatrixLr);
        }
        if let Some(n) = self.num_iters {
            if n == 0 {
                return Err(SftConfigError::NumIters);
            }
        }
        if self.eval_steps == 0 {
            return Err(SftConfigError::EvalSteps);
        }
        if self.eval_every == 0 {
            return Err(SftConfigError::EvalEvery);
        }
        Ok(())
    }
}

// ---------------------------------------------------------------------------
// The training mixture
// ---------------------------------------------------------------------------

/// A source as a name with what its conversations say.
pub open spec fn source_view(s: Source) -> (Seq<char>, Seq<Seq<MessageModel>>) {
    (s.name@, conversation_models(s.conversations@))
}

/// The sources as names with what their conversations say.
pub open spec fn source_views(sources: Seq<Source>) -> Seq<
    (Seq<char>, Seq<Seq<MessageModel>>),
> {
    Seq::new(sources.len(), |i: int| source_view(sources[i]))
}

/// The same source `n` times.
pub open spec fn copies_of(name: Seq<char>, convs: Seq<Seq<MessageModel>>, n: int) -> Seq<
    (Seq<char>, Seq<Seq<MessageModel>>),
> {
    Seq::new(
        if n > 0 {
            n as nat
        } else {
            0
        },
        |i: int| (name, convs),
    )
}

/// Appends `copies` sources of the same conversations.
pub fn push_copies(
    out: &mut Vec<Source>,
    name: &'static str,
    conversations: Vec<Conversation>,
    copies: usize,
)
    ensures
        source_views(final(out)@) == source_views(old(out)@) + copies_of(
            name@,
            conversation_models(conversations@),
            copies as int,
        ),
{
    if copies == 0 {
        assert(source_views(out@) =~= source_views(old(out)@) + copies_of(
            name@,
            conversation_models(conversations@),
            0,
        ));
        return;
    }
    let ghost start = source_views(out@);
    let ghost models = conversation_models(conversations@);
    let mut i: usize = 1;
    assert(source_views(out@) =~= start + copies_of(name@, models, 0));
    while i < copies
        invariant
            1 <= i <= copies,
            start == source_views(old(out)@),
            models == conversation_models(conversations@),
            source_views(out@) == start + copies_of(name@, models, i - 1),
        decreases copies - i,
    {
        let ghost before = source_views(out@);
        out.push(Source { name, conversations: copy_conversations(&conversations) });
        assert(source_views(out@) =~= before.push((name@, models)));
        assert(source_views(out@) =~= start + copies_of(name@, models, i as int));
        i += 1;
    }
    let ghost before = source_views(out@);
    out.push(Source { name, conversations });
    assert(source_views(out@) =~= before.push((name@, models)));
    assert(source_views(out@) =~= start + copies_of(name@, models, copies as int));
}

/// The training mixture: SmolTalk once, the identity conversations twice, then
/// MMLU and GSM8K as often as they have epochs.
pub open spec fn train_mixture(
    smoltalk: Seq<Seq<MessageModel>>,
    identity: Seq<Seq<MessageModel>>,
    mmlu: Seq<Seq<MessageModel>>,
    mmlu_epochs: int,
    gsm8k: Seq<Seq<MessageModel>>,
    gsm8k_epochs: int,
) -> Seq<(Seq<char>, Seq<Seq<MessageModel>>)> {
    copies_of("smoltalk"@, smoltalk, 1) + copies_of("identity"@, identity, IDENTITY_COPIES as int)
        + copies_of("mmlu"@, mmlu, mmlu_epochs) + copies_of("gsm8k"@, gsm8k, gsm8k_epochs)
}

/// The sources of the training mixture. A dataset of 0 epochs is left out.
pub fn train_sources(
    smoltalk: Vec<Conversation>,
    identity: Vec<Conversation>,
    mmlu: Vec<Conversation>,
    mmlu_epochs: usize,
    gsm8k: Vec<Conversation>,
    gsm8k_epochs: usize,
) -> (out: Vec<Source>)
    ensures
        source_views(out@) == train_mixture(
            conversation_models(smoltalk@),
            conversation_models(identity@),
            conversation_models(mmlu@),
            mmlu_epochs as int,
            conversation_models(gsm8k@),
            gsm8k_epochs as int,
        ),
{
    let mut out: Vec<Source> = Vec::new();
    assert(source_views(out@) =~= Seq::empty());
    push_copies(&mut out, "smoltalk", smoltalk, 1);
    push_copies(&mut out, "identity", identity, IDENTITY_COPIES);
    push_copies(&mut out, "mmlu", mmlu, mmlu_epochs);
    push_copies(&mut out, "gsm8k", gsm8k, gsm8k_epochs);
    assert(source_views(out@) =~= train_mixture(
        conversation_models(smoltalk@),
        conversation_models(identity@),
        conversation_models(mmlu@),
        mmlu_epochs as int,
        conversation_models(gsm8k@),
        gsm8k_epochs as int,
    ));
    out
}

// ---------------------------------------------------------------------------
// The validation mixture
// ---------------------------------------------------------------------------

/// Conversations in the order of the seed, and no more than `cap` of them.
pub open spec fn capped(convs: Seq<Seq<MessageModel>>, cap: int, seed: u64) -> Seq<
    Seq<MessageModel>,
> {
    let all = rearranged(convs, shuffled(numbers(convs.len()), seed));
    if all.len() <= cap {
        all
    } else {
        all.take(cap)
    }
}

/// Shuffles, then keeps no more than `cap` conversations.
pub fn shuffled_cap(convs: Vec<Conversation>, cap: usize, seed: u64) -> (out: Vec<Conversation>)
    ensures
        conversation_models(out@) == capped(conversation_models(convs@), cap as int, seed),
        out@.len() == if convs@.len() <= cap {
            convs@.len()
        } else {
            cap as nat
        },
{
    let order = shuffled_numbers(convs.len(), seed);
    let mut out = rearrange(convs, &order);
    assert(conversation_models(out@) =~= rearranged(conversation_models(convs@), order@));
    out.truncate(cap);
    assert(conversation_models(out@) =~= capped(conversation_models(convs@), cap as int, seed));
    out
}

/// The sizes of the datasets that take part, added up.
pub open spec fn active_caps(mmlu_epochs: int, gsm8k_epochs: int) -> int {
    VAL_CAP_SMOLTALK + (if mmlu_epochs > 0 {
        VAL_CAP_MMLU as int
    } else {
        0
    }) + (if gsm8k_epochs > 0 {
        VAL_CAP_GSM8K as int
    } else {
        0
    })
}

/// The share of the full sizes that a budget allows: at most all of them, and
/// else their quotient as a double-precision number.
pub open spec fn budget_share(budget: int, total: int) -> (nat, nat) {
    if budget >= total {
        (1, 1)
    } else {
        nearest(budget as nat, total as nat)
    }
}

/// The share of the full sizes that a budget allows.
pub fn share_of_budget(budget: usize, total: usize) -> (d: Double)
    requires
        0 < total <= 29_620,
    ensures
        d@ == budget_share(budget as int, total as int),
        0 < d.unit <= 0x10_0000_0000_0000_0000,
        d.mantissa <= d.unit,
        d.mantissa <= 0x20_0000_0000_0000,
{
    if budget >= total {
        return Double { mantissa: 1, unit: 1 };
    }
    let d = Double::quotient(budget as u128, total as u128);
    proof {
        let m = d.mantissa as int;
        let b = budget as int;
        let t = total as int;
        if b == 0 {
            assert(m * t <= t);
            assert(m <= 1) by (nonlinear_arith)
                requires
                    m * t <= t,
                    t > 0,
            ;
        } else {
            lemma_share_at_most_one(b as nat, t as nat);
        }
    }
    d
}

/// The nearest double-precision number to a quotient of at most one is at most
/// one.
proof fn lemma_share_at_most_one(num: nat, den: nat)
    requires
        0 < num < den,
    ensures
        nearest(num, den).0 <= nearest(num, den).1,
{
    let u = fine_unit(num, den, 1);
    lemma_fine_unit_positive(num, den, 1);
    let n = num * u;
    vstd::arithmetic::div_mod::lemma_fundamental_div_mod(n as int, den as int);
    vstd::arithmetic::div_mod::lemma_mod_bound(n as int, den as int);
    let q = n as int / den as int;
    let r = n as int % den as int;
    assert(q < u) by (nonlinear_arith)
        requires
            n == den * q + r,
            0 <= r,
            n == num * u,
            num < den,
            u > 0,
            den > 0,
    ;
}

proof fn lemma_fine_unit_positive(num: nat, den: nat, unit: nat)
    requires
        unit > 0,
    ensures
        fine_unit(num, den, unit) > 0,
    decreases 2 * (LEAST_MANTISSA * den) - num * unit,
{
    if num == 0 || num * unit >= LEAST_MANTISSA * den {
    } else {
        assert(num * (2 * unit) == 2 * (num * unit)) by (nonlinear_arith);
        assert(num * unit > 0) by (nonlinear_arith)
            requires
                num > 0,
                unit > 0,
        ;
        lemma_fine_unit_positive(num, den, 2 * unit);
    }
}

/// A size times a share, rounded; at least one, and no more than there are.
pub open spec fn cap_for(size: int, share: (nat, nat), available: int) -> int {
    let product = nearest((share.0 * size) as nat, share.1);
    let rounded = half_up(product.0, product.1) as int;
    let floored = if rounded < 1 {
        1
    } else {
        rounded
    };
    if floored < available {
        floored
    } else {
        available
    }
}

/// A number near to a quotient is at most a whole number that the quotient is at
/// most.
proof fn lemma_rounded_at_most(num: nat, den: nat, bound: nat)
    requires
        den > 0,
        num <= bound * den,
    ensures
        half_even(num, den) <= bound,
        half_up(num, den) <= bound,
{
    vstd::arithmetic::div_mod::lemma_fundamental_div_mod(num as int, den as int);
    vstd::arithmetic::div_mod::lemma_mod_bound(num as int, den as int);
    let q = num as int / den as int;
    let r = num as int % den as int;
    assert(q < bound || (q == bound && r == 0)) by (nonlinear_arith)
        requires
            num == den * q + r,
            0 <= r < den,
            num <= bound * den,
            den > 0,
    ;
    let h = (2 * num + den) as int / (2 * den) as int;
    vstd::arithmetic::div_mod::lemma_fundamental_div_mod((2 * num + den) as int, (2 * den) as int);
    vstd::arithmetic::div_mod::lemma_mod_bound((2 * num + den) as int, (2 * den) as int);
    let s = (2 * num + den) as int % (2 * den) as int;
    assert(h <= bound) by (nonlinear_arith)
        requires
            2 * num + den == (2 * den) * h + s,
            0 <= s,
            num <= bound * den,
            den > 0,
    ;
}

/// A share of at most one times a size, rounded, is at most the size.
proof fn lemma_share_of_size(share: (nat, nat), size: nat)
    requires
        share.0 <= share.1,
        0 < share.1,
        size < TOP_MANTISSA,
    ensures
        ({
            let product = nearest(share.0 * size, share.1);
            &&& share.0 * size < TOP_MANTISSA * share.1
            &&& product.1 > 0
            &&& product.0 <= size * product.1
            &&& half_up(product.0, product.1) <= size
        }),
{
    let (m, u) = (share.0, share.1);
    let num = m * size;
    assert(num <= size * u) by (nonlinear_arith)
        requires
            num == m * size,
            m <= u,
    ;
    assert(size * u < TOP_MANTISSA * u) by (nonlinear_arith)
        requires
            size < TOP_MANTISSA,
            u > 0,
    ;
    let v = fine_unit(num, u, 1);
    lemma_fine_unit_positive(num, u, 1);
    assert(num * v <= (size * v) * u) by (nonlinear_arith)
        requires
            num <= size * u,
            v > 0,
    ;
    lemma_rounded_at_most(num * v, u, size * v);
    lemma_rounded_at_most(half_even(num * v, u), v, size);
}

/// A size times a share, rounded; at least one, and no more than there are.
pub fn scaled_cap(size: usize, share: Double, available: usize) -> (r: usize)
    requires
        size < TOP_MANTISSA,
        0 < share.unit <= 0x10_0000_0000_0000_0000,
        share.mantissa <= share.unit,
        share.mantissa <= 0x20_0000_0000_0000,
    ensures
        r == cap_for(size as int, share@, available as int),
{
    proof {
        let m = share.mantissa as int;
        let k = size as int;
        lemma_share_of_size(share@, size as nat);
        assert(m * k <= TOP_MANTISSA * TOP_MANTISSA) by (nonlinear_arith)
            requires
                0 <= k <= TOP_MANTISSA,
                0 <= m <= TOP_MANTISSA,
        ;
    }
    let product: Double = share.times(size as u128);
    let rounded: u128 = product.round();
    let floored: usize = if rounded < 1 {
        1
    } else {
        rounded as usize
    };
    if floored < available {
        floored
    } else {
        available
    }
}

/// What is kept of a dataset for validation is at most its full size and what
/// its files hold, and something if they hold anything. A budget for all the
/// full sizes keeps as much of each as there is.
pub proof fn caps_keep_to_the_sizes(size: int, budget: int, total: int, available: int)
    requires
        0 < size < TOP_MANTISSA,
        0 < total,
        0 <= budget,
        0 <= available,
    ensures
        ({
            let cap = cap_for(size, budget_share(budget, total), available);
            &&& 0 <= cap <= size
            &&& cap <= available
            &&& available > 0 ==> cap > 0
            &&& budget >= total ==> cap == if size < available {
                size
            } else {
                available
            }
        }),
{
    let share = budget_share(budget, total);
    let (m, u) = (share.0 as int, share.1 as int);
    if budget < total {
        lemma_fine_unit_positive(budget as nat, total as nat, 1);
        if budget > 0 {
            lemma_share_at_most_one(budget as nat, total as nat);
        } else {
            lemma_rounded_at_most(0, total as nat, 0);
        }
    }
    lemma_share_of_size(share, size as nat);
    let v = nearest((m * size) as nat, u as nat).1;
    let p = nearest((m * size) as nat, u as nat).0;
    if budget >= total {
        assert(m * size == size);
        assert(p == size * v);
        assert(2 * p + v == size * (2 * v) + v) by (nonlinear_arith)
            requires
                p == size * v,
        ;
        vstd::arithmetic::div_mod::lemma_fundamental_div_mod_converse(
            (2 * p + v) as int,
            (2 * v) as int,
            size,
            v as int,
        );
    }
}

/// A source of the validation mixture.
pub open spec fn val_source(
    name: Seq<char>,
    convs: Seq<Seq<MessageModel>>,
    size: int,
    share: (nat, nat),
    seed: u64,
) -> (Seq<char>, Seq<Seq<MessageModel>>) {
    (name, capped(convs, cap_for(size, share, convs.len() as int), seed))
}

/// The validation mixture: the datasets of the training mixture, each shuffled
/// and capped to its share of the budget. The ratios are those of the full
/// sizes of the datasets that take part.
pub open spec fn val_mixture(
    smoltalk: Seq<Seq<MessageModel>>,
    mmlu: Seq<Seq<MessageModel>>,
    mmlu_epochs: int,
    gsm8k: Seq<Seq<MessageModel>>,
    gsm8k_epochs: int,
    budget: int,
    seed: u64,
) -> Seq<(Seq<char>, Seq<Seq<MessageModel>>)> {
    let share = budget_share(budget, active_caps(mmlu_epochs, gsm8k_epochs));
    seq![val_source("smoltalk"@, smoltalk, VAL_CAP_SMOLTALK as int, share, seed)] + (
    if mmlu_epochs > 0 {
        seq![val_source("mmlu"@, mmlu, VAL_CAP_MMLU as int, share, seed)]
    } else {
        Seq::empty()
    }) + (if gsm8k_epochs > 0 {
        seq![val_source("gsm8k"@, gsm8k, VAL_CAP_GSM8K as int, share, seed)]
    } else {
        Seq::empty()
    })
}

fn push_val_source(
    out: &mut Vec<Source>,
    name: &'static str,
    convs: Vec<Conversation>,
    size: usize,
    share: Double,
    seed: u64,
)
    requires
        size <= VAL_CAP_SMOLTALK,
        0 < share.unit <= 0x10_0000_0000_0000_0000,
        share.mantissa <= share.unit,
        share.mantissa <= 0x20_0000_0000_0000,
    ensures
        source_views(final(out)@) == source_views(old(out)@).push(
            val_source(name@, conversation_models(convs@), size as int, share@, seed),
        ),
{
    let cap: usize = scaled_cap(size, share, convs.len());
    let kept = shuffled_cap(convs, cap, seed);
    out.push(Source { name, conversations: kept });
    assert(source_views(out@) =~= source_views(old(out)@).push(
        val_source(name@, conversation_models(convs@), size as int, share@, seed),
    ));
}

/// The sources of the validation mixture.
pub fn val_sources(
    smoltalk: Vec<Conversation>,
    mmlu: Vec<Conversation>,
    mmlu_epochs: usize,
    gsm8k: Vec<Conversation>,
    gsm8k_epochs: usize,
    budget: usize,
    seed: u64,
) -> (out: Vec<Source>)
    ensures
        source_views(out@) == val_mixture(
            conversation_models(smoltalk@),
            conversation_models(mmlu@),
            mmlu_epochs as int,
            conversation_models(gsm8k@),
            gsm8k_epochs as int,
            budget as int,
            seed,
        ),
{
    let mut total: usize = VAL_CAP_SMOLTALK;
    if mmlu_epochs > 0 {
        total += VAL_CAP_MMLU;
    }
    if gsm8k_epochs > 0 {
        total += VAL_CAP_GSM8K;
    }
    let share: Double = share_of_budget(budget, total);
    let mut out: Vec<Source> = Vec::new();
    push_val_source(&mut out, "smoltalk", smoltalk, VAL_CAP_SMOLTALK, share, seed);
    if mmlu_epochs > 0 {
        push_val_source(&mut out, "mmlu", mmlu, VAL_CAP_MMLU, share, seed);
    }
    if gsm8k_epochs > 0 {
        push_val_source(&mut out, "gsm8k", gsm8k, VAL_CAP_GSM8K, share, seed);
    }
    assert(source_views(out@) =~= val_mixture(
        conversation_models(smoltalk@),
        conversation_models(mmlu@),
        mmlu_epochs as int,
        conversation_models(gsm8k@),
        gsm8k_epochs as int,
        budget as int,
        seed,
    ));
    out
}

/// How many conversations the validation mixture may hold.
pub fn val_budget(eval_steps: usize, device_batch: usize) -> (n: usize)
    requires
        VAL_HEADROOM * eval_steps <= usize::MAX,
        VAL_HEADROOM * eval_steps * device_batch <= usize::MAX,
    ensures
        n == VAL_HEADROOM * eval_steps * device_batch,
{
    VAL_HEADROOM * eval_steps * device_batch
}

// ---------------------------------------------------------------------------
// From a mixture to batches
// ---------------------------------------------------------------------------

/// Renders, shuffles and packs a mixture into rows for a model of `seq_len`
/// tokens. `None` if the regex engine gives up on a text.
pub fn pack_mixture(tok: &BpeTokenizer, sources: &Vec<Source>, seq_len: usize, seed: u64) -> (r:
    Option<Result<PackedEpoch, MixtureError>>)
    requires
        1 <= seq_len < usize::MAX,
    ensures
        match r {
            None => rendered_all(*tok, sources@, seq_len + 1) is None,
            Some(Err(e)) => {
                &&& rendered_all(*tok, sources@, seq_len + 1) == Some(
                    Err::<Seq<Seq<(u32, bool)>>, (int, int, ChatError)>(
                        (e.source as int, e.index as int, e.error),
                    ),
                )
                &&& e.source < sources@.len()
                &&& e.name == sources@[e.source as int].name
            },
            Some(Ok(epoch)) => {
                &&& rendered_all(*tok, sources@, seq_len + 1) matches Some(Ok(all))
                &&& epoch.wf()
                &&& epoch.row_capacity == seq_len + 1
                &&& epoch.tokens() == packed_tokens(
                    mixed(all, seed),
                    BUFFER_SIZE as int,
                    seq_len + 1,
                    tok.first_special() as u32,
                )
                &&& epoch.stats.rows == epoch.row_count()
                &&& epoch.stats.total_tokens == epoch.tokens().len()
                &&& epoch.stats.scored_tokens == scored_count(epoch.tokens())
                &&& epoch.stats.conversations == mixed(all, seed).len()
                &&& epoch.stats.pad_tokens == epoch.tokens().len() - concat(mixed(all, seed)).len()
            },
        },
{
    match mix_if_split(tok, sources, seq_len + 1, seed) {
        None => None,
        Some(Err(e)) => Some(Err(e)),
        Some(Ok(rendered)) => {
            let epoch = pack_epoch(rendered, seq_len + 1, tok.bos_id());
            Some(Ok(epoch))
        },
    }
}

/// The first `steps` micro-batches of an epoch, all its rows taken by one
/// rank; or the number that it has, if it has fewer.
pub fn val_snapshot(epoch: &PackedEpoch, device_batch: usize, steps: usize) -> (r: Result<
    Vec<FlatBatch>,
    usize,
>)
    requires
        epoch.wf(),
        device_batch >= 1,
    ensures
        match r {
            Ok(batches) => {
                &&& steps <= epoch.batch_count(1, device_batch as int)
                &&& batches@.len() == steps
                &&& forall|i: int|
                    0 <= i < steps ==> epoch.is_batch(
                        #[trigger] batches@[i],
                        i,
                        0,
                        1,
                        device_batch as int,
                    )
            },
            Err(have) => have < steps && have == epoch.batch_count(1, device_batch as int),
        },
{
    let mut view = epoch.view(0, 1, device_batch);
    let have: usize = view.num_batches();
    if have < steps {
        return Err(have);
    }
    let mut batches: Vec<FlatBatch> = Vec::new();
    let mut i: usize = 0;
    while i < steps
        invariant
            i <= steps,
            steps <= have,
            have == epoch.batch_count(1, device_batch as int),
            view.wf(),
            *view.epoch == *epoch,
            view.rank == 0,
            view.world == 1,
            view.device_batch == device_batch,
            view.next == i,
            batches@.len() == i,
            forall|k: int|
                0 <= k < i ==> epoch.is_batch(
                    #[trigger] batches@[k],
                    k,
                    0,
                    1,
                    device_batch as int,
                ),
        decreases steps - i,
    {
        match view.next_batch() {
            Ok(b) => {
                let ghost before = batches@;
                batches.push(b);
                assert forall|k: int| 0 <= k < i + 1 implies epoch.is_batch(
                    #[trigger] batches@[k],
                    k,
                    0,
                    1,
                    device_batch as int,
                ) by {
                    if k < i {
                        assert(batches@[k] == before[k]);
                    }
                }
            },
            Err(_) => {
                assert(false);
            },
        }
        i += 1;
    }
    Ok(batches)
}

// ---------------------------------------------------------------------------
// Before and at the start of a run
// ---------------------------------------------------------------------------

/// Why a run cannot start.
#[derive(Debug, Clone, PartialEq, Eq)]
pub enum StartError {
    /// The vocabulary is not the one that the checkpoint was trained with.
    Vocab { tokens: usize, trained: usize },
    /// The batch geometry does not work out.
    Geometry { reason: String },
}

/// Checks the vocabulary and the batch geometry against the checkpoint, and
/// returns the number of micro-batches per step.
pub fn check_start(
    vocab_size: usize,
    trained_vocab_size: usize,
    gpus: usize,
    device_batch: usize,
    sequence_len: usize,
    total_batch: usize,
) -> (r: Result<usize, StartError>)
    requires
        vocab_size == trained_vocab_size ==> geometry_fits(
            gpus as int,
            device_batch as int,
            sequence_len as int,
        ),
    ensures
        match r {
            Ok(grad_accum) => {
                &&& vocab_size == trained_vocab_size
                &&& geometry_fault(
                    gpus as int,
                    device_batch as int,
                    sequence_len as int,
                    total_batch as int,
                ) is None
                &&& grad_accum == total_batch as int / (gpus * device_batch * sequence_len)
                &&& grad_accum >= 1
            },
            Err(StartError::Vocab { tokens, trained }) => {
                &&& vocab_size != trained_vocab_size
                &&& tokens == vocab_size
                &&& trained == trained_vocab_size
            },
            Err(StartError::Geometry { reason }) => {
                &&& vocab_size == trained_vocab_size
                &&& geometry_fault(
                    gpus as int,
                    device_batch as int,
                    sequence_len as int,
                    total_batch as int,
                ) == Some(reason@)
            },
        },
{
    if vocab_size != trained_vocab_size {
        return Err(StartError::Vocab { tokens: vocab_size, trained: trained_vocab_size });
    }
    match validate_batch_geometry(gpus, device_batch, sequence_len, total_batch) {
        Ok(grad_accum) => Ok(grad_accum),
        Err(reason) => Err(StartError::Geometry { reason }),
    }
}

/// Why an epoch cannot be trained on.
#[derive(Debug, Clone, Copy, PartialEq, Eq, Structural)]
pub enum EpochError {
    /// No token of it is scored.
    NothingScored { rows: usize },
    /// It is too short for one step.
    TooShort { rows: usize },
    /// More steps are asked for than it holds.
    TooManySteps { asked: usize, held: usize },
}

impl EpochError {
    /// The error as a sentence, for so many ranks, rows per micro-batch and
    /// micro-batches per step.
    pub open spec fn sentence(self, world: int, device_batch: int, grad_accum: int) -> Seq<char> {
        match self {
            EpochError::NothingScored { rows } => "the train mixture packs "@ + decimal(rows as nat)
                + " rows but scores no tokens — every target is ignore_index, so there is nothing to learn from"@,
            EpochError::TooShort { rows } => "the train mixture packs only "@ + decimal(rows as nat)
                + " rows, too few for one optimizer step: that needs world("@ + decimal(
                world as nat,
            ) + ") * device_batch("@ + decimal(device_batch as nat) + ") * grad_accum("@ + decimal(
                grad_accum as nat,
            ) + ") = "@ + decimal((world * device_batch * grad_accum) as nat) + " rows"@,
            EpochError::TooManySteps { asked, held } => "--num-iters "@ + decimal(asked as nat)
                + " exceeds the "@ + decimal(held as nat)
                + " steps this epoch holds; the mixture is packed once and not repeated, so lower --num-iters (or drop it to train the whole epoch)"@,
        }
    }

    /// The error as a sentence, for so many ranks, rows per micro-batch and
    /// micro-batches per step.
    pub fn message(&self, world: usize, device_batch: usize, grad_accum: usize) -> (s: String)
        requires
            self is TooShort ==> world * device_batch <= usize::MAX && world * device_batch
                * grad_accum <= usize::MAX,
        ensures
            s@ == self.sentence(world as int, device_batch as int, grad_accum as int),
    {
        match self {
            EpochError::NothingScored { rows } => {
                let mut s = String::from_str("the train mixture packs ");
                push_decimal(&mut s, *rows as u64);
                s.append(
                    " rows but scores no tokens — every target is ignore_index, so there is nothing to learn from",
                );
                s
            },
            EpochError::TooShort { rows } => {
                let mut s = String::from_str("the train mixture packs only ");
                push_decimal(&mut s, *rows as u64);
                s.append(" rows, too few for one optimizer step: that needs world(");
                push_decimal(&mut s, world as u64);
                s.append(") * device_batch(");
                push_decimal(&mut s, device_batch as u64);
                s.append(") * grad_accum(");
                push_decimal(&mut s, grad_accum as u64);
                s.append(") = ");
                push_decimal(&mut s, (world * device_batch * grad_accum) as u64);
                s.append(" rows");
                s
            },
            EpochError::TooManySteps { asked, held } => {
                let mut s = String::from_str("--num-iters ");
                push_decimal(&mut s, *asked as u64);
                s.append(" exceeds the ");
                push_decimal(&mut s, *held as u64);
                s.append(
                    " steps this epoch holds; the mixture is packed once and not repeated, so lower --num-iters (or drop it to train the whole epoch)",
                );
                s
            },
        }
    }
}

/// What to say of a validation mixture that packs to fewer micro-batches than
/// are asked for.
pub open spec fn snapshot_fault(held: int, device_batch: int, eval_steps: int) -> Seq<char> {
    "val mixture packs to "@ + decimal(held as nat) + " micro-batches at device_batch "@ + decimal(
        device_batch as nat,
    ) + ", fewer than --eval-steps "@ + decimal(eval_steps as nat)
        + "; lower --eval-steps to <= "@ + decimal(held as nat)
        + " (or raise --mmlu-epochs / --gsm8k-epochs to widen the val mixture)"@
}

/// What to say of a validation mixture that packs to fewer micro-batches than
/// are asked for.
pub fn snapshot_message(held: usize, device_batch: usize, eval_steps: usize) -> (s: String)
    ensures
        s@ == snapshot_fault(held as int, device_batch as int, eval_steps as int),
{
    let mut s = String::from_str("val mixture packs to ");
    push_decimal(&mut s, held as u64);
    s.append(" micro-batches at device_batch ");
    push_decimal(&mut s, device_batch as u64);
    s.append(", fewer than --eval-steps ");
    push_decimal(&mut s, eval_steps as u64);
    s.append("; lower --eval-steps to <= ");
    push_decimal(&mut s, held as u64);
    s.append(" (or raise --mmlu-epochs / --gsm8k-epochs to widen the val mixture)");
    s
}

/// How many steps a run takes: as many as the epoch holds, or fewer if fewer
/// are asked for.
pub fn plan_epoch(
    stats: &PackStats,
    num_batches: usize,
    grad_accum: usize,
    asked: Option<usize>,
) -> (r: Result<usize, EpochError>)
    requires
        grad_accum >= 1,
    ensures
        ({
            let held = num_batches as int / grad_accum as int;
            match r {
                Ok(n) => {
                    &&& stats.scored_tokens > 0
                    &&& held > 0
                    &&& match asked {
                        None => n == held,
                        Some(m) => m <= held && n == m,
                    }
                },
                Err(EpochError::NothingScored { rows }) => stats.scored_tokens == 0 && rows
                    == stats.rows,
                Err(EpochError::TooShort { rows }) => stats.scored_tokens > 0 && held == 0 && rows
                    == stats.rows,
                Err(EpochError::TooManySteps { asked: m, held: h }) => {
                    &&& stats.scored_tokens > 0
                    &&& held > 0
                    &&& asked == Some(m)
                    &&& m > held
                    &&& h == held
                },
            }
        }),
{
    if stats.scored_tokens == 0 {
        return Err(EpochError::NothingScored { rows: stats.rows });
    }
    let held: usize = num_batches / grad_accum;
    if held == 0 {
        return Err(EpochError::TooShort { rows: stats.rows });
    }
    match asked {
        None => Ok(held),
        Some(m) => {
            if m <= held {
                Ok(m)
            } else {
                Err(EpochError::TooManySteps { asked: m, held })
            }
        },
    }
}

/// What the training loop of a run is asked to do, once its steps and its
/// learning rates are known. Only what the assistant says is scored, and the
/// matrices do not decay.
pub fn train_config(cfg: &SftConfig, num_iters: usize, grad_accum: usize, lrs: GroupLrs) -> (t:
    TrainConfig)
    requires
        cfg.gpus > 0,
    ensures
        t.num_iters == num_iters,
        t.grad_accum == grad_accum,
        t.tokens_per_step == cfg.total_batch as int / cfg.gpus as int,
        t.targets_may_be_ignored,
        t.lrs == lrs,
        t.weight_decays.embedding.bits == 0x3f50_624d_d2f1_a9fcu64,
        t.weight_decays.unembedding.bits == 0x3f84_7ae1_47ae_147bu64,
        t.weight_decays.matrix.bits == 0,
        t.warmup_steps == cfg.warmup_steps,
        t.warmdown_ratio == cfg.warmdown_ratio,
        t.final_lr_frac == cfg.final_lr_frac,
        t.log_every == cfg.log_every,
{
    TrainConfig {
        num_iters,
        grad_accum,
        tokens_per_step: cfg.total_batch / cfg.gpus,
        targets_may_be_ignored: true,
        lrs,
        weight_decays: GroupWeightDecay::finetuning(),
        warmup_steps: cfg.warmup_steps,
        warmdown_ratio: cfg.warmdown_ratio,
        final_lr_frac: cfg.final_lr_frac,
        log_every: cfg.log_every,
    }
}

/// A run of as many steps as were planned for an epoch takes no more
/// micro-batches than the epoch has.
pub proof fn planned_runs_fit_the_epoch(p: Pace, num_batches: int)
    requires
        p.grad_accum >= 1,
        p.num_iters <= num_batches / p.grad_accum as int,
    ensures
        count_of(plan(p), micro_batches()) <= num_batches,
{
    iterations_take_their_micro_batches(p, 0);
    let (n, g) = (p.num_iters as int, p.grad_accum as int);
    let held = num_batches / g;
    vstd::arithmetic::div_mod::lemma_fundamental_div_mod(num_batches, g);
    vstd::arithmetic::div_mod::lemma_mod_bound(num_batches, g);
    assert(n * g <= g * held) by (nonlinear_arith)
        requires
            n <= held,
            g >= 1,
    ;
}

/// Whether the ranks have built the same pack: each figure, added up over the
/// ranks, is this rank's figure times the number of ranks. Returns the first
/// figure for which that is not so.
pub fn disagreement(local: &Vec<u64>, sums: &Vec<u128>, world: usize) -> (r: Option<usize>)
    requires
        local@.len() == sums@.len(),
    ensures
        match r {
            Some(i) => {
                &&& i < local@.len()
                &&& sums@[i as int] != local@[i as int] * world
                &&& forall|k: int|
                    0 <= k < i ==> #[trigger] sums@[k] == local@[k] * world
            },
            None => forall|k: int|
                0 <= k < local@.len() ==> #[trigger] sums@[k] == local@[k] * world,
        },
{
    let mut i: usize = 0;
    while i < local.len()
        invariant
            i <= local@.len(),
            local@.len() == sums@.len(),
            forall|k: int| 0 <= k < i ==> #[trigger] sums@[k] == local@[k] * world,
        decreases local@.len() - i,
    {
        proof {
            let a = local@[i as int] as int;
            let w = world as int;
            assert(a * w <= 0xffff_ffff_ffff_ffff * 0xffff_ffff_ffff_ffff) by (nonlinear_arith)
                requires
                    0 <= a <= 0xffff_ffff_ffff_ffff,
                    0 <= w <= 0xffff_ffff_ffff_ffff,
            ;
        }
        if sums[i] != (local[i] as u128) * (world as u128) {
            return Some(i);
        }
        i += 1;
    }
    None
}

/// Where ranks hold different values, at least one of them sees it: only equal
/// values are all equal to the mean.
pub proof fn disagreements_are_seen(values: Seq<int>, total: int, a: int, b: int)
    requires
        forall|r: int| 0 <= r < values.len() ==> #[trigger] values[r] * values.len() == total,
        0 <= a < values.len(),
        0 <= b < values.len(),
    ensures
        values[a] == values[b],
{
    let (x, y, n) = (values[a], values[b], values.len() as int);
    assert(x == y) by (nonlinear_arith)
        requires
            x * n == total,
            y * n == total,
            n > 0,
    ;
}

} // verus!
