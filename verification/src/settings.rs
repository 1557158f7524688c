//! Which settings are accepted, and what mixtures are made of.
use vstd::prelude::*;

use crate::binary64::{half_up, nearest, Real, TOP_MANTISSA};
use crate::chat::{ChatConfig, ChatConfigError};
use crate::cli::{
    download_outcome, pretrain_fault, val_shard_of, DownloadArgs, DownloadFault, PretrainArgs,
    PretrainFault,
};
use crate::rounding::{
    numbers_are_told_by_their_bits, quotients_are_off_by_half_a_unit_at_most,
    rounding_is_off_by_half_at_most,
};
use crate::sft::{
    budget_share, cap_for, capped, train_mixture, val_mixture, SftConfig, SftConfigError,
};
use crate::shuffle::{numbers, shuffled};
use crate::tasks::mixture::mixed;
use crate::text::{same_but_case, trimmed, unsigned_value};
use crate::tokenizer::chat::MessageModel;
use crate::train::course::{divides_evenly, total_batches_are_whole_micro_batches};

verus! {

// ---------------------------------------------------------------------------
// Settings
// ---------------------------------------------------------------------------

/// Whether the bits are those of a number from 0 to 1.
pub open spec fn bits_of_fraction(r: Real) -> bool {
    r.bits <= 0x3ff0_0000_0000_0000 || r.bits == 0x8000_0000_0000_0000
}

/// Whether the bits are those of a finite number above 0.
pub open spec fn bits_of_rate(r: Real) -> bool {
    0 < r.bits < 0x7ff0_0000_0000_0000
}

/// A fine-tuning run is accepted if and only if it has rows, ranks, steps, logs,
/// evaluations and batches to evaluate with, its fractions lie between 0 and 1, and
/// its rates are finite and above 0.
pub proof fn finetuning_settings_are_checked(c: SftConfig)
    ensures
        c.fault() is None <==> {
            &&& c.device_batch > 0
            &&& c.gpus > 0
            &&& c.log_every > 0
            &&& bits_of_fraction(c.warmdown_ratio)
            &&& bits_of_fraction(c.final_lr_frac)
            &&& bits_of_rate(c.init_lr_frac)
            &&& bits_of_rate(c.lrs.embedding)
            &&& bits_of_rate(c.lrs.unembedding)
            &&& bits_of_rate(c.lrs.matrix)
            &&& c.num_iters != Some(0usize)
            &&& c.eval_steps > 0
            &&& c.eval_every > 0
        },
        match c.fault() {
            None => true,
            Some(SftConfigError::DeviceBatch) => c.device_batch == 0,
            Some(SftConfigError::Gpus) => c.gpus == 0,
            Some(SftConfigError::LogEvery) => c.log_every == 0,
            Some(SftConfigError::WarmdownRatio) => !bits_of_fraction(c.warmdown_ratio),
            Some(SftConfigError::FinalLrFrac) => !bits_of_fraction(c.final_lr_frac),
            Some(SftConfigError::InitLrFrac) => !bits_of_rate(c.init_lr_frac),
            Some(SftConfigError::EmbeddingLr) => !bits_of_rate(c.lrs.embedding),
            Some(SftConfigError::UnembeddingLr) => !bits_of_rate(c.lrs.unembedding),
            Some(SftConfigError::MatrixLr) => !bits_of_rate(c.lrs.matrix),
            Some(SftConfigError::NumIters) => c.num_iters == Some(0usize),
            Some(SftConfigError::EvalSteps) => c.eval_steps == 0,
            Some(SftConfigError::EvalEvery) => c.eval_every == 0,
        },
{
    numbers_are_told_by_their_bits(c.warmdown_ratio);
    numbers_are_told_by_their_bits(c.final_lr_frac);
    numbers_are_told_by_their_bits(c.init_lr_frac);
    numbers_are_told_by_their_bits(c.lrs.embedding);
    numbers_are_told_by_their_bits(c.lrs.unembedding);
    numbers_are_told_by_their_bits(c.lrs.matrix);
}

/// A pretraining run is accepted if and only if it has rows, tokens, steps, logs and
/// ranks, its fractions lie between 0 and 1, its total batch is whole micro-batches of
/// all ranks, it has batches to evaluate with if it evaluates and tokens to sample if
/// it samples, and its temperature is not below 0.
pub proof fn pretraining_settings_are_checked(a: PretrainArgs)
    ensures
        pretrain_fault(a) is None <==> {
            &&& a.device_batch > 0
            &&& a.sequence_len > 0
            &&& a.num_iters > 0
            &&& a.log_every > 0
            &&& bits_of_fraction(a.warmdown_ratio)
            &&& bits_of_fraction(a.final_lr_frac)
            &&& a.gpus > 0
            &&& divides_evenly(
                a.gpus as int * a.device_batch as int * a.sequence_len as int,
                a.total_batch as int,
            )
            &&& a.eval_every > 0 ==> a.eval_steps > 0
            &&& a.sample_every > 0 ==> a.sample_tokens > 0
            &&& !(0x8000_0000_0000_0000 < a.sample_temperature.bits <= 0xfff0_0000_0000_0000)
        },
        match pretrain_fault(a) {
            None => true,
            Some(PretrainFault::DeviceBatch) => a.device_batch == 0,
            Some(PretrainFault::SequenceLen) => a.sequence_len == 0,
            Some(PretrainFault::NumIters) => a.num_iters == 0,
            Some(PretrainFault::LogEvery) => a.log_every == 0,
            Some(PretrainFault::WarmdownRatio) => !bits_of_fraction(a.warmdown_ratio),
            Some(PretrainFault::FinalLrFrac) => !bits_of_fraction(a.final_lr_frac),
            Some(PretrainFault::Gpus) => a.gpus == 0,
            Some(PretrainFault::Geometry(_)) => !divides_evenly(
                a.gpus as int * a.device_batch as int * a.sequence_len as int,
                a.total_batch as int,
            ),
            Some(PretrainFault::EvalSteps) => a.eval_every > 0 && a.eval_steps == 0,
            Some(PretrainFault::SampleTokens) => a.sample_every > 0 && a.sample_tokens == 0,
            Some(PretrainFault::SampleTemperature) => a.sample_temperature.bits
                > 0x8000_0000_0000_0000,
        },
{
    numbers_are_told_by_their_bits(a.warmdown_ratio);
    numbers_are_told_by_their_bits(a.final_lr_frac);
    numbers_are_told_by_their_bits(a.sample_temperature);
    total_batches_are_whole_micro_batches(
        a.gpus as int,
        a.device_batch as int,
        a.sequence_len as int,
        a.total_batch as int,
    );
}

/// A download is accepted if and only if it asks for shards that there are, with
/// someone to fetch them, and its validation shard is one of them or none.
pub proof fn downloads_are_of_shards_that_there_are(a: DownloadArgs)
    ensures
        download_outcome(a) is Ok <==> {
            &&& a.num > 0
            &&& a.workers > 0
            &&& a.start + a.num <= 6543
            &&& val_shard_of(a.val_shard@) is Ok
        },
        download_outcome(a) is Ok ==> download_outcome(a) == val_shard_of(a.val_shard@),
        match download_outcome(a) {
            Ok(_) => true,
            Err(DownloadFault::Num) => a.num == 0,
            Err(DownloadFault::Workers) => a.workers == 0,
            Err(DownloadFault::Range(last)) => {
                &&& a.start + a.num > 6543
                &&& last == a.start + a.num - 1 || (last == usize::MAX && a.start + a.num - 1
                    > usize::MAX)
            },
            Err(e) => val_shard_of(a.val_shard@) == Err::<Option<int>, DownloadFault>(e),
        },
{
}

/// A validation shard is asked for by its number, or ruled out by a word; space around
/// it and the case of the word do not matter.
pub proof fn validation_shards_are_numbers_or_none(spec: Seq<char>)
    ensures
        val_shard_of(spec) == Ok::<Option<int>, DownloadFault>(None) <==> same_but_case(
            trimmed(spec),
            "none"@,
        ) || same_but_case(trimmed(spec), "skip"@),
        match val_shard_of(spec) {
            Ok(None) => true,
            Ok(Some(v)) => {
                &&& 0 <= v <= 6542
                &&& unsigned_value(trimmed(spec), usize::MAX as nat) == Some(v as nat)
            },
            Err(_) => match unsigned_value(trimmed(spec), usize::MAX as nat) {
                None => true,
                Some(v) => v > 6542,
            },
        },
{
}

// ---------------------------------------------------------------------------
// Mixtures
// ---------------------------------------------------------------------------

/// The training mixture is SmolTalk once, the identity conversations twice, and the
/// other two as often as they have epochs, one behind the other and each whole.
pub proof fn training_mixtures_repeat_their_sources(
    smoltalk: Seq<Seq<MessageModel>>,
    identity: Seq<Seq<MessageModel>>,
    mmlu: Seq<Seq<MessageModel>>,
    mmlu_epochs: int,
    gsm8k: Seq<Seq<MessageModel>>,
    gsm8k_epochs: int,
    i: int,
)
    requires
        0 <= mmlu_epochs,
        0 <= gsm8k_epochs,
    ensures
        ({
            let all = train_mixture(smoltalk, identity, mmlu, mmlu_epochs, gsm8k, gsm8k_epochs);
            &&& all.len() == 3 + mmlu_epochs + gsm8k_epochs
            &&& all[0] == ("smoltalk"@, smoltalk)
            &&& all[1] == ("identity"@, identity)
            &&& all[2] == ("identity"@, identity)
            &&& 3 <= i < 3 + mmlu_epochs ==> all[i] == ("mmlu"@, mmlu)
            &&& 3 + mmlu_epochs <= i < all.len() ==> all[i] == ("gsm8k"@, gsm8k)
        }),
{
}

/// The validation mixture has SmolTalk, and each of the other two if it is trained on;
/// of each, the first conversations of a shuffle of its own, as many as its cap says.
pub proof fn validation_mixtures_follow_the_training(
    smoltalk: Seq<Seq<MessageModel>>,
    mmlu: Seq<Seq<MessageModel>>,
    mmlu_epochs: int,
    gsm8k: Seq<Seq<MessageModel>>,
    gsm8k_epochs: int,
    budget: int,
    seed: u64,
)
    ensures
        ({
            let all = val_mixture(smoltalk, mmlu, mmlu_epochs, gsm8k, gsm8k_epochs, budget, seed);
            let total = 24_000 + (if mmlu_epochs > 0 {
                5_200int
            } else {
                0
            }) + (if gsm8k_epochs > 0 {
                420int
            } else {
                0
            });
            let share = budget_share(budget, total);
            &&& all.len() == 1 + (if mmlu_epochs > 0 {
                1int
            } else {
                0
            }) + (if gsm8k_epochs > 0 {
                1int
            } else {
                0
            })
            &&& all[0] == (
                "smoltalk"@,
                capped(smoltalk, cap_for(24_000, share, smoltalk.len() as int), seed),
            )
            &&& mmlu_epochs > 0 ==> all[1] == (
                "mmlu"@,
                capped(mmlu, cap_for(5_200, share, mmlu.len() as int), seed),
            )
            &&& gsm8k_epochs > 0 ==> all[all.len() - 1] == (
                "gsm8k"@,
                capped(gsm8k, cap_for(420, share, gsm8k.len() as int), seed),
            )
        }),
{
}

/// A cap is the dataset's size in the proportion of the budget to all sizes, off by one
/// at most, unless it is brought up to one or down to what there is.
pub proof fn caps_follow_the_budget(size: int, budget: int, total: int, available: int)
    requires
        0 < size <= 0x10_0000,
        0 < budget < total,
        1 < cap_for(size, budget_share(budget, total), available) < available,
    ensures
        -total <= cap_for(size, budget_share(budget, total), available) * total - size * budget
            <= total,
{
    let (b, t) = (budget, total);
    let share = budget_share(b, t);
    let (m, u) = (share.0 as int, share.1 as int);
    assert(budget < TOP_MANTISSA * t) by (nonlinear_arith)
        requires
            0 < budget < t,
            TOP_MANTISSA >= 1,
    ;
    quotients_are_off_by_half_a_unit_at_most(b as nat, t as nat);
    assert(2 * (m * t - b * u) <= t && 2 * (m * t - b * u) >= -t);
    // The unit is fine, and the share is no more than one.
    assert(u >= 0x10_0000_0000_0000) by (nonlinear_arith)
        requires
            b * u >= 0x10_0000_0000_0000 * t,
            0 < b < t,
            u > 0,
    ;
    assert(m <= u) by (nonlinear_arith)
        requires
            2 * (m * t - b * u) <= t,
            0 < b <= t - 1,
            u >= 0x10_0000_0000_0000,
            t > 0,
    ;
    let num = (m * size) as nat;
    assert(0 <= m * size && m * size <= size * u) by (nonlinear_arith)
        requires
            0 <= m <= u,
            0 < size,
    ;
    assert(num < TOP_MANTISSA * u) by (nonlinear_arith)
        requires
            num <= size * u,
            size <= 0x10_0000,
            u > 0,
            TOP_MANTISSA > 0x10_0000,
    ;
    quotients_are_off_by_half_a_unit_at_most(num, u as nat);
    let product = nearest(num, u as nat);
    let (p, v) = (product.0 as int, product.1 as int);
    rounding_is_off_by_half_at_most(p as nat, v as nat);
    let h = half_up(p as nat, v as nat) as int;
    assert(h == cap_for(size, share, available));
    assert(m > 0) by {
        if m == 0 {
            assert(m * size == 0) by (nonlinear_arith)
                requires
                    m == 0,
            ;
            assert(p == 0);
            assert(h == 0) by (nonlinear_arith)
                requires
                    -v < 2 * (h * v - 0) <= v,
                    v > 0,
            ;
        }
    }
    assert(m * size > 0) by (nonlinear_arith)
        requires
            m > 0,
            size > 0,
    ;
    assert(v >= 2) by (nonlinear_arith)
        requires
            num * v >= 0x10_0000_0000_0000 * u,
            num <= size * u,
            size <= 0x10_0000,
            u > 0,
            v > 0,
    ;
    lemma_errors_add_up(h, t, size, b, m, u, p, v);
}

proof fn lemma_errors_add_up(
    h: int,
    t: int,
    size: int,
    b: int,
    m: int,
    u: int,
    p: int,
    v: int,
)
    requires
        -t <= 2 * (m * t - b * u) <= t,
        -u <= 2 * (p * u - m * size * v) <= u,
        -v <= 2 * (h * v - p) <= v,
        0 < size <= 0x10_0000,
        u >= 0x10_0000_0000_0000,
        v >= 2,
        t > 0,
    ensures
        -t <= h * t - size * b <= t,
{
    let x = 2 * (h * v - p);
    let y = 2 * (p * u - m * size * v);
    let z = 2 * (m * t - b * u);
    let e = h * t - size * b;
    let (tu, hv, pu, w, sv, mt, bu) = (t * u, h * v, p * u, m * size * v, size * v, m * t, b * u);
    assert(tu * x == 2 * (tu * hv) - 2 * (tu * p)) by (nonlinear_arith)
        requires
            x == 2 * (hv - p),
    ;
    assert(t * y == 2 * (t * pu) - 2 * (t * w)) by (nonlinear_arith)
        requires
            y == 2 * (pu - w),
    ;
    assert(sv * z == 2 * (sv * mt) - 2 * (sv * bu)) by (nonlinear_arith)
        requires
            z == 2 * (mt - bu),
    ;
    assert(tu * p == t * pu) by (nonlinear_arith)
        requires
            tu == t * u,
            pu == p * u,
    ;
    assert(t * w == sv * mt) by {
        assert(w == m * sv) by (nonlinear_arith)
            requires
                w == m * size * v,
                sv == size * v,
        ;
        assert(t * (m * sv) == sv * (m * t)) by (nonlinear_arith);
    }
    let (uv, ht, sb) = (u * v, h * t, size * b);
    assert(tu * hv == uv * ht) by (nonlinear_arith)
        requires
            tu == t * u,
            hv == h * v,
            uv == u * v,
            ht == h * t,
    ;
    assert(sv * bu == uv * sb) by (nonlinear_arith)
        requires
            sv == size * v,
            bu == b * u,
            uv == u * v,
            sb == size * b,
    ;
    assert(2 * (uv * e) == 2 * (uv * ht) - 2 * (uv * sb)) by (nonlinear_arith)
        requires
            e == ht - sb,
    ;
    assert(2 * u * v * e == 2 * (uv * e)) by (nonlinear_arith)
        requires
            uv == u * v,
    ;
    assert(-(t * u * v) <= t * u * x <= t * u * v) by (nonlinear_arith)
        requires
            -v <= x <= v,
            t > 0,
            u > 0,
    ;
    assert(-(t * u) <= t * y <= t * u) by (nonlinear_arith)
        requires
            -u <= y <= u,
            t > 0,
    ;
    assert(-(size * v * t) <= size * v * z <= size * v * t) by (nonlinear_arith)
        requires
            -t <= z <= t,
            size > 0,
            v > 0,
    ;
    assert(t * u + size * v * t <= t * u * v) by (nonlinear_arith)
        requires
            t > 0,
            v >= 2,
            u >= 2 * size,
            size > 0,
    ;
    assert(-t <= e <= t) by (nonlinear_arith)
        requires
            -(2 * (t * u * v)) <= 2 * u * v * e <= 2 * (t * u * v),
            u > 0,
            v > 0,
    ;
}

/// A chat is accepted if and only if replies may have an id, and its temperature is
/// finite and not below 0.
pub proof fn chat_settings_are_checked(c: ChatConfig)
    ensures
        c.fault() is None <==> c.max_tokens > 0 && (c.temperature.bits < 0x7ff0_0000_0000_0000
            || c.temperature.bits == 0x8000_0000_0000_0000),
        c.fault() == Some(ChatConfigError::MaxTokens) <==> c.max_tokens == 0,
{
    numbers_are_told_by_their_bits(c.temperature);
}

/// What is kept of a dataset is the front of its shuffle, as much as the cap says.
pub proof fn caps_keep_the_front_of_the_shuffle(
    convs: Seq<Seq<MessageModel>>,
    cap: int,
    seed: u64,
    k: int,
)
    requires
        0 <= cap,
    ensures
        ({
            let order = shuffled(numbers(convs.len()), seed);
            let kept = capped(convs, cap, seed);
            &&& kept.len() == if order.len() < cap {
                order.len() as int
            } else {
                cap
            }
            &&& 0 <= k < kept.len() ==> kept[k] == convs[order[k] as int]
        }),
{
}

/// A mixture is in the order of the shuffle of its seed.
pub proof fn mixtures_are_shuffled(rendered: Seq<Seq<(u32, bool)>>, seed: u64, k: int)
    ensures
        ({
            let order = shuffled(
                Seq::new(rendered.len(), |i: int| i as usize),
                seed,
            );
            &&& mixed(rendered, seed).len() == order.len()
            &&& 0 <= k < order.len() ==> mixed(rendered, seed)[k] == rendered[order[k] as int]
        }),
{
    assert(numbers(rendered.len()) =~= Seq::new(rendered.len(), |i: int| i as usize));
}

} // verus!
