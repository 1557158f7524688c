//! The rules for what the commands are given.
use vstd::prelude::*;

use crate::binary64::{Real, Real32};
use crate::data::download::{Summary, MAX_SHARD};
use crate::model::config::{ConfigError, GptConfig};
use crate::text::{
    chars_of, decimal, decimal_string, equals_ignoring_case, parse_unsigned, push_decimal, quote,
    quoted, same_but_case, trim, trimmed, unsigned_value,
};
use crate::train::optim::{GroupLrs, GroupWeightDecay};
use crate::train::train_loop::{
    geometry_fault, geometry_fits, ranks_share_the_batch, validate_batch_geometry, TrainConfig,
};

verus! {

// ---------------------------------------------------------------------------
// Pretraining
// ---------------------------------------------------------------------------

/// What a pretraining run is asked to do.
#[derive(Debug, Clone, Copy, PartialEq, Eq, Structural)]
pub struct PretrainArgs {
    pub sequence_len: usize,
    pub n_layer: usize,
    pub n_head: usize,
    pub n_embd: usize,
    pub rope_base: Real32,
    pub norm_eps: Real32,
    pub num_iters: usize,
    pub device_batch: usize,
    /// Tokens per optimizer step, over all ranks.
    pub total_batch: usize,
    pub gpus: usize,
    pub lrs: GroupLrs,
    pub warmup_steps: usize,
    pub warmdown_ratio: Real,
    pub final_lr_frac: Real,
    pub log_every: usize,
    pub eval_every: usize,
    pub eval_steps: usize,
    pub sample_every: usize,
    pub sample_tokens: usize,
    pub sample_temperature: Real,
}

/// What is wrong with it.
#[derive(Debug, Clone, PartialEq, Eq)]
pub enum PretrainError {
    DeviceBatch,
    SequenceLen,
    NumIters,
    LogEvery,
    WarmdownRatio,
    FinalLrFrac,
    Gpus,
    Geometry { reason: String },
    EvalSteps,
    SampleTokens,
    SampleTemperature,
}

/// What is wrong with it, as a mathematical value.
pub enum PretrainFault {
    DeviceBatch,
    SequenceLen,
    NumIters,
    LogEvery,
    WarmdownRatio,
    FinalLrFrac,
    Gpus,
    Geometry(Seq<char>),
    EvalSteps,
    SampleTokens,
    SampleTemperature,
}

impl PretrainError {
    pub open spec fn view(self) -> PretrainFault {
        match self {
            PretrainError::DeviceBatch => PretrainFault::DeviceBatch,
            PretrainError::SequenceLen => PretrainFault::SequenceLen,
            PretrainError::NumIters => PretrainFault::NumIters,
            PretrainError::LogEvery => PretrainFault::LogEvery,
            PretrainError::WarmdownRatio => PretrainFault::WarmdownRatio,
            PretrainError::FinalLrFrac => PretrainFault::FinalLrFrac,
            PretrainError::Gpus => PretrainFault::Gpus,
            PretrainError::Geometry { reason } => PretrainFault::Geometry(reason@),
            PretrainError::EvalSteps => PretrainFault::EvalSteps,
            PretrainError::SampleTokens => PretrainFault::SampleTokens,
            PretrainError::SampleTemperature => PretrainFault::SampleTemperature,
        }
    }

    /// The error as a sentence. Where a value is out of range, the value is to
    /// follow.
    pub open spec fn sentence(self) -> Seq<char> {
        match self {
            PretrainError::DeviceBatch => "--device-batch must be >= 1"@,
            PretrainError::SequenceLen => "--sequence-len must be >= 1"@,
            PretrainError::NumIters => "--num-iters must be >= 1"@,
            PretrainError::LogEvery => "--log-every must be >= 1"@,
            PretrainError::WarmdownRatio => "--warmdown-ratio must be in [0, 1], got "@,
            PretrainError::FinalLrFrac => "--final-lr-frac must be in [0, 1], got "@,
            PretrainError::Gpus => "--gpus must be >= 1"@,
            PretrainError::Geometry { reason } => reason@,
            PretrainError::EvalSteps => "--eval-steps must be >= 1 when --eval-every > 0"@,
            PretrainError::SampleTokens => "--sample-tokens must be >= 1 when --sample-every > 0"@,
            PretrainError::SampleTemperature => "--sample-temperature must be >= 0, got "@,
        }
    }

    /// The error as a sentence. Where a value is out of range, the value is to
    /// follow.
    pub fn message(&self) -> (s: String)
        ensures
            s@ == self.sentence(),
    {
        match self {
            PretrainError::DeviceBatch => String::from_str("--device-batch must be >= 1"),
            PretrainError::SequenceLen => String::from_str("--sequence-len must be >= 1"),
            PretrainError::NumIters => String::from_str("--num-iters must be >= 1"),
            PretrainError::LogEvery => String::from_str("--log-every must be >= 1"),
            PretrainError::WarmdownRatio => String::from_str(
                "--warmdown-ratio must be in [0, 1], got ",
            ),
            PretrainError::FinalLrFrac => String::from_str(
                "--final-lr-frac must be in [0, 1], got ",
            ),
            PretrainError::Gpus => String::from_str("--gpus must be >= 1"),
            PretrainError::Geometry { reason } => reason.clone(),
            PretrainError::EvalSteps => String::from_str(
                "--eval-steps must be >= 1 when --eval-every > 0",
            ),
            PretrainError::SampleTokens => String::from_str(
                "--sample-tokens must be >= 1 when --sample-every > 0",
            ),
            PretrainError::SampleTemperature => String::from_str(
                "--sample-temperature must be >= 0, got ",
            ),
        }
    }
}

/// The first thing wrong with what a pretraining run is asked to do.
pub open spec fn pretrain_fault(a: PretrainArgs) -> Option<PretrainFault> {
    if a.device_batch == 0 {
        Some(PretrainFault::DeviceBatch)
    } else if a.sequence_len == 0 {
        Some(PretrainFault::SequenceLen)
    } else if a.num_iters == 0 {
        Some(PretrainFault::NumIters)
    } else if a.log_every == 0 {
        Some(PretrainFault::LogEvery)
    } else if !a.warmdown_ratio.in_unit() {
        Some(PretrainFault::WarmdownRatio)
    } else if !a.final_lr_frac.in_unit() {
        Some(PretrainFault::FinalLrFrac)
    } else if a.gpus == 0 {
        Some(PretrainFault::Gpus)
    } else {
        match geometry_fault(
            a.gpus as int,
            a.device_batch as int,
            a.sequence_len as int,
            a.total_batch as int,
        ) {
            Some(reason) => Some(PretrainFault::Geometry(reason)),
            None => if a.eval_every > 0 && a.eval_steps == 0 {
                Some(PretrainFault::EvalSteps)
            } else if a.sample_every > 0 && a.sample_tokens == 0 {
                Some(PretrainFault::SampleTokens)
            } else if a.sample_temperature.is_number() && a.sample_temperature.place() < 0 {
                Some(PretrainFault::SampleTemperature)
            } else {
                None
            },
        }
    }
}

/// Checks what a pretraining run is asked to do.
pub fn validate_pretrain_args(a: &PretrainArgs) -> (r: Result<(), PretrainError>)
    requires
        a.num_iters > 0 && a.log_every > 0 && a.warmdown_ratio.in_unit()
            && a.final_lr_frac.in_unit() ==> geometry_fits(
            a.gpus as int,
            a.device_batch as int,
            a.sequence_len as int,
        ),
    ensures
        match r {
            Ok(_) => pretrain_fault(*a) is None,
            Err(e) => pretrain_fault(*a) == Some(e@),
        },
{
    if a.device_batch == 0 {
        return Err(PretrainError::DeviceBatch);
    }
    if a.sequence_len == 0 {
        return Err(PretrainError::SequenceLen);
    }
    if a.num_iters == 0 {
        return Err(PretrainError::NumIters);
    }
    if a.log_every == 0 {
        return Err(PretrainError::LogEvery);
    }
    if !a.warmdown_ratio.is_fraction() {
        return Err(PretrainError::WarmdownRatio);
    }
    if !a.final_lr_frac.is_fraction() {
        return Err(PretrainError::FinalLrFrac);
    }
    if a.gpus == 0 {
        return Err(PretrainError::Gpus);
    }
    match validate_batch_geometry(a.gpus, a.device_batch, a.sequence_len, a.total_batch) {
        Err(reason) => {
            return Err(PretrainError::Geometry { reason });
        },
        Ok(_) => {},
    }
    if a.eval_every > 0 && a.eval_steps == 0 {
        return Err(PretrainError::EvalSteps);
    }
    if a.sample_every > 0 && a.sample_tokens == 0 {
        return Err(PretrainError::SampleTokens);
    }
    if a.sample_temperature.is_below_zero() {
        return Err(PretrainError::SampleTemperature);
    }
    Ok(())
}

/// What a pretraining run comes to: the model's shape, and what the training
/// loop is asked to do.
#[derive(Debug, Clone, Copy, PartialEq, Eq, Structural)]
pub struct PretrainPlan {
    pub model: GptConfig,
    pub train: TrainConfig,
}

/// Why a pretraining run cannot start.
#[derive(Debug, Clone, PartialEq, Eq)]
pub enum PlanError {
    Args { error: PretrainError },
    Model { fault: ConfigError },
}

/// What a pretraining run comes to with a vocabulary of a size. Every target is
/// scored, and the decays are those of pretraining.
pub fn plan_pretraining(a: &PretrainArgs, vocab_size: usize) -> (r: Result<
    PretrainPlan,
    PlanError,
>)
    requires
        a.num_iters > 0 && a.log_every > 0 && a.warmdown_ratio.in_unit()
            && a.final_lr_frac.in_unit() ==> geometry_fits(
            a.gpus as int,
            a.device_batch as int,
            a.sequence_len as int,
        ),
    ensures
        match r {
            Ok(p) => {
                &&& pretrain_fault(*a) is None
                &&& p.model == (GptConfig {
                    vocab_size,
                    sequence_len: a.sequence_len,
                    n_layer: a.n_layer,
                    n_head: a.n_head,
                    n_embd: a.n_embd,
                    rope_base: a.rope_base,
                    norm_eps: a.norm_eps,
                })
                &&& p.model.wf()
                &&& p.train.num_iters == a.num_iters
                &&& p.train.grad_accum >= 1
                &&& p.train.grad_accum * (a.gpus * a.device_batch * a.sequence_len)
                    == a.total_batch
                &&& p.train.tokens_per_step == a.total_batch as int / a.gpus as int
                &&& p.train.tokens_per_step == p.train.grad_accum * a.device_batch * a.sequence_len
                &&& !p.train.targets_may_be_ignored
                &&& p.train.lrs == a.lrs
                &&& p.train.weight_decays.embedding.bits == 0x3f50_624d_d2f1_a9fcu64
                &&& p.train.weight_decays.unembedding.bits == 0x3f84_7ae1_47ae_147bu64
                &&& p.train.weight_decays.matrix.bits == 0x3fb9_9999_9999_999au64
                &&& p.train.warmup_steps == a.warmup_steps
                &&& p.train.warmdown_ratio == a.warmdown_ratio
                &&& p.train.final_lr_frac == a.final_lr_frac
                &&& p.train.log_every == a.log_every
            },
            Err(PlanError::Args { error }) => pretrain_fault(*a) == Some(error@),
            Err(PlanError::Model { fault }) => {
                &&& pretrain_fault(*a) is None
                &&& fault == if a.n_head == 0 {
                    ConfigError::NoHeads
                } else {
                    ConfigError::HeadsDoNotDivide { n_embd: a.n_embd, n_head: a.n_head }
                }
                &&& a.n_head == 0 || a.n_embd % a.n_head != 0
            },
        },
{
    match validate_pretrain_args(a) {
        Ok(_) => {},
        Err(error) => {
            return Err(PlanError::Args { error });
        },
    }
    let grad_accum: usize = match validate_batch_geometry(
        a.gpus,
        a.device_batch,
        a.sequence_len,
        a.total_batch,
    ) {
        Ok(n) => n,
        Err(reason) => {
            assert(false);
            return Err(PlanError::Args { error: PretrainError::Geometry { reason } });
        },
    };
    let model = GptConfig {
        vocab_size,
        sequence_len: a.sequence_len,
        n_layer: a.n_layer,
        n_head: a.n_head,
        n_embd: a.n_embd,
        rope_base: a.rope_base,
        norm_eps: a.norm_eps,
    };
    match model.validate() {
        Ok(_) => {},
        Err(fault) => {
            return Err(PlanError::Model { fault });
        },
    }
    proof {
        ranks_share_the_batch(
            a.gpus as int,
            a.device_batch as int,
            a.sequence_len as int,
            a.total_batch as int,
            grad_accum as int,
        );
    }
    Ok(
        PretrainPlan {
            model,
            train: TrainConfig {
                num_iters: a.num_iters,
                grad_accum,
                tokens_per_step: a.total_batch / a.gpus,
                targets_may_be_ignored: false,
                lrs: a.lrs,
                weight_decays: GroupWeightDecay::default(),
                warmup_steps: a.warmup_steps,
                warmdown_ratio: a.warmdown_ratio,
                final_lr_frac: a.final_lr_frac,
                log_every: a.log_every,
            },
        },
    )
}

// ---------------------------------------------------------------------------
// Downloads
// ---------------------------------------------------------------------------

/// What a download is asked to fetch.
#[derive(Debug, Clone, PartialEq, Eq)]
pub struct DownloadArgs {
    pub start: usize,
    pub num: usize,
    pub workers: usize,
    pub val_shard: String,
    pub base_url: String,
}

/// What is wrong with it.
#[derive(Debug, Clone, PartialEq, Eq)]
pub enum DownloadError {
    Num,
    Workers,
    Range { last: usize },
    ValShardText { text: String },
    ValShardRange { given: usize },
}

/// What is wrong with it, as a mathematical value.
pub enum DownloadFault {
    Num,
    Workers,
    Range(int),
    ValShardText(Seq<char>),
    ValShardRange(int),
}

impl DownloadError {
    pub open spec fn view(self) -> DownloadFault {
        match self {
            DownloadError::Num => DownloadFault::Num,
            DownloadError::Workers => DownloadFault::Workers,
            DownloadError::Range { last } => DownloadFault::Range(last as int),
            DownloadError::ValShardText { text } => DownloadFault::ValShardText(text@),
            DownloadError::ValShardRange { given } => DownloadFault::ValShardRange(given as int),
        }
    }

    /// The error as a sentence.
    pub open spec fn sentence(self) -> Seq<char> {
        match self {
            DownloadError::Num => "--num must be >= 1"@,
            DownloadError::Workers => "--workers must be >= 1"@,
            DownloadError::Range { last } => "shard range ends at "@ + decimal(last as nat)
                + ", past the last shard index ("@ + decimal(MAX_SHARD as nat)
                + "); reduce --start/--num"@,
            DownloadError::ValShardText { text } =>
                "--val-shard must be a shard index or \"none\", got "@ + quoted(text@),
            DownloadError::ValShardRange { given } => "--val-shard "@ + decimal(given as nat)
                + " exceeds the last shard index ("@ + decimal(MAX_SHARD as nat) + ")"@,
        }
    }

    /// The error as a sentence.
    pub fn message(&self) -> (s: String)
        ensures
            s@ == self.sentence(),
    {
        match self {
            DownloadError::Num => String::from_str("--num must be >= 1"),
            DownloadError::Workers => String::from_str("--workers must be >= 1"),
            DownloadError::Range { last } => {
                let mut s = String::from_str("shard range ends at ");
                push_decimal(&mut s, *last as u64);
                s.append(", past the last shard index (");
                push_decimal(&mut s, MAX_SHARD as u64);
                s.append("); reduce --start/--num");
                s
            },
            DownloadError::ValShardText { text } => {
                let mut s = String::from_str(
                    "--val-shard must be a shard index or \"none\", got ",
                );
                s.append(quote(text.as_str()).as_str());
                s
            },
            DownloadError::ValShardRange { given } => {
                let mut s = String::from_str("--val-shard ");
                push_decimal(&mut s, *given as u64);
                s.append(" exceeds the last shard index (");
                push_decimal(&mut s, MAX_SHARD as u64);
                s.append(")");
                s
            },
        }
    }
}

/// The validation shard that a text asks for: none, or one of the shards.
pub open spec fn val_shard_of(spec: Seq<char>) -> Result<Option<int>, DownloadFault> {
    let s = trimmed(spec);
    if same_but_case(s, "none"@) || same_but_case(s, "skip"@) {
        Ok(None)
    } else {
        match unsigned_value(s, usize::MAX as nat) {
            None => Err(DownloadFault::ValShardText(spec)),
            Some(v) => if v > MAX_SHARD {
                Err(DownloadFault::ValShardRange(v as int))
            } else {
                Ok(Some(v as int))
            },
        }
    }
}

/// The validation shard that a text asks for.
pub fn parse_val_shard(spec: &str) -> (r: Result<Option<usize>, DownloadError>)
    ensures
        match r {
            Ok(None) => val_shard_of(spec@) == Ok::<Option<int>, DownloadFault>(None),
            Ok(Some(v)) => val_shard_of(spec@) == Ok::<Option<int>, DownloadFault>(Some(v as int)),
            Err(e) => val_shard_of(spec@) == Err::<Option<int>, DownloadFault>(e@),
        },
{
    let chars = chars_of(spec);
    let s = trim(chars.as_slice());
    if equals_ignoring_case(s, "none") || equals_ignoring_case(s, "skip") {
        return Ok(None);
    }
    match parse_unsigned(s, usize::MAX as u64) {
        None => Err(DownloadError::ValShardText { text: String::from_str(spec) }),
        Some(v) => {
            let v: usize = v as usize;
            if v > MAX_SHARD {
                Err(DownloadError::ValShardRange { given: v })
            } else {
                Ok(Some(v))
            }
        },
    }
}

/// The last shard of the range, or the greatest number there is.
pub open spec fn last_shard(start: int, num: int) -> int {
    if start + num - 1 > usize::MAX {
        usize::MAX as int
    } else {
        start + num - 1
    }
}

/// The validation shard of a download, or the first thing wrong with it.
pub open spec fn download_outcome(a: DownloadArgs) -> Result<Option<int>, DownloadFault> {
    if a.num == 0 {
        Err(DownloadFault::Num)
    } else if a.workers == 0 {
        Err(DownloadFault::Workers)
    } else if last_shard(a.start as int, a.num as int) > MAX_SHARD {
        Err(DownloadFault::Range(last_shard(a.start as int, a.num as int)))
    } else {
        val_shard_of(a.val_shard@)
    }
}

/// Checks what a download is asked to fetch, and returns its validation shard.
pub fn validate_download_args(a: &DownloadArgs) -> (r: Result<Option<usize>, DownloadError>)
    ensures
        match r {
            Ok(None) => download_outcome(*a) == Ok::<Option<int>, DownloadFault>(None),
            Ok(Some(v)) => download_outcome(*a) == Ok::<Option<int>, DownloadFault>(
                Some(v as int),
            ),
            Err(e) => download_outcome(*a) == Err::<Option<int>, DownloadFault>(e@),
        },
        r is Ok ==> a.start + a.num <= MAX_SHARD + 1,
{
    if a.num == 0 {
        return Err(DownloadError::Num);
    }
    if a.workers == 0 {
        return Err(DownloadError::Workers);
    }
    let last: usize = if a.num - 1 > usize::MAX - a.start {
        usize::MAX
    } else {
        a.start + (a.num - 1)
    };
    if last > MAX_SHARD {
        return Err(DownloadError::Range { last });
    }
    parse_val_shard(a.val_shard.as_str())
}

/// What to say of a finished download: nothing, if no file failed.
pub open spec fn failure_text(s: Summary, what: Seq<char>) -> Option<Seq<char>> {
    if s.failed == 0 {
        None
    } else {
        Some(
            decimal(s.failed as nat) + " of "@ + decimal(s.requested as nat) + " "@ + what
                + "(s) failed to download"@,
        )
    }
}

/// What to say of a finished download of shards or files: nothing, if none
/// failed.
pub fn download_failure(s: &Summary, what: &str) -> (r: Option<String>)
    ensures
        match r {
            Some(text) => failure_text(*s, what@) == Some(text@),
            None => failure_text(*s, what@) is None,
        },
{
    if s.failed == 0 {
        return None;
    }
    let mut text = decimal_string(s.failed as u64);
    text.append(" of ");
    push_decimal(&mut text, s.requested as u64);
    text.append(" ");
    text.append(what);
    text.append("(s) failed to download");
    Some(text)
}

// ---------------------------------------------------------------------------
// Processes that train together
// ---------------------------------------------------------------------------

/// The place of a spawned process, as its environment gives it.
#[derive(Debug, Clone, Copy, PartialEq, Eq, Structural)]
pub struct ChildEnv {
    pub rank: usize,
    pub world_size: usize,
}

/// What a process is to do.
#[derive(Debug, Clone, Copy, PartialEq, Eq, Structural)]
pub enum ProcessRole {
    /// Spawn a process per device and watch them.
    Launch,
    /// Train alone.
    Alone,
    /// Train as one of several.
    Rank { env: ChildEnv },
    /// The environment does not agree with the number of devices asked for.
    Disagree { env: ChildEnv },
}

/// What a process is to do: a spawned one trains as its environment says, if
/// that agrees with the number of devices; another launches if more than one
/// device is asked for.
pub fn process_role(child: Option<ChildEnv>, gpus: usize) -> (r: ProcessRole)
    ensures
        r == match child {
            None => if gpus > 1 {
                ProcessRole::Launch
            } else {
                ProcessRole::Alone
            },
            Some(env) => if env.world_size != gpus {
                ProcessRole::Disagree { env }
            } else {
                ProcessRole::Rank { env }
            },
        },
{
    match child {
        None => {
            if gpus > 1 {
                ProcessRole::Launch
            } else {
                ProcessRole::Alone
            }
        },
        Some(env) => {
            if env.world_size != gpus {
                ProcessRole::Disagree { env }
            } else {
                ProcessRole::Rank { env }
            }
        },
    }
}

/// Which of the spawned processes have ended.
#[derive(Debug, Clone, PartialEq, Eq)]
pub struct RankWatch {
    pub exited: Vec<bool>,
}

/// The processes below `n` that have not ended, in order.
pub open spec fn still_running(exited: Seq<bool>, n: int) -> Seq<usize>
    decreases n,
{
    if n <= 0 {
        Seq::empty()
    } else if exited[n - 1] {
        still_running(exited, n - 1)
    } else {
        still_running(exited, n - 1).push((n - 1) as usize)
    }
}

impl RankWatch {
    /// Over `n` processes, none of which has ended.
    pub fn new(n: usize) -> (r: RankWatch)
        ensures
            r.exited@ == Seq::new(n as nat, |i: int| false),
    {
        let mut exited: Vec<bool> = Vec::new();
        let mut i: usize = 0;
        while i < n
            invariant
                i <= n,
                exited@ =~= Seq::new(i as nat, |k: int| false),
            decreases n - i,
        {
            exited.push(false);
            i += 1;
        }
        RankWatch { exited }
    }

    /// Whether all processes have ended.
    pub fn all_exited(&self) -> (r: bool)
        ensures
            r == forall|i: int| 0 <= i < self.exited@.len() ==> #[trigger] self.exited@[i],
    {
        let mut i: usize = 0;
        while i < self.exited.len()
            invariant
                i <= self.exited@.len(),
                forall|k: int| 0 <= k < i ==> #[trigger] self.exited@[k],
            decreases self.exited@.len() - i,
        {
            if !self.exited[i] {
                return false;
            }
            i += 1;
        }
        true
    }

    /// Notes what a poll of a process found: that it still runs (`None`), or
    /// whether it ended well. If it did not, the processes that still run are
    /// to be killed, and are returned.
    pub fn polled(&mut self, rank: usize, success: Option<bool>) -> (kill: Option<Vec<usize>>)
        requires
            rank < old(self).exited@.len(),
        ensures
            final(self).exited@ == match success {
                None => old(self).exited@,
                Some(_) => old(self).exited@.update(rank as int, true),
            },
            match kill {
                Some(ranks) => {
                    &&& success == Some(false)
                    &&& ranks@ == still_running(
                        final(self).exited@,
                        final(self).exited@.len() as int,
                    )
                },
                None => success != Some(false),
            },
    {
        match success {
            None => None,
            Some(success) => {
                self.exited[rank] = true;
                if success {
                    return None;
                }
                let mut ranks: Vec<usize> = Vec::new();
                let mut j: usize = 0;
                while j < self.exited.len()
                    invariant
                        j <= self.exited@.len(),
                        ranks@ == still_running(self.exited@, j as int),
                    decreases self.exited@.len() - j,
                {
                    if !self.exited[j] {
                        ranks.push(j);
                    }
                    j += 1;
                }
                Some(ranks)
            },
        }
    }
}

/// When a process fails, exactly those are killed that had not ended, and not
/// the failed one.
pub proof fn killed_are_those_that_run(exited: Seq<bool>, failed: int, rank: int)
    requires
        0 <= failed < exited.len(),
        exited.len() <= usize::MAX,
        0 <= rank < exited.len(),
    ensures
        still_running(exited.update(failed, true), exited.len() as int).contains(rank as usize)
            <==> rank != failed && !exited[rank],
{
    let after = exited.update(failed, true);
    lemma_still_running(after, exited.len() as int, rank);
}

proof fn lemma_still_running(exited: Seq<bool>, n: int, rank: int)
    requires
        0 <= n <= exited.len(),
        exited.len() <= usize::MAX,
        0 <= rank < exited.len(),
    ensures
        still_running(exited, n).contains(rank as usize) <==> rank < n && !exited[rank],
    decreases n,
{
    if n > 0 {
        lemma_still_running(exited, n - 1, rank);
        let before = still_running(exited, n - 1);
        if !exited[n - 1] {
            let all = before.push((n - 1) as usize);
            assert(all[before.len() as int] == (n - 1) as usize);
            if before.contains(rank as usize) {
                let k = choose|k: int| 0 <= k < before.len() && before[k] == rank as usize;
                assert(all[k] == rank as usize);
            }
            if all.contains(rank as usize) && rank != n - 1 {
                let k = choose|k: int| 0 <= k < all.len() && all[k] == rank as usize;
                assert(before[k] == rank as usize);
            }
        }
    }
}

} // verus!
