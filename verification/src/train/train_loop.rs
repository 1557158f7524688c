//! The course of a training run: how often gradients accumulate, which hooks
//! fire at which step, and in what order everything happens.
use vstd::prelude::*;

use crate::binary64::{Real, Real32, INFINITE_SIZE};
use crate::text::{decimal, push_decimal, push_zero_padded, zero_padded};
use crate::tokenizer::bpe::BpeTokenizer;
use crate::tokenizer::chat::prompt_ids;
use crate::tokenizer::shared::TokenId;
use crate::train::optim::{GroupLrs, GroupWeightDecay};

verus! {

// ---------------------------------------------------------------------------
// Batch geometry
// ---------------------------------------------------------------------------

/// What is wrong with a batch geometry.
pub open spec fn geometry_fault(
    gpus: int,
    device_batch: int,
    sequence_len: int,
    total_batch: int,
) -> Option<Seq<char>> {
    let per_step = gpus * device_batch * sequence_len;
    if gpus == 0 {
        Some("gpus must be >= 1"@)
    } else if device_batch == 0 {
        Some("device_batch must be >= 1"@)
    } else if sequence_len == 0 {
        Some("sequence_len must be >= 1"@)
    } else if total_batch % per_step != 0 {
        Some(
            "--total-batch ("@ + decimal(total_batch as nat)
                + ") must be a multiple of gpus*device_batch*seq_len ("@ + decimal(
                per_step as nat,
            ) + ")"@,
        )
    } else if total_batch / per_step == 0 {
        Some(
            "--total-batch ("@ + decimal(total_batch as nat)
                + ") must be at least gpus*device_batch*seq_len ("@ + decimal(per_step as nat)
                + ")"@,
        )
    } else {
        None
    }
}

/// The tokens of one micro-batch over all ranks can be counted.
pub open spec fn geometry_fits(gpus: int, device_batch: int, sequence_len: int) -> bool {
    gpus > 0 && device_batch > 0 && sequence_len > 0 ==> gpus * device_batch * sequence_len
        <= usize::MAX
}

/// How many micro-batches each rank runs per step, so that all ranks together
/// reach the total batch; or what is wrong.
pub fn validate_batch_geometry(
    gpus: usize,
    device_batch: usize,
    sequence_len: usize,
    total_batch: usize,
) -> (r: Result<usize, String>)
    requires
        geometry_fits(gpus as int, device_batch as int, sequence_len as int),
    ensures
        match r {
            Ok(grad_accum) => {
                &&& geometry_fault(
                    gpus as int,
                    device_batch as int,
                    sequence_len as int,
                    total_batch as int,
                ) is None
                &&& grad_accum == total_batch as int / (gpus * device_batch * sequence_len)
                &&& grad_accum >= 1
                &&& grad_accum * (gpus * device_batch * sequence_len) == total_batch
            },
            Err(e) => geometry_fault(
                gpus as int,
                device_batch as int,
                sequence_len as int,
                total_batch as int,
            ) == Some(e@),
        },
{
    if gpus == 0 {
        return Err(String::from_str("gpus must be >= 1"));
    }
    if device_batch == 0 {
        return Err(String::from_str("device_batch must be >= 1"));
    }
    if sequence_len == 0 {
        return Err(String::from_str("sequence_len must be >= 1"));
    }
    proof {
        let (g, d, s) = (gpus as int, device_batch as int, sequence_len as int);
        assert(0 < g * d <= g * d * s) by (nonlinear_arith)
            requires
                g > 0,
                d > 0,
                s > 0,
        ;
    }
    let per_step: usize = gpus * device_batch * sequence_len;
    let ghost p = per_step as int;
    if total_batch % per_step != 0 {
        let mut e = String::from_str("--total-batch (");
        push_decimal(&mut e, total_batch as u64);
        e.append(") must be a multiple of gpus*device_batch*seq_len (");
        push_decimal(&mut e, per_step as u64);
        e.append(")");
        return Err(e);
    }
    let grad_accum: usize = total_batch / per_step;
    if grad_accum == 0 {
        let mut e = String::from_str("--total-batch (");
        push_decimal(&mut e, total_batch as u64);
        e.append(") must be at least gpus*device_batch*seq_len (");
        push_decimal(&mut e, per_step as u64);
        e.append(")");
        return Err(e);
    }
    proof {
        vstd::arithmetic::div_mod::lemma_fundamental_div_mod(total_batch as int, p);
        assert(grad_accum * p == p * grad_accum) by (nonlinear_arith);
    }
    Ok(grad_accum)
}

/// What a training loop is asked to do.
#[derive(Debug, Clone, Copy, PartialEq, Eq, Structural)]
pub struct TrainConfig {
    pub num_iters: usize,
    /// Micro-batches per step.
    pub grad_accum: usize,
    /// Tokens per step of one rank.
    pub tokens_per_step: usize,
    /// Whether some targets are not scored, so that a step counts those that
    /// are.
    pub targets_may_be_ignored: bool,
    pub lrs: GroupLrs,
    pub weight_decays: GroupWeightDecay,
    pub warmup_steps: usize,
    pub warmdown_ratio: Real,
    pub final_lr_frac: Real,
    pub log_every: usize,
}

/// Where the batch geometry works out, the micro-batches of one rank hold that
/// rank's equal share of the total batch.
pub proof fn ranks_share_the_batch(
    gpus: int,
    device_batch: int,
    sequence_len: int,
    total_batch: int,
    grad_accum: int,
)
    requires
        gpus > 0,
        device_batch > 0,
        sequence_len > 0,
        grad_accum * (gpus * device_batch * sequence_len) == total_batch,
    ensures
        total_batch / gpus == grad_accum * device_batch * sequence_len,
        total_batch % gpus == 0,
{
    let share = grad_accum * device_batch * sequence_len;
    assert(total_batch == share * gpus) by (nonlinear_arith)
        requires
            share == grad_accum * device_batch * sequence_len,
            grad_accum * (gpus * device_batch * sequence_len) == total_batch,
    ;
    vstd::arithmetic::div_mod::lemma_fundamental_div_mod_converse(
        total_batch,
        gpus,
        share,
        0,
    );
}

/// Whether a batch has the shape that the tokens of a step were counted with.
pub fn batch_shape_agrees(
    grad_accum: usize,
    rows: usize,
    tokens: usize,
    tokens_per_step: usize,
) -> (r: bool)
    requires
        grad_accum * rows <= usize::MAX,
        grad_accum * rows * tokens <= usize::MAX,
    ensures
        r == (grad_accum * rows * tokens == tokens_per_step),
{
    grad_accum * rows * tokens == tokens_per_step
}

// ---------------------------------------------------------------------------
// Hooks
// ---------------------------------------------------------------------------

/// Whether a hook with cadence `every` fires at a step: never for a cadence of
/// 0, else at the last step and at every multiple but the first.
pub open spec fn fires(step: int, num_iters: int, every: int) -> bool {
    every != 0 && (step == num_iters || (step > 0 && step % every == 0))
}

/// Whether a hook with cadence `every` fires at a step.
pub fn cadence_fires(step: usize, num_iters: usize, every: usize) -> (r: bool)
    ensures
        r == fires(step as int, num_iters as int, every as int),
{
    if every == 0 {
        return false;
    }
    step == num_iters || (step > 0 && step % every == 0)
}

/// What a sample is continued from: the text, or the text as a user turn.
pub open spec fn sample_ids(tok: BpeTokenizer, prompt: Seq<char>, chat: bool) -> Seq<u32> {
    seq![tok.first_special() as u32] + if chat {
        prompt_ids(tok, prompt)
    } else {
        tok.text_ids(prompt)
    }
}

/// What a sample is continued from.
pub fn sample_prefix(tok: &BpeTokenizer, prompt: &str, chat: bool) -> (ids: Vec<TokenId>)
    requires
        BpeTokenizer::can_split(prompt@),
    ensures
        ids@ == sample_ids(*tok, prompt@, chat),
{
    let mut ids: Vec<TokenId> = Vec::new();
    ids.push(tok.bos_id());
    if chat {
        tok.push_user_turn(&mut ids, prompt);
    } else {
        let mut body = tok.encode(prompt);
        ids.append(&mut body);
    }
    assert(ids@ =~= sample_ids(*tok, prompt@, chat));
    ids
}

/// What a sample is continued from, or `None` if the regex engine gives up on
/// the prompt.
pub fn try_sample_prefix(tok: &BpeTokenizer, prompt: &str, chat: bool) -> (r: Option<Vec<TokenId>>)
    ensures
        match r {
            Some(ids) => BpeTokenizer::can_split(prompt@) && ids@ == sample_ids(
                *tok,
                prompt@,
                chat,
            ),
            None => !BpeTokenizer::can_split(prompt@),
        },
{
    if tok.can_encode(prompt) {
        Some(sample_prefix(tok, prompt, chat))
    } else {
        None
    }
}

/// The number of prompts that are sampled from.
pub const SAMPLE_PROMPT_COUNT: usize = 4;

/// The prompts that are sampled from.
pub open spec fn prompt_text(i: int) -> Seq<char> {
    if i == 0 {
        ""@
    } else if i == 1 {
        "The capital of France is"@
    } else if i == 2 {
        "The opposite of hot is"@
    } else {
        "My favorite color is"@
    }
}

/// The prompts that are sampled from.
pub fn sample_prompt(i: usize) -> (s: &'static str)
    requires
        i < SAMPLE_PROMPT_COUNT,
    ensures
        s@ == prompt_text(i as int),
{
    match i {
        0 => "",
        1 => "The capital of France is",
        2 => "The opposite of hot is",
        _ => "My favorite color is",
    }
}

/// Seconds as hours, minutes and seconds, each with at least two digits.
pub open spec fn hms(secs: nat) -> Seq<char> {
    zero_padded(secs / 3600, 2) + ":"@ + zero_padded((secs % 3600) / 60, 2) + ":"@ + zero_padded(
        secs % 60,
        2,
    )
}

/// Seconds as hours, minutes and seconds.
pub fn fmt_hms(secs: u64) -> (s: String)
    ensures
        s@ == hms(secs as nat),
{
    let mut s = String::new();
    push_zero_padded(&mut s, secs / 3600, 2);
    s.append(":");
    push_zero_padded(&mut s, (secs % 3600) / 60, 2);
    s.append(":");
    push_zero_padded(&mut s, secs % 60, 2);
    assert(s@ =~= hms(secs as nat));
    s
}

// ---------------------------------------------------------------------------
// Losses
// ---------------------------------------------------------------------------

/// A run is to end: its loss is no finite number.
#[derive(Debug, Clone, Copy, PartialEq, Eq, Structural)]
pub struct NonFiniteLoss {
    pub loss: Real32,
    pub step: usize,
}

/// Checks that the loss at a step is a finite number.
pub fn check_finite(loss: Real32, step: usize) -> (r: Result<(), NonFiniteLoss>)
    ensures
        match r {
            Ok(_) => loss.finite(),
            Err(e) => !loss.finite() && e == (NonFiniteLoss { loss, step }),
        },
{
    if !loss.is_finite() {
        return Err(NonFiniteLoss { loss, step });
    }
    Ok(())
}

/// The best score so far: the lowest, and infinity before the first.
#[derive(Debug, Clone, Copy, PartialEq, Eq, Structural)]
pub struct BestScore {
    pub score: Real,
}

/// The best of scores in the order in which they come.
pub open spec fn best_of(scores: Seq<Real>) -> Real
    decreases scores.len(),
{
    if scores.len() == 0 {
        Real { bits: INFINITE_SIZE }
    } else if scores.last().below(best_of(scores.drop_last())) {
        scores.last()
    } else {
        best_of(scores.drop_last())
    }
}

impl BestScore {
    /// Before the first score.
    pub fn new() -> (b: BestScore)
        ensures
            b.score == best_of(Seq::empty()),
    {
        BestScore { score: Real { bits: INFINITE_SIZE } }
    }

    /// Takes a score, and tells whether it is better than all before it, so that
    /// the model is to be saved.
    pub fn take(&mut self, score: Real) -> (better: bool)
        ensures
            better == score.below(old(self).score),
            final(self).score == if better {
                score
            } else {
                old(self).score
            },
            forall|before: Seq<Real>|
                old(self).score == best_of(before) ==> final(self).score == #[trigger] best_of(
                    before.push(score),
                ),
    {
        let better = score.is_less(&self.score);
        if better {
            self.score = score;
        }
        proof {
            assert forall|before: Seq<Real>| old(self).score == best_of(before) implies self.score
                == #[trigger] best_of(before.push(score)) by {
                assert(before.push(score).drop_last() =~= before);
            }
        }
        better
    }
}

/// No score is below the best, and the best is one of the scores or infinity.
pub proof fn best_is_the_lowest(scores: Seq<Real>, i: int)
    requires
        0 <= i < scores.len(),
    ensures
        !scores[i].below(best_of(scores)),
        best_of(scores) == (Real { bits: INFINITE_SIZE }) || scores.contains(best_of(scores)),
    decreases scores.len(),
{
    let before = scores.drop_last();
    if before.len() > 0 {
        let k = if i < before.len() {
            i
        } else {
            0
        };
        best_is_the_lowest(before, k);
        assert(before[k] == scores[k]);
        if before.contains(best_of(before)) {
            let j = choose|j: int| 0 <= j < before.len() && before[j] == best_of(before);
            assert(scores[j] == best_of(before));
        }
    } else {
        assert(best_of(before) == (Real { bits: INFINITE_SIZE }));
    }
    assert(scores[scores.len() - 1] == scores.last());
}

// ---------------------------------------------------------------------------
// The plan of a run
// ---------------------------------------------------------------------------

/// How a run is paced.
#[derive(Debug, Clone, Copy, PartialEq, Eq, Structural)]
pub struct Pace {
    pub num_iters: usize,
    pub grad_accum: usize,
    pub log_every: usize,
    pub eval_every: usize,
    pub sample_every: usize,
    /// Whether the gradients are corrected to the number of scored targets.
    pub rescale: bool,
    /// Whether this rank owns the side effects.
    pub master: bool,
}

/// What a run does next.
#[derive(Debug, Clone, Copy, PartialEq, Eq, Structural)]
pub enum TrainAction {
    /// Evaluate.
    Eval { step: usize },
    /// Sample.
    Sample { step: usize },
    /// Run one micro-batch.
    Micro { step: usize, micro: usize },
    /// Correct the gradients to the number of scored targets.
    Rescale { step: usize },
    /// Average the gradients over the ranks and step the optimizer.
    Update { step: usize },
    /// Log, with the number of steps since the last log.
    Log { step: usize, window: usize },
    /// The run is over.
    Finish,
}

/// The evaluation at a step, if there is one.
pub open spec fn eval_part(p: Pace, step: int) -> Seq<TrainAction> {
    if fires(step, p.num_iters as int, p.eval_every as int) {
        seq![TrainAction::Eval { step: step as usize }]
    } else {
        Seq::empty()
    }
}

/// The samples at a step, if there are any.
pub open spec fn sample_part(p: Pace, step: int) -> Seq<TrainAction> {
    if p.master && fires(step, p.num_iters as int, p.sample_every as int) {
        seq![TrainAction::Sample { step: step as usize }]
    } else {
        Seq::empty()
    }
}

/// The micro-batches of a step from `micro` on.
pub open spec fn micros(p: Pace, step: int, micro: int) -> Seq<TrainAction>
    decreases p.grad_accum - micro,
{
    if micro >= p.grad_accum {
        Seq::empty()
    } else {
        seq![TrainAction::Micro { step: step as usize, micro: micro as usize }] + micros(
            p,
            step,
            micro + 1,
        )
    }
}

/// The correction of the gradients, if there is one.
pub open spec fn rescale_part(p: Pace, step: int) -> Seq<TrainAction> {
    if p.rescale {
        seq![TrainAction::Rescale { step: step as usize }]
    } else {
        Seq::empty()
    }
}

/// Whether a step is logged: one in every `every` is, from the first on. With 0
/// only the first is.
pub open spec fn is_logged(step: int, every: int) -> bool {
    if every == 0 {
        step == 0
    } else {
        step % every == 0
    }
}

/// The log at a step, if there is one. It covers the steps since the last log.
pub open spec fn log_part(p: Pace, step: int) -> Seq<TrainAction> {
    if is_logged(step, p.log_every as int) {
        seq![
            TrainAction::Log {
                step: step as usize,
                window: if step == 0 {
                    0
                } else {
                    p.log_every
                },
            },
        ]
    } else {
        Seq::empty()
    }
}

/// What is done at a step once its micro-batches have run.
pub open spec fn closing(p: Pace, step: int) -> Seq<TrainAction> {
    rescale_part(p, step) + (seq![TrainAction::Update { step: step as usize }] + log_part(p, step))
}

/// All that is done from a step on: first evaluation and samples; then, except
/// at the last step, the micro-batches and what closes the step.
pub open spec fn plan_from(p: Pace, step: int) -> Seq<TrainAction>
    decreases p.num_iters - step,
{
    eval_part(p, step) + (sample_part(p, step) + if step >= p.num_iters {
        seq![TrainAction::Finish]
    } else {
        micros(p, step, 0) + (closing(p, step) + plan_from(p, step + 1))
    })
}

/// All that a run does.
pub open spec fn plan(p: Pace) -> Seq<TrainAction> {
    plan_from(p, 0)
}

/// Where a run stands within a step.
#[derive(Debug, Clone, Copy, PartialEq, Eq, Structural)]
pub enum Stage {
    BeforeEval,
    BeforeSample,
    AfterHooks,
    BeforeMicro { micro: usize },
    BeforeRescale,
    BeforeUpdate,
    BeforeLog,
    Over,
}

/// A run in progress.
#[derive(Debug, Clone, Copy, PartialEq, Eq, Structural)]
pub struct TrainRun {
    pub pace: Pace,
    pub step: usize,
    pub stage: Stage,
}

/// All that is still to do at a stage of a step.
pub open spec fn rest_of_plan(p: Pace, s: int, stage: Stage) -> Seq<TrainAction> {
    let after_hooks = if s >= p.num_iters {
        seq![TrainAction::Finish]
    } else {
        micros(p, s, 0) + (closing(p, s) + plan_from(p, s + 1))
    };
    match stage {
        Stage::BeforeEval => eval_part(p, s) + (sample_part(p, s) + after_hooks),
        Stage::BeforeSample => sample_part(p, s) + after_hooks,
        Stage::AfterHooks => after_hooks,
        Stage::BeforeMicro { micro } => micros(p, s, micro as int) + (closing(p, s) + plan_from(
            p,
            s + 1,
        )),
        Stage::BeforeRescale => closing(p, s) + plan_from(p, s + 1),
        Stage::BeforeUpdate => (seq![TrainAction::Update { step: s as usize }] + log_part(p, s))
            + plan_from(p, s + 1),
        Stage::BeforeLog => log_part(p, s) + plan_from(p, s + 1),
        Stage::Over => Seq::empty(),
    }
}

impl TrainRun {
    /// The step is one of the run, and each iteration runs a micro-batch.
    pub open spec fn wf(self) -> bool {
        &&& self.pace.num_iters > 0 ==> self.pace.grad_accum > 0
        &&& self.step <= self.pace.num_iters
        &&& match self.stage {
            Stage::BeforeEval | Stage::BeforeSample | Stage::AfterHooks | Stage::Over => true,
            Stage::BeforeMicro { micro } => self.step < self.pace.num_iters && micro
                <= self.pace.grad_accum,
            Stage::BeforeRescale | Stage::BeforeUpdate | Stage::BeforeLog => self.step
                < self.pace.num_iters,
        }
    }

    /// All that is still to do.
    pub open spec fn remaining(self) -> Seq<TrainAction> {
        rest_of_plan(self.pace, self.step as int, self.stage)
    }

    /// A run that is about to begin.
    pub fn start(pace: Pace) -> (r: TrainRun)
        requires
            pace.num_iters > 0 ==> pace.grad_accum > 0,
        ensures
            r.wf(),
            r.pace == pace,
            r.remaining() == plan(pace),
    {
        TrainRun { pace, step: 0, stage: Stage::BeforeEval }
    }

    /// How far the stage is from the end of its step.
    spec fn distance(self) -> int {
        match self.stage {
            Stage::BeforeEval => 8,
            Stage::BeforeSample => 7,
            Stage::AfterHooks => 6,
            Stage::BeforeMicro { .. } => 5,
            Stage::BeforeRescale => 4,
            Stage::BeforeUpdate => 3,
            Stage::BeforeLog => 2,
            Stage::Over => 0,
        }
    }

    /// Goes on from one stage to the next, with the action that lies between
    /// them, if there is one.
    #[verifier::spinoff_prover]
    #[verifier::rlimit(60)]
    fn advance(&mut self) -> (r: Option<TrainAction>)
        requires
            old(self).wf(),
            !(old(self).stage is Over),
        ensures
            final(self).wf(),
            final(self).pace == old(self).pace,
            match r {
                Some(a) => old(self).remaining() == seq![a] + final(self).remaining(),
                None => {
                    &&& old(self).remaining() == final(self).remaining()
                    &&& !(final(self).stage is Over)
                    &&& final(self).step > old(self).step || (final(self).step == old(self).step
                        && final(self).distance() < old(self).distance())
                },
            },
    {
        let p = self.pace;
        let step: usize = self.step;
        let ghost whole = self.remaining();
        match self.stage {
            Stage::BeforeEval => {
                self.stage = Stage::BeforeSample;
                if cadence_fires(step, p.num_iters, p.eval_every) {
                    let a = TrainAction::Eval { step };
                    assert(whole =~= seq![a] + self.remaining());
                    return Some(a);
                }
                assert(whole =~= self.remaining());
                None
            },
            Stage::BeforeSample => {
                self.stage = Stage::AfterHooks;
                if p.master && cadence_fires(step, p.num_iters, p.sample_every) {
                    let a = TrainAction::Sample { step };
                    assert(whole =~= seq![a] + self.remaining());
                    return Some(a);
                }
                assert(whole =~= self.remaining());
                None
            },
            Stage::AfterHooks => {
                if step == p.num_iters {
                    self.stage = Stage::Over;
                    assert(whole =~= seq![TrainAction::Finish] + self.remaining());
                    return Some(TrainAction::Finish);
                }
                self.stage = Stage::BeforeMicro { micro: 0 };
                None
            },
            Stage::BeforeMicro { micro } => {
                if micro < p.grad_accum {
                    self.stage = Stage::BeforeMicro { micro: micro + 1 };
                    let a = TrainAction::Micro { step, micro };
                    assert(whole =~= seq![a] + self.remaining());
                    return Some(a);
                }
                self.stage = Stage::BeforeRescale;
                assert(whole =~= self.remaining());
                None
            },
            Stage::BeforeRescale => {
                self.stage = Stage::BeforeUpdate;
                if p.rescale {
                    let a = TrainAction::Rescale { step };
                    assert(whole =~= seq![a] + self.remaining());
                    return Some(a);
                }
                assert(whole =~= self.remaining());
                None
            },
            Stage::BeforeUpdate => {
                self.stage = Stage::BeforeLog;
                let a = TrainAction::Update { step };
                assert(whole =~= seq![a] + self.remaining());
                Some(a)
            },
            Stage::BeforeLog => {
                self.stage = Stage::BeforeEval;
                self.step = step + 1;
                assert(self.remaining() == plan_from(p, step + 1));
                let logged = if p.log_every == 0 {
                    step == 0
                } else {
                    step % p.log_every == 0
                };
                if logged {
                    let window: usize = if step == 0 {
                        0
                    } else {
                        p.log_every
                    };
                    let a = TrainAction::Log { step, window };
                    assert(whole =~= seq![a] + self.remaining());
                    return Some(a);
                }
                assert(whole =~= self.remaining());
                None
            },
            Stage::Over => {
                assert(false);
                None
            },
        }
    }

    /// What the run does next. The actions come in the order of the plan, each
    /// once.
    pub fn next(&mut self) -> (a: TrainAction)
        requires
            old(self).wf(),
        ensures
            final(self).wf(),
            final(self).pace == old(self).pace,
            if old(self).stage is Over {
                a is Finish && *final(self) == *old(self)
            } else {
                old(self).remaining() == seq![a] + final(self).remaining()
            },
    {
        if matches!(self.stage, Stage::Over) {
            return TrainAction::Finish;
        }
        loop
            invariant
                self.wf(),
                self.pace == old(self).pace,
                self.remaining() == old(self).remaining(),
                !(self.stage is Over),
                !(old(self).stage is Over),
            decreases self.pace.num_iters - self.step, self.distance(),
        {
            if let Some(a) = self.advance() {
                return a;
            }
        }
    }
}

/// The last thing that a run does is to evaluate and sample at its last step,
/// where these hooks are on; and then it is over.
pub proof fn runs_end_with_the_last_hooks(p: Pace)
    ensures
        plan_from(p, p.num_iters as int) == eval_part(p, p.num_iters as int) + (sample_part(
            p,
            p.num_iters as int,
        ) + seq![TrainAction::Finish]),
        p.eval_every != 0 ==> eval_part(p, p.num_iters as int) == seq![
            TrainAction::Eval { step: p.num_iters },
        ],
{
}

/// The number of actions of a kind.
pub open spec fn count_of(actions: Seq<TrainAction>, kind: spec_fn(TrainAction) -> bool) -> nat
    decreases actions.len(),
{
    if actions.len() == 0 {
        0
    } else {
        count_of(actions.drop_last(), kind) + if kind(actions.last()) {
            1nat
        } else {
            0
        }
    }
}

/// The actions that update the parameters.
pub open spec fn updates() -> spec_fn(TrainAction) -> bool {
    |a: TrainAction| a is Update
}

/// The actions that run a micro-batch.
pub open spec fn micro_batches() -> spec_fn(TrainAction) -> bool {
    |a: TrainAction| a is Micro
}

proof fn lemma_count_add(
    a: Seq<TrainAction>,
    b: Seq<TrainAction>,
    kind: spec_fn(TrainAction) -> bool,
)
    ensures
        count_of(a + b, kind) == count_of(a, kind) + count_of(b, kind),
    decreases b.len(),
{
    if b.len() == 0 {
        assert(a + b =~= a);
    } else {
        lemma_count_add(a, b.drop_last(), kind);
        assert((a + b).drop_last() =~= a + b.drop_last());
    }
}

proof fn lemma_count_one(a: TrainAction, kind: spec_fn(TrainAction) -> bool)
    ensures
        count_of(seq![a], kind) == if kind(a) {
            1nat
        } else {
            0
        },
{
    assert(seq![a].drop_last() =~= Seq::empty());
    assert(count_of(seq![a].drop_last(), kind) == 0);
}

proof fn lemma_count_micros(p: Pace, step: int, micro: int)
    requires
        0 <= micro <= p.grad_accum,
    ensures
        count_of(micros(p, step, micro), updates()) == 0,
        count_of(micros(p, step, micro), micro_batches()) == p.grad_accum - micro,
    decreases p.grad_accum - micro,
{
    if micro < p.grad_accum {
        lemma_count_micros(p, step, micro + 1);
        let a = TrainAction::Micro { step: step as usize, micro: micro as usize };
        let rest = micros(p, step, micro + 1);
        lemma_count_one(a, updates());
        lemma_count_one(a, micro_batches());
        lemma_count_add(seq![a], rest, updates());
        lemma_count_add(seq![a], rest, micro_batches());
    }
}

/// What is done from a step on counts its hooks, its micro-batches, what closes
/// it, and what is done from the next step on.
proof fn lemma_count_step(p: Pace, step: int, kind: spec_fn(TrainAction) -> bool)
    requires
        0 <= step < p.num_iters,
        !kind(TrainAction::Eval { step: step as usize }),
        !kind(TrainAction::Sample { step: step as usize }),
        !kind(TrainAction::Rescale { step: step as usize }),
        !kind(TrainAction::Log { step: step as usize, window: 0 }),
        !kind(TrainAction::Log { step: step as usize, window: p.log_every }),
    ensures
        count_of(plan_from(p, step), kind) == count_of(micros(p, step, 0), kind) + (if kind(
            TrainAction::Update { step: step as usize },
        ) {
            1nat
        } else {
            0
        }) + count_of(plan_from(p, step + 1), kind),
{
    let (eval, sample) = (eval_part(p, step), sample_part(p, step));
    let (rescale, log) = (rescale_part(p, step), log_part(p, step));
    let update = seq![TrainAction::Update { step: step as usize }];
    let (now, tail) = (micros(p, step, 0), plan_from(p, step + 1));
    lemma_count_one(TrainAction::Eval { step: step as usize }, kind);
    lemma_count_one(TrainAction::Sample { step: step as usize }, kind);
    lemma_count_one(TrainAction::Rescale { step: step as usize }, kind);
    lemma_count_one(update[0], kind);
    lemma_count_one(TrainAction::Log { step: step as usize, window: 0 }, kind);
    lemma_count_one(TrainAction::Log { step: step as usize, window: p.log_every }, kind);
    lemma_count_add(update, log, kind);
    lemma_count_add(rescale, update + log, kind);
    lemma_count_add(closing(p, step), tail, kind);
    lemma_count_add(now, closing(p, step) + tail, kind);
    lemma_count_add(sample, now + (closing(p, step) + tail), kind);
    lemma_count_add(eval, sample + (now + (closing(p, step) + tail)), kind);
}

proof fn lemma_count_end(p: Pace, kind: spec_fn(TrainAction) -> bool)
    requires
        !kind(TrainAction::Eval { step: p.num_iters }),
        !kind(TrainAction::Sample { step: p.num_iters }),
        !kind(TrainAction::Finish),
    ensures
        count_of(plan_from(p, p.num_iters as int), kind) == 0,
{
    let (eval, sample) = (eval_part(p, p.num_iters as int), sample_part(p, p.num_iters as int));
    let end = seq![TrainAction::Finish];
    lemma_count_one(TrainAction::Eval { step: p.num_iters }, kind);
    lemma_count_one(TrainAction::Sample { step: p.num_iters }, kind);
    lemma_count_one(TrainAction::Finish, kind);
    lemma_count_add(sample, end, kind);
    lemma_count_add(eval, sample + end, kind);
}

/// A run updates the parameters once per iteration.
pub proof fn one_update_per_iteration(p: Pace, step: int)
    requires
        0 <= step <= p.num_iters,
    ensures
        count_of(plan_from(p, step), updates()) == p.num_iters - step,
    decreases p.num_iters - step,
{
    if step == p.num_iters {
        lemma_count_end(p, updates());
    } else {
        one_update_per_iteration(p, step + 1);
        lemma_count_micros(p, step, 0);
        lemma_count_step(p, step, updates());
    }
}

/// A run takes as many micro-batches per iteration as it accumulates.
pub proof fn iterations_take_their_micro_batches(p: Pace, step: int)
    requires
        0 <= step <= p.num_iters,
    ensures
        count_of(plan_from(p, step), micro_batches()) == (p.num_iters - step) * p.grad_accum,
    decreases p.num_iters - step,
{
    let (n, g) = (p.num_iters as int, p.grad_accum as int);
    if step == n {
        lemma_count_end(p, micro_batches());
        assert(0 * g == 0);
    } else {
        iterations_take_their_micro_batches(p, step + 1);
        lemma_count_micros(p, step, 0);
        lemma_count_step(p, step, micro_batches());
        assert((n - step) * g == g + (n - (step + 1)) * g) by (nonlinear_arith);
    }
}

} // verus!
