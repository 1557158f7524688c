//! What a run records of itself.
use vstd::prelude::*;

use crate::binary64::{Real, Real32};
use crate::text::{decimal, decimal_spells, push_decimal};
use crate::train::mem::PoolStats;
use crate::train::optim::GroupLrs;

verus! {

// ---------------------------------------------------------------------------
// Records
// ---------------------------------------------------------------------------

/// What a record is about.
#[derive(Debug, Clone, Copy, PartialEq, Eq, Structural)]
pub enum RecordKind {
    Train,
    Eval,
    Mem,
}

impl RecordKind {
    pub open spec fn text(self) -> Seq<char> {
        match self {
            RecordKind::Train => "train"@,
            RecordKind::Eval => "eval"@,
            RecordKind::Mem => "mem"@,
        }
    }

    /// The kind as it is written.
    pub fn as_str(self) -> (s: &'static str)
        ensures
            s@ == self.text(),
    {
        match self {
            RecordKind::Train => "train",
            RecordKind::Eval => "eval",
            RecordKind::Mem => "mem",
        }
    }
}

/// How fast training goes.
#[derive(Debug, Clone, Copy, PartialEq, Eq, Structural)]
pub struct Throughput {
    pub tok_per_s: Real,
    pub ms_per_step: Real,
}

/// One line of the metrics. What a kind of record does not carry is absent.
#[derive(Debug, Clone, Copy, PartialEq, Eq, Structural)]
pub struct MetricRecord {
    pub step: usize,
    pub kind: RecordKind,
    pub elapsed_s: Real,
    pub train_loss: Option<Real32>,
    pub grad_norm: Option<Real>,
    pub lr_matrix: Option<Real>,
    pub lr_embedding: Option<Real>,
    pub lr_unembedding: Option<Real>,
    pub tok_per_s: Option<Real>,
    pub ms_per_step: Option<Real>,
    pub val_loss: Option<Real>,
    pub bpb: Option<Real>,
    pub mem_used: Option<u64>,
    pub mem_used_high: Option<u64>,
    pub mem_reserved: Option<u64>,
    pub mem_reserved_high: Option<u64>,
    pub mem_dev_free: Option<u64>,
}

impl MetricRecord {
    /// Whether it carries anything of training.
    pub open spec fn tells_of_training(self) -> bool {
        ||| self.train_loss is Some
        ||| self.grad_norm is Some
        ||| self.lr_matrix is Some
        ||| self.lr_embedding is Some
        ||| self.lr_unembedding is Some
        ||| self.tok_per_s is Some
        ||| self.ms_per_step is Some
    }

    /// Whether it carries anything of evaluation.
    pub open spec fn tells_of_evaluation(self) -> bool {
        self.val_loss is Some || self.bpb is Some
    }

    /// Whether it carries anything of memory.
    pub open spec fn tells_of_memory(self) -> bool {
        ||| self.mem_used is Some
        ||| self.mem_used_high is Some
        ||| self.mem_reserved is Some
        ||| self.mem_reserved_high is Some
        ||| self.mem_dev_free is Some
    }

    /// A record that carries nothing yet.
    fn bare(step: usize, kind: RecordKind, elapsed_s: Real) -> (r: MetricRecord)
        ensures
            r.step == step,
            r.kind == kind,
            r.elapsed_s == elapsed_s,
            !r.tells_of_training(),
            !r.tells_of_evaluation(),
            !r.tells_of_memory(),
    {
        MetricRecord {
            step,
            kind,
            elapsed_s,
            train_loss: None,
            grad_norm: None,
            lr_matrix: None,
            lr_embedding: None,
            lr_unembedding: None,
            tok_per_s: None,
            ms_per_step: None,
            val_loss: None,
            bpb: None,
            mem_used: None,
            mem_used_high: None,
            mem_reserved: None,
            mem_reserved_high: None,
            mem_dev_free: None,
        }
    }

    /// The record of a training step.
    pub fn train(
        step: usize,
        elapsed_s: Real,
        train_loss: Real32,
        grad_norm: Real,
        lrs: GroupLrs,
        rate: Option<Throughput>,
    ) -> (r: MetricRecord)
        ensures
            r.step == step,
            r.kind == RecordKind::Train,
            r.elapsed_s == elapsed_s,
            r.train_loss == Some(train_loss),
            r.grad_norm == Some(grad_norm),
            r.lr_matrix == Some(lrs.matrix),
            r.lr_embedding == Some(lrs.embedding),
            r.lr_unembedding == Some(lrs.unembedding),
            match rate {
                Some(rate) => r.tok_per_s == Some(rate.tok_per_s) && r.ms_per_step == Some(
                    rate.ms_per_step,
                ),
                None => r.tok_per_s is None && r.ms_per_step is None,
            },
            !r.tells_of_evaluation(),
            !r.tells_of_memory(),
    {
        let mut r = MetricRecord::bare(step, RecordKind::Train, elapsed_s);
        r.train_loss = Some(train_loss);
        r.grad_norm = Some(grad_norm);
        r.lr_matrix = Some(lrs.matrix);
        r.lr_embedding = Some(lrs.embedding);
        r.lr_unembedding = Some(lrs.unembedding);
        if let Some(rate) = rate {
            r.tok_per_s = Some(rate.tok_per_s);
            r.ms_per_step = Some(rate.ms_per_step);
        }
        r
    }

    /// The record of an evaluation.
    pub fn eval(step: usize, elapsed_s: Real, val_loss: Real, bpb: Real) -> (r: MetricRecord)
        ensures
            r.step == step,
            r.kind == RecordKind::Eval,
            r.elapsed_s == elapsed_s,
            r.val_loss == Some(val_loss),
            r.bpb == Some(bpb),
            !r.tells_of_training(),
            !r.tells_of_memory(),
    {
        let mut r = MetricRecord::bare(step, RecordKind::Eval, elapsed_s);
        r.val_loss = Some(val_loss);
        r.bpb = Some(bpb);
        r
    }

    /// The record of a sample of the memory pool, in bytes.
    pub fn mem(step: usize, elapsed_s: Real, stats: PoolStats) -> (r: MetricRecord)
        ensures
            r.step == step,
            r.kind == RecordKind::Mem,
            r.elapsed_s == elapsed_s,
            r.mem_used == Some(stats.used),
            r.mem_used_high == Some(stats.used_high),
            r.mem_reserved == Some(stats.reserved),
            r.mem_reserved_high == Some(stats.reserved_high),
            r.mem_dev_free == Some(stats.dev_free),
            !r.tells_of_training(),
            !r.tells_of_evaluation(),
    {
        let mut r = MetricRecord::bare(step, RecordKind::Mem, elapsed_s);
        r.mem_used = Some(stats.used);
        r.mem_used_high = Some(stats.used_high);
        r.mem_reserved = Some(stats.reserved);
        r.mem_reserved_high = Some(stats.reserved_high);
        r.mem_dev_free = Some(stats.dev_free);
        r
    }
}

// ---------------------------------------------------------------------------
// A directory of its own for each run
// ---------------------------------------------------------------------------

/// The name tried at an attempt: the run's id first, and then the id with `-2`,
/// `-3` and so on.
pub open spec fn run_dir_name(id: Seq<char>, attempt: int) -> Seq<char> {
    if attempt <= 1 {
        id
    } else {
        id + "-"@ + decimal(attempt as nat)
    }
}

/// The name to try at an attempt, counted from 1.
pub fn run_dir(id: &str, attempt: u32) -> (s: String)
    ensures
        s@ == run_dir_name(id@, attempt as int),
{
    let mut s = String::from_str(id);
    if attempt > 1 {
        s.append("-");
        push_decimal(&mut s, attempt as u64);
    }
    s
}

/// No name is tried twice.
pub proof fn run_dirs_differ(id: Seq<char>, a: int, b: int)
    requires
        1 <= a < b,
    ensures
        run_dir_name(id, a) != run_dir_name(id, b),
{
    reveal_strlit("-");
    let (x, y) = (run_dir_name(id, a), run_dir_name(id, b));
    if x == y {
        if a == 1 {
            assert(x.len() == id.len());
            assert(y.len() > id.len());
        } else {
            let n = id.len() as int + 1;
            assert(x.skip(n) =~= decimal(a as nat));
            assert(y.skip(n) =~= decimal(b as nat));
            decimal_spells(a as nat, b as nat);
            decimal_spells(b as nat, b as nat);
        }
    }
}

/// What trying to make a directory came to.
#[derive(Debug, Clone, Copy, PartialEq, Eq, Structural)]
pub enum MakeDir {
    Made,
    Exists,
    Failed,
}

/// How the search for a directory goes on.
#[derive(Debug, Clone, Copy, PartialEq, Eq, Structural)]
pub enum RunDirStep {
    /// The directory of this attempt is the run's.
    Claimed { attempt: u32 },
    /// Try this attempt.
    Try { attempt: u32 },
    /// Give up with the error of this attempt.
    Fail { attempt: u32 },
}

/// How the search goes on: a name that exists already is passed over.
pub fn run_dir_step(attempt: u32, made: MakeDir) -> (r: RunDirStep)
    requires
        attempt < u32::MAX,
    ensures
        r == match made {
            MakeDir::Made => RunDirStep::Claimed { attempt },
            MakeDir::Exists => RunDirStep::Try { attempt: (attempt + 1) as u32 },
            MakeDir::Failed => RunDirStep::Fail { attempt },
        },
{
    match made {
        MakeDir::Made => RunDirStep::Claimed { attempt },
        MakeDir::Exists => RunDirStep::Try { attempt: attempt + 1 },
        MakeDir::Failed => RunDirStep::Fail { attempt },
    }
}

/// The first directory that is tried has the run's own id, and the others have the
/// number of the attempt behind it.
pub proof fn run_dirs_are_numbered(id: Seq<char>, attempt: int)
    requires
        attempt >= 2,
    ensures
        run_dir_name(id, 1) == id,
        run_dir_name(id, attempt) == id + (seq!['-'] + decimal(attempt as nat)),
{
    reveal_strlit("-");
    assert(run_dir_name(id, attempt) =~= id + (seq!['-'] + decimal(attempt as nat)));
}

} // verus!
