use rs_nanogpt::binary64::{Real, Real32};
use rs_nanogpt::metrics::{
    run_dir, run_dir_step, MakeDir, MetricRecord, RecordKind, RunDirStep, Throughput,
};
use rs_nanogpt::train::mem::PoolStats;
use rs_nanogpt::train::optim::GroupLrs;

fn num(x: f64) -> Real {
    Real { bits: x.to_bits() }
}

fn lrs() -> GroupLrs {
    GroupLrs {
        embedding: num(2e-3),
        unembedding: num(3e-4),
        matrix: num(1e-3),
    }
}

fn train(rate: Option<Throughput>) -> MetricRecord {
    let loss = Real32 {
        bits: 3.25f32.to_bits(),
    };
    MetricRecord::train(10, num(1.5), loss, num(0.42), lrs(), rate)
}

#[test]
fn unique_run_dir_walks_suffixes_on_collision() {
    let mut taken: Vec<String> = Vec::new();
    let mut claim = || {
        let mut attempt = 1;
        loop {
            let name = run_dir("run", attempt);
            let made = if taken.contains(&name) {
                MakeDir::Exists
            } else {
                MakeDir::Made
            };
            match run_dir_step(attempt, made) {
                RunDirStep::Claimed { attempt } => {
                    let name = run_dir("run", attempt);
                    taken.push(name.clone());
                    return name;
                }
                RunDirStep::Try { attempt: next } => attempt = next,
                RunDirStep::Fail { .. } => panic!("no attempt fails here"),
            }
        }
    };
    assert_eq!(claim(), "run");
    assert_eq!(claim(), "run-2");
    assert_eq!(claim(), "run-3");
}

#[test]
fn a_failed_attempt_ends_the_search() {
    assert_eq!(
        run_dir_step(4, MakeDir::Failed),
        RunDirStep::Fail { attempt: 4 }
    );
}

#[test]
fn train_and_eval_records_carry_their_own_fields() {
    let r = train(Some(Throughput {
        tok_per_s: num(1000.0),
        ms_per_step: num(20.0),
    }));
    assert_eq!((r.step, r.kind.as_str()), (10, "train"));
    assert!(r.train_loss.is_some() && r.grad_norm.is_some());
    assert_eq!(r.tok_per_s, Some(num(1000.0)));
    assert_eq!(r.ms_per_step, Some(num(20.0)));
    assert_eq!(r.lr_matrix, Some(num(1e-3)));
    assert_eq!(r.lr_embedding, Some(num(2e-3)));
    assert_eq!(r.lr_unembedding, Some(num(3e-4)));
    assert!(r.val_loss.is_none() && r.bpb.is_none());

    let e = MetricRecord::eval(20, num(2.0), num(3.1), num(1.4));
    assert_eq!((e.kind, e.kind.as_str()), (RecordKind::Eval, "eval"));
    assert_eq!((e.val_loss, e.bpb), (Some(num(3.1)), Some(num(1.4))));
    assert!(e.train_loss.is_none() && e.grad_norm.is_none() && e.tok_per_s.is_none());
}

#[test]
fn train_record_omits_rate_fields_when_none() {
    let r = train(None);
    assert!(r.tok_per_s.is_none());
    assert!(r.ms_per_step.is_none());
    assert!(r.train_loss.is_some());
    assert_eq!(r.kind.as_str(), "train");
}

#[test]
fn mem_record_carries_raw_bytes_and_omits_training_fields() {
    let r = MetricRecord::mem(
        7,
        num(88.0),
        PoolStats {
            reserved: 61_440_000_000,
            reserved_high: 61_500_000_000,
            used: 13_280_000_000,
            used_high: 41_900_000_000,
            dev_free: 21_100_000_000,
            dev_total: 85_520_000_000,
        },
    );
    assert_eq!(r.kind.as_str(), "mem");
    assert_eq!(r.step, 7);
    assert_eq!(r.mem_reserved, Some(61_440_000_000u64));
    assert_eq!(r.mem_reserved_high, Some(61_500_000_000u64));
    assert_eq!(r.mem_used, Some(13_280_000_000u64));
    assert_eq!(r.mem_used_high, Some(41_900_000_000u64));
    assert_eq!(r.mem_dev_free, Some(21_100_000_000u64));
    assert!(r.train_loss.is_none());
    assert!(r.val_loss.is_none());
}

#[test]
fn train_and_eval_records_omit_the_memory_fields() {
    let eval = MetricRecord::eval(1, num(0.5), num(3.0), num(1.2));
    assert!(eval.mem_used.is_none());
    assert!(eval.mem_reserved.is_none());
    assert!(train(None).mem_used.is_none());
}
