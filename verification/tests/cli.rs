use rs_nanogpt::binary64::{Real, Real32};
use rs_nanogpt::cli::{
    download_failure, parse_val_shard, plan_pretraining, process_role, validate_download_args,
    validate_pretrain_args, ChildEnv, DownloadArgs, DownloadError, PlanError, PretrainArgs,
    PretrainError, ProcessRole, RankWatch,
};
use rs_nanogpt::data::download::{Summary, BASE_URL, MAX_SHARD};
use rs_nanogpt::model::config::ConfigError;
use rs_nanogpt::train::optim::{GroupLrs, GroupWeightDecay};

fn num(x: f64) -> Real {
    Real { bits: x.to_bits() }
}

fn num32(x: f32) -> Real32 {
    Real32 { bits: x.to_bits() }
}

fn valid_args() -> PretrainArgs {
    PretrainArgs {
        sequence_len: 512,
        n_layer: 6,
        n_head: 6,
        n_embd: 384,
        rope_base: num32(100_000.0),
        norm_eps: num32(1e-6),
        num_iters: 5000,
        device_batch: 32,
        total_batch: 16384,
        gpus: 1,
        lrs: GroupLrs {
            embedding: num(0.2),
            unembedding: num(0.004),
            matrix: num(0.003),
        },
        warmup_steps: 40,
        warmdown_ratio: num(0.65),
        final_lr_frac: num(0.05),
        log_every: 10,
        eval_every: 250,
        eval_steps: 20,
        sample_every: 2000,
        sample_tokens: 64,
        sample_temperature: num(0.0),
    }
}

fn rejects(mutate: impl FnOnce(&mut PretrainArgs), message: &str) {
    let mut a = valid_args();
    mutate(&mut a);
    assert_eq!(validate_pretrain_args(&a).unwrap_err().message(), message);
}

#[test]
fn accepts_valid_args() {
    assert!(validate_pretrain_args(&valid_args()).is_ok());
}

#[test]
fn accepts_total_batch_multiple_of_micro() {
    let mut a = valid_args();
    a.total_batch = 2 * 16384;
    assert!(validate_pretrain_args(&a).is_ok());
}

#[test]
fn rejects_zero_device_batch() {
    rejects(|a| a.device_batch = 0, "--device-batch must be >= 1");
}

#[test]
fn rejects_zero_sequence_len() {
    rejects(|a| a.sequence_len = 0, "--sequence-len must be >= 1");
}

#[test]
fn rejects_zero_num_iters() {
    rejects(|a| a.num_iters = 0, "--num-iters must be >= 1");
}

#[test]
fn rejects_zero_log_every() {
    rejects(|a| a.log_every = 0, "--log-every must be >= 1");
}

#[test]
fn rejects_out_of_range_warmdown_ratio() {
    rejects(
        |a| a.warmdown_ratio = num(1.5),
        "--warmdown-ratio must be in [0, 1], got ",
    );
    rejects(
        |a| a.warmdown_ratio = num(-0.1),
        "--warmdown-ratio must be in [0, 1], got ",
    );
    rejects(
        |a| a.warmdown_ratio = num(f64::NAN),
        "--warmdown-ratio must be in [0, 1], got ",
    );
}

#[test]
fn rejects_out_of_range_final_lr_frac() {
    rejects(
        |a| a.final_lr_frac = num(2.0),
        "--final-lr-frac must be in [0, 1], got ",
    );
}

#[test]
fn rejects_total_batch_not_multiple_of_micro() {
    rejects(
        |a| a.total_batch = 16384 + 1,
        "--total-batch (16385) must be a multiple of gpus*device_batch*seq_len (16384)",
    );
}

#[test]
fn rejects_zero_gpus() {
    rejects(|a| a.gpus = 0, "--gpus must be >= 1");
}

#[test]
fn total_batch_divisibility_includes_gpus() {
    let mut a = valid_args();
    a.gpus = 2;
    a.total_batch = 2 * 16384;
    assert!(validate_pretrain_args(&a).is_ok());
    rejects(
        |a| a.gpus = 2,
        "--total-batch (16384) must be a multiple of gpus*device_batch*seq_len (32768)",
    );
}

#[test]
fn rejects_zero_total_batch() {
    rejects(
        |a| a.total_batch = 0,
        "--total-batch (0) must be at least gpus*device_batch*seq_len (16384)",
    );
}

#[test]
fn rejects_zero_eval_steps_when_eval_enabled() {
    rejects(
        |a| a.eval_steps = 0,
        "--eval-steps must be >= 1 when --eval-every > 0",
    );
    let mut a = valid_args();
    a.eval_steps = 0;
    a.eval_every = 0;
    assert!(validate_pretrain_args(&a).is_ok());
}

#[test]
fn rejects_zero_sample_tokens_when_sampling_enabled() {
    rejects(
        |a| a.sample_tokens = 0,
        "--sample-tokens must be >= 1 when --sample-every > 0",
    );
    let mut a = valid_args();
    a.sample_tokens = 0;
    a.sample_every = 0;
    assert!(validate_pretrain_args(&a).is_ok());
}

#[test]
fn rejects_negative_sample_temperature() {
    rejects(
        |a| a.sample_temperature = num(-0.1),
        "--sample-temperature must be >= 0, got ",
    );
    // Only a number below zero is refused.
    let mut a = valid_args();
    a.sample_temperature = num(f64::NAN);
    assert!(validate_pretrain_args(&a).is_ok());
}

#[test]
fn a_plan_shares_the_batch_among_the_ranks() {
    let mut a = valid_args();
    a.gpus = 2;
    a.total_batch = 4 * 16384;
    let plan = plan_pretraining(&a, 1000).unwrap();
    assert_eq!(plan.train.grad_accum, 2);
    assert_eq!(plan.train.tokens_per_step, 2 * 16384);
    assert!(!plan.train.targets_may_be_ignored);
    assert_eq!(plan.train.weight_decays, GroupWeightDecay::default());
    assert_eq!(plan.train.lrs, a.lrs);
    assert_eq!((plan.train.num_iters, plan.train.log_every), (5000, 10));
    assert_eq!(plan.model.vocab_size, 1000);
    assert_eq!((plan.model.n_layer, plan.model.n_head, plan.model.n_embd), (6, 6, 384));
    assert_eq!(plan.model.head_dim(), 64);
}

#[test]
fn a_plan_needs_good_arguments_and_a_good_shape() {
    let mut a = valid_args();
    a.n_embd = 100;
    assert_eq!(
        plan_pretraining(&a, 1000),
        Err(PlanError::Model {
            fault: ConfigError::HeadsDoNotDivide {
                n_embd: 100,
                n_head: 6
            }
        })
    );
    a.num_iters = 0;
    assert_eq!(
        plan_pretraining(&a, 1000),
        Err(PlanError::Args {
            error: PretrainError::NumIters
        })
    );
}

// ---------------------------------------------------------------------------
// Downloads
// ---------------------------------------------------------------------------

fn valid_download_args() -> DownloadArgs {
    DownloadArgs {
        start: 0,
        num: 170,
        workers: 4,
        val_shard: "6542".to_string(),
        base_url: BASE_URL.to_string(),
    }
}

#[test]
fn accepts_valid_download_args() {
    assert_eq!(
        validate_download_args(&valid_download_args()).unwrap(),
        Some(6542)
    );
}

#[test]
fn download_val_shard_none_parses_to_none() {
    let mut a = valid_download_args();
    a.val_shard = "none".to_string();
    assert_eq!(validate_download_args(&a).unwrap(), None);
    assert_eq!(parse_val_shard("  SKIP\n"), Ok(None));
    assert_eq!(parse_val_shard(" 17 "), Ok(Some(17)));
}

#[test]
fn rejects_zero_num() {
    let mut a = valid_download_args();
    a.num = 0;
    let err = validate_download_args(&a).unwrap_err();
    assert_eq!(err, DownloadError::Num);
    assert_eq!(err.message(), "--num must be >= 1");
}

#[test]
fn rejects_zero_download_workers() {
    let mut a = valid_download_args();
    a.workers = 0;
    let err = validate_download_args(&a).unwrap_err();
    assert_eq!(err, DownloadError::Workers);
    assert_eq!(err.message(), "--workers must be >= 1");
}

#[test]
fn rejects_range_past_last_shard() {
    let mut a = valid_download_args();
    a.start = MAX_SHARD;
    a.num = 2;
    let err = validate_download_args(&a).unwrap_err();
    assert_eq!(
        err.message(),
        "shard range ends at 6543, past the last shard index (6542); reduce --start/--num"
    );
    let mut b = valid_download_args();
    b.start = MAX_SHARD;
    b.num = 1;
    assert!(validate_download_args(&b).is_ok());
    let mut c = valid_download_args();
    c.start = 2;
    c.num = usize::MAX;
    assert_eq!(
        validate_download_args(&c),
        Err(DownloadError::Range { last: usize::MAX })
    );
}

#[test]
fn rejects_val_shard_past_last() {
    let mut a = valid_download_args();
    a.val_shard = (MAX_SHARD + 1).to_string();
    let err = validate_download_args(&a).unwrap_err();
    assert_eq!(
        err.message(),
        "--val-shard 6543 exceeds the last shard index (6542)"
    );
}

#[test]
fn rejects_unparseable_val_shard() {
    let mut a = valid_download_args();
    a.val_shard = "abc".to_string();
    let err = validate_download_args(&a).unwrap_err();
    assert_eq!(
        err.message(),
        "--val-shard must be a shard index or \"none\", got \"abc\""
    );
}

#[test]
fn failed_files_make_a_download_fail() {
    let mut s = Summary {
        requested: 5,
        downloaded: 3,
        skipped: 2,
        failed: 0,
    };
    assert_eq!(download_failure(&s, "shard"), None);
    s.failed = 2;
    assert_eq!(
        download_failure(&s, "file").unwrap(),
        "2 of 5 file(s) failed to download"
    );
}

// ---------------------------------------------------------------------------
// Processes
// ---------------------------------------------------------------------------

#[test]
fn a_process_launches_trains_alone_or_is_a_rank() {
    assert_eq!(process_role(None, 1), ProcessRole::Alone);
    assert_eq!(process_role(None, 2), ProcessRole::Launch);
    let env = ChildEnv {
        rank: 1,
        world_size: 2,
    };
    assert_eq!(process_role(Some(env), 2), ProcessRole::Rank { env });
    assert_eq!(process_role(Some(env), 4), ProcessRole::Disagree { env });
}

#[test]
fn the_first_failure_kills_those_that_still_run() {
    let mut watch = RankWatch::new(4);
    assert!(!watch.all_exited());
    assert_eq!(watch.polled(0, None), None);
    assert_eq!(watch.polled(1, Some(true)), None);
    assert_eq!(watch.polled(3, Some(true)), None);
    assert_eq!(watch.polled(2, Some(false)), Some(vec![0]));
}

#[test]
fn a_watch_is_over_when_all_have_succeeded() {
    let mut watch = RankWatch::new(2);
    assert_eq!(watch.polled(1, Some(true)), None);
    assert!(!watch.all_exited());
    assert_eq!(watch.polled(0, Some(true)), None);
    assert!(watch.all_exited());
    assert!(RankWatch::new(0).all_exited());
}
