use base64::engine::general_purpose::STANDARD;
use base64::Engine;
use rs_nanogpt::binary64::{Real, Real32};
use rs_nanogpt::tokenizer::bpe::BpeTokenizer;
use rs_nanogpt::train::dist::{canonical_order, DistCtx};
use rs_nanogpt::train::mem::{
    is_known_setting, parse_verbosity, MemProbe, PoolStats, ProbeSetup,
};
use rs_nanogpt::train::optim::{classify, partition, Group, GroupWeightDecay};
use rs_nanogpt::train::schedule::{lr_phase, LrPhase, DEFAULT_WARMUP_STEPS};
use rs_nanogpt::train::train_loop::{
    batch_shape_agrees, cadence_fires, check_finite, fmt_hms, sample_prefix, sample_prompt,
    try_sample_prefix, validate_batch_geometry, BestScore, NonFiniteLoss, Pace, TrainAction,
    TrainRun, SAMPLE_PROMPT_COUNT,
};

fn byte_tokenizer() -> BpeTokenizer {
    let mut text = String::new();
    for b in 0u32..256 {
        text.push_str(&format!("{} {}\n", STANDARD.encode([b as u8]), b));
    }
    BpeTokenizer::from_vocab(&text).unwrap()
}

fn double(x: f64) -> Real {
    Real { bits: x.to_bits() }
}

fn real32(x: f32) -> Real32 {
    Real32 { bits: x.to_bits() }
}

// ---------------------------------------------------------------------------
// Batch geometry and hooks
// ---------------------------------------------------------------------------

#[test]
fn validate_batch_geometry_computes_grad_accum() {
    assert_eq!(validate_batch_geometry(1, 32, 512, 16384), Ok(1));
    assert_eq!(validate_batch_geometry(1, 32, 512, 4 * 16384), Ok(4));
    assert_eq!(validate_batch_geometry(8, 32, 512, 8 * 16384), Ok(1));
    assert_eq!(validate_batch_geometry(8, 32, 512, 32 * 16384), Ok(4));
}

#[test]
fn validate_batch_geometry_rejects_zero_factors_before_dividing() {
    assert!(validate_batch_geometry(0, 32, 512, 16384).is_err());
    assert!(validate_batch_geometry(1, 0, 512, 16384).is_err());
    assert!(validate_batch_geometry(1, 32, 0, 16384).is_err());
    assert_eq!(
        validate_batch_geometry(0, 32, 512, 16384),
        Err("gpus must be >= 1".to_string())
    );
    assert_eq!(
        validate_batch_geometry(1, 0, 512, 16384),
        Err("device_batch must be >= 1".to_string())
    );
    assert_eq!(
        validate_batch_geometry(usize::MAX, 2, 0, 16384),
        Err("sequence_len must be >= 1".to_string())
    );
}

#[test]
fn validate_batch_geometry_rejects_a_total_batch_that_does_not_fit() {
    assert!(validate_batch_geometry(1, 32, 512, 16384 + 1).is_err());
    assert!(validate_batch_geometry(1, 32, 512, 0).is_err());
    assert!(validate_batch_geometry(2, 32, 512, 16384).is_err());
    assert_eq!(
        validate_batch_geometry(1, 32, 512, 16385),
        Err(
            "--total-batch (16385) must be a multiple of gpus*device_batch*seq_len (16384)"
                .to_string()
        )
    );
    assert_eq!(
        validate_batch_geometry(1, 32, 512, 0),
        Err("--total-batch (0) must be at least gpus*device_batch*seq_len (16384)".to_string())
    );
}

#[test]
fn a_rank_holds_its_equal_share_of_the_total_batch() {
    let (gpus, rows, len, total) = (8, 32, 512, 32 * 16384);
    let accum = validate_batch_geometry(gpus, rows, len, total).unwrap();
    assert!(batch_shape_agrees(accum, rows, len, total / gpus));
    assert!(!batch_shape_agrees(accum, rows, len, total));
}

#[test]
fn cadence_fires_predicate() {
    let n = 10;
    assert!(!cadence_fires(0, n, 2));
    assert!(cadence_fires(2, n, 2));
    assert!(!cadence_fires(3, n, 2));
    assert!(cadence_fires(n, n, 2));
    assert!(cadence_fires(n, n, 3));

    assert!(!cadence_fires(0, n, 0));
    assert!(!cadence_fires(n, n, 0));
}

#[test]
fn sample_prefix_switches_format() {
    let tok = byte_tokenizer();
    assert_eq!(sample_prefix(&tok, "hi", false), [256, 104, 105]);
    assert_eq!(
        sample_prefix(&tok, "hi", true),
        [256, 257, 104, 105, 258, 259]
    );
    assert_eq!(try_sample_prefix(&tok, "hi", false).unwrap(), [256, 104, 105]);
}

#[test]
fn the_first_sample_prompt_is_empty() {
    let prompts: Vec<&str> = (0..SAMPLE_PROMPT_COUNT).map(sample_prompt).collect();
    assert_eq!(
        prompts,
        vec![
            "",
            "The capital of France is",
            "The opposite of hot is",
            "My favorite color is",
        ]
    );
}

#[test]
fn fmt_hms_formats_and_saturates() {
    // What a count of seconds is before it is shown: without its fraction, and
    // not below zero.
    let hms = |secs: f64| fmt_hms(secs.max(0.0) as u64);
    assert_eq!(hms(0.0), "00:00:00");
    assert_eq!(hms(3723.0), "01:02:03");
    assert_eq!(hms(59.9), "00:00:59");
    assert_eq!(hms(-5.0), "00:00:00");
    assert_eq!(fmt_hms(360_000), "100:00:00");
}

#[test]
fn check_finite_rejects_nan_and_inf() {
    assert!(check_finite(real32(1.5), 0).is_ok());
    assert!(check_finite(real32(f32::NAN), 3).is_err());
    assert!(check_finite(real32(f32::INFINITY), 3).is_err());
    assert!(check_finite(real32(f32::NEG_INFINITY), 3).is_err());
    let loss = real32(f32::INFINITY);
    assert_eq!(check_finite(loss, 3), Err(NonFiniteLoss { loss, step: 3 }));
}

#[test]
fn only_a_better_score_is_saved() {
    let mut best = BestScore::new();
    assert!(!best.take(double(f64::INFINITY)));
    assert!(!best.take(double(f64::NAN)));
    assert!(best.take(double(1.5)));
    assert!(!best.take(double(1.5)));
    assert!(!best.take(double(f64::NAN)));
    assert!(best.take(double(1.25)));
    assert!(!best.take(double(2.0)));
    assert_eq!(best.score, double(1.25));
}

// ---------------------------------------------------------------------------
// The plan of a run
// ---------------------------------------------------------------------------

fn actions(pace: Pace) -> Vec<TrainAction> {
    let mut run = TrainRun::start(pace);
    let mut out = Vec::new();
    loop {
        let a = run.next();
        out.push(a);
        if a == TrainAction::Finish {
            return out;
        }
    }
}

#[test]
fn a_run_follows_its_plan() {
    let pace = Pace {
        num_iters: 2,
        grad_accum: 2,
        log_every: 2,
        eval_every: 1,
        sample_every: 2,
        rescale: true,
        master: true,
    };
    assert_eq!(
        actions(pace),
        vec![
            TrainAction::Micro { step: 0, micro: 0 },
            TrainAction::Micro { step: 0, micro: 1 },
            TrainAction::Rescale { step: 0 },
            TrainAction::Update { step: 0 },
            TrainAction::Log { step: 0, window: 0 },
            TrainAction::Eval { step: 1 },
            TrainAction::Micro { step: 1, micro: 0 },
            TrainAction::Micro { step: 1, micro: 1 },
            TrainAction::Rescale { step: 1 },
            TrainAction::Update { step: 1 },
            TrainAction::Eval { step: 2 },
            TrainAction::Sample { step: 2 },
            TrainAction::Finish,
        ]
    );
}

#[test]
fn ranks_other_than_the_first_do_not_sample() {
    let pace = Pace {
        num_iters: 4,
        grad_accum: 1,
        log_every: 3,
        eval_every: 0,
        sample_every: 1,
        rescale: false,
        master: false,
    };
    let all = actions(pace);
    assert!(!all.iter().any(|a| matches!(a, TrainAction::Sample { .. })));
    assert!(!all.iter().any(|a| matches!(a, TrainAction::Eval { .. })));
    let updates = all
        .iter()
        .filter(|a| matches!(a, TrainAction::Update { .. }))
        .count();
    assert_eq!(updates, 4);
    let logs: Vec<TrainAction> = all
        .iter()
        .copied()
        .filter(|a| matches!(a, TrainAction::Log { .. }))
        .collect();
    assert_eq!(
        logs,
        vec![
            TrainAction::Log { step: 0, window: 0 },
            TrainAction::Log { step: 3, window: 3 },
        ]
    );
}

#[test]
fn without_a_log_cadence_only_the_first_step_is_logged() {
    let all = actions(Pace {
        num_iters: 3,
        grad_accum: 2,
        log_every: 0,
        eval_every: 0,
        sample_every: 0,
        rescale: false,
        master: true,
    });
    let logs: Vec<TrainAction> = all
        .iter()
        .copied()
        .filter(|a| matches!(a, TrainAction::Log { .. }))
        .collect();
    assert_eq!(logs, vec![TrainAction::Log { step: 0, window: 0 }]);
    let micros = all
        .iter()
        .filter(|a| matches!(a, TrainAction::Micro { .. }))
        .count();
    assert_eq!(micros, 6);
}

#[test]
fn a_finished_run_stays_finished() {
    let mut run = TrainRun::start(Pace {
        num_iters: 0,
        grad_accum: 1,
        log_every: 1,
        eval_every: 0,
        sample_every: 0,
        rescale: false,
        master: true,
    });
    assert_eq!(run.next(), TrainAction::Finish);
    assert_eq!(run.next(), TrainAction::Finish);
}

// ---------------------------------------------------------------------------
// The learning rate
// ---------------------------------------------------------------------------

const EPS: f64 = 1e-9;
const ITERS: usize = 1000;
const WARMUP: usize = 40;
const RATIO: f64 = 0.65;
const FINAL: f64 = 0.05;

fn mult(step: usize) -> f64 {
    let warmdown = (RATIO * ITERS as f64).round() as usize;
    match lr_phase(step, ITERS, WARMUP, warmdown) {
        LrPhase::Warmup { done, of } => done as f64 / of as f64,
        LrPhase::Stable => 1.0,
        LrPhase::Warmdown { left, of } => {
            let progress = left as f64 / of as f64;
            progress + (1.0 - progress) * FINAL
        }
    }
}

#[test]
fn warmup_ramps_linearly_to_one() {
    assert!((mult(0) - 1.0 / 40.0).abs() < EPS);
    assert!((mult(19) - 0.5).abs() < EPS);
    assert!((mult(39) - 1.0).abs() < EPS);
    assert_eq!(DEFAULT_WARMUP_STEPS, WARMUP);
}

#[test]
fn stable_phase_is_one() {
    assert!((mult(200) - 1.0).abs() < EPS);
    assert!((mult(350) - 1.0).abs() < EPS);
}

#[test]
fn warmdown_linear_to_final_frac() {
    assert!(mult(351) < 1.0, "decay should have begun: {}", mult(351));
    assert!((mult(675) - 0.525).abs() < EPS);
    assert!((mult(1000) - FINAL).abs() < EPS);
}

#[test]
fn never_below_final_frac_after_warmup() {
    for step in WARMUP..=ITERS {
        let m = mult(step);
        assert!(m >= FINAL - EPS, "step {step}: {m} < {FINAL}");
        assert!(m <= 1.0 + EPS, "step {step}: {m} > 1.0");
    }
}

#[test]
fn phases_are_exact_fractions() {
    assert_eq!(lr_phase(0, 10, 2, 4), LrPhase::Warmup { done: 1, of: 2 });
    assert_eq!(lr_phase(6, 10, 2, 4), LrPhase::Stable);
    assert_eq!(lr_phase(7, 10, 2, 4), LrPhase::Warmdown { left: 3, of: 4 });
    assert_eq!(lr_phase(10, 10, 2, 4), LrPhase::Warmdown { left: 0, of: 4 });
}

// ---------------------------------------------------------------------------
// Parameters
// ---------------------------------------------------------------------------

/// The parameters of a model with so many blocks, in no particular order.
fn parameter_names(n_layer: usize) -> Vec<String> {
    let mut names = vec!["lm_head.weight".to_string()];
    for i in (0..n_layer).rev() {
        for part in ["attn.c_q", "mlp.c_proj", "attn.c_k", "attn.c_v", "mlp.c_fc", "attn.c_proj"] {
            names.push(format!("blocks.{i}.{part}.weight"));
        }
    }
    names.push("wte.weight".to_string());
    names
}

#[test]
fn classify_routes_by_name() {
    assert_eq!(classify("wte.weight"), Some(Group::Embedding));
    assert_eq!(classify("lm_head.weight"), Some(Group::Unembedding));
    assert_eq!(classify("blocks.0.attn.c_q.weight"), Some(Group::Matrix));
    assert_eq!(classify("blocks.5.mlp.c_proj.weight"), Some(Group::Matrix));
    assert!(classify("mystery.weight").is_none());
}

#[test]
fn partition_routes_every_param() {
    let n_layer = 2;
    let names = parameter_names(n_layer);
    let g = partition(&names).unwrap();
    assert_eq!(g.embedding.len(), 1);
    assert_eq!(g.unembedding.len(), 1);
    assert_eq!(g.matrix.len(), 6 * n_layer);
    let total = g.embedding.len() + g.unembedding.len() + g.matrix.len();
    assert_eq!(total, names.len());
    assert_eq!(names[g.embedding[0]], "wte.weight");
    assert_eq!(names[g.unembedding[0]], "lm_head.weight");
}

#[test]
fn an_unknown_parameter_is_refused() {
    let mut names = parameter_names(1);
    names.insert(1, "mystery.weight".to_string());
    assert_eq!(partition(&names), Err(1));
}

#[test]
fn sft_decay_literal_zeroes_only_the_matrix_group() {
    assert_eq!(
        GroupWeightDecay::finetuning(),
        GroupWeightDecay {
            embedding: double(0.001),
            unembedding: double(0.01),
            matrix: double(0.0),
        }
    );
    assert_eq!(GroupWeightDecay::default().matrix, double(0.1));
}

#[test]
fn canonical_vars_is_sorted_and_identical_across_builds() {
    let a = parameter_names(2);
    let mut b = parameter_names(2);
    b.reverse();
    let sorted = |names: &Vec<String>| -> Vec<String> {
        canonical_order(names).into_iter().map(|i| names[i].clone()).collect()
    };
    let (names_a, names_b) = (sorted(&a), sorted(&b));
    assert_eq!(names_a, names_b, "var order must not depend on the process");
    assert!(names_a.is_sorted(), "canonical order must be name-sorted");
    assert_eq!(names_a.len(), a.len(), "canonical list must cover every var");
}

#[test]
fn a_single_process_owns_the_side_effects() {
    let dist = DistCtx::single();
    assert!(dist.is_master());
    assert_eq!(dist.world_size, 1);
    assert!(!DistCtx { rank: 1, world_size: 2 }.is_master());
}

// ---------------------------------------------------------------------------
// Memory
// ---------------------------------------------------------------------------

#[test]
fn no_probe_without_the_env_var() {
    assert_eq!(MemProbe::from_setting(None, false), ProbeSetup::Off);
    assert_eq!(MemProbe::from_setting(None, true), ProbeSetup::Off);
}

#[test]
fn a_probe_needs_a_pool() {
    assert_eq!(MemProbe::from_setting(Some("1"), false), ProbeSetup::Unavailable);
    let on = |verbosity| ProbeSetup::On { probe: MemProbe { verbosity } };
    assert_eq!(MemProbe::from_setting(Some("1"), true), on(1));
    assert_eq!(MemProbe::from_setting(Some("2"), true), on(2));
    assert!(!MemProbe { verbosity: 1 }.per_micro());
    assert!(MemProbe { verbosity: 2 }.per_micro());
}

#[test]
fn verbosity_parses_off_step_and_micro() {
    assert_eq!(parse_verbosity(None), None);
    assert_eq!(parse_verbosity(Some("")), None);
    assert_eq!(parse_verbosity(Some("0")), None);
    assert_eq!(parse_verbosity(Some("1")), Some(1));
    assert_eq!(parse_verbosity(Some("2")), Some(2));
    assert_eq!(parse_verbosity(Some("yes")), None);
    assert_eq!(parse_verbosity(Some("3")), None);
    assert!(!is_known_setting(Some("yes")));
    assert!(is_known_setting(Some("")) && is_known_setting(None));
}

#[test]
fn fragmentation_is_reserved_minus_used() {
    let s = PoolStats {
        reserved: 61_440_000_000,
        used: 13_280_000_000,
        ..PoolStats::default()
    };
    assert_eq!(s.fragmentation(), 48_160_000_000);
}

#[test]
fn fragmentation_saturates_instead_of_wrapping() {
    let s = PoolStats {
        reserved: 1,
        used: 2,
        ..PoolStats::default()
    };
    assert_eq!(s.fragmentation(), 0);
}

#[test]
fn summary_reports_both_halves_and_the_gap() {
    let s = PoolStats {
        reserved: 61_440_000_000,
        reserved_high: 61_500_000_000,
        used: 13_280_000_000,
        used_high: 41_900_000_000,
        dev_free: 21_100_000_000,
        dev_total: 85_520_000_000,
    };
    let line = s.summary();
    assert!(line.contains("used 13.28 GB (peak 41.90)"), "{line}");
    assert!(line.contains("reserved 61.44 GB (peak 61.50)"), "{line}");
    assert!(line.contains("frag 48.16 GB"), "{line}");
    assert!(line.contains("dev_free 21.1/85.5 GB"), "{line}");
}

#[test]
fn summaries_round_as_floats_do() {
    for used in [0u64, 1, 4_999_999, 5_000_000, 15_000_000, 25_000_000, u64::MAX, 1 << 53, 12_345_678_901] {
        let s = PoolStats {
            used,
            reserved: used,
            ..PoolStats::default()
        };
        let want = format!("used {:.2} GB", used as f64 / 1e9);
        assert!(s.summary().starts_with(&want), "{} is not {want}", s.summary());
    }
}
