use base64::engine::general_purpose::STANDARD;
use base64::Engine;
use rs_nanogpt::binary64::{Double, Real};
use rs_nanogpt::chat::vocab_mismatch;
use rs_nanogpt::data::batch::FlatBatch;
use rs_nanogpt::sft::{
    check_start, disagreement, pack_mixture, plan_epoch, push_copies, scaled_cap, share_of_budget,
    shuffled_cap, snapshot_message, train_config, train_sources, val_budget, val_snapshot,
    val_sources, EpochError, SftConfig, SftConfigError, StartError, IDENTITY_COPIES,
    IDENTITY_FILE, VAL_CAP_GSM8K, VAL_CAP_MMLU, VAL_CAP_SMOLTALK, VAL_HEADROOM,
};
use rs_nanogpt::tasks::mixture::Source;
use rs_nanogpt::tasks::pack::{PackStats, PackedEpoch};
use rs_nanogpt::tokenizer::bpe::BpeTokenizer;
use rs_nanogpt::tokenizer::chat::{Content, Conversation, Message, Role};
use rs_nanogpt::train::optim::GroupLrs;

fn vocab_text() -> String {
    let mut text = String::new();
    for b in 0u32..256 {
        text.push_str(&format!("{} {}\n", STANDARD.encode([b as u8]), b));
    }
    text
}

fn byte_tokenizer() -> BpeTokenizer {
    BpeTokenizer::from_vocab(&vocab_text()).unwrap()
}

fn num(x: f64) -> Real {
    Real { bits: x.to_bits() }
}

fn double(d: Double) -> f64 {
    d.mantissa as f64 / d.unit as f64
}

fn valid_config() -> SftConfig {
    SftConfig {
        checkpoint: "unused".into(),
        data: "unused".into(),
        vocab: "unused".into(),
        out: "unused".into(),
        device_batch: 8,
        total_batch: 524_288,
        gpus: 1,
        num_iters: None,
        lrs: GroupLrs {
            embedding: num(0.4243),
            unembedding: num(0.01131),
            matrix: num(0.003),
        },
        init_lr_frac: num(0.8),
        warmup_steps: 0,
        warmdown_ratio: num(0.5),
        final_lr_frac: num(0.0),
        log_every: 10,
        eval_every: 200,
        eval_steps: 100,
        mmlu_epochs: 3,
        gsm8k_epochs: 4,
        seed: 42,
    }
}

fn rejects(mutate: impl FnOnce(&mut SftConfig), want: SftConfigError) {
    let mut c = valid_config();
    mutate(&mut c);
    assert_eq!(c.validate(), Err(want));
}

#[test]
fn validate_accepts_a_good_config() {
    assert_eq!(valid_config().validate(), Ok(()));
    let mut staging = valid_config();
    staging.mmlu_epochs = 0;
    staging.gsm8k_epochs = 0;
    assert_eq!(staging.validate(), Ok(()));
}

#[test]
fn validate_rejects_one_rule_at_a_time() {
    rejects(|c| c.device_batch = 0, SftConfigError::DeviceBatch);
    rejects(|c| c.gpus = 0, SftConfigError::Gpus);
    rejects(|c| c.log_every = 0, SftConfigError::LogEvery);
    rejects(|c| c.warmdown_ratio = num(1.5), SftConfigError::WarmdownRatio);
    rejects(|c| c.warmdown_ratio = num(-0.1), SftConfigError::WarmdownRatio);
    rejects(|c| c.final_lr_frac = num(2.0), SftConfigError::FinalLrFrac);
    rejects(|c| c.init_lr_frac = num(0.0), SftConfigError::InitLrFrac);
    rejects(|c| c.num_iters = Some(0), SftConfigError::NumIters);
    rejects(|c| c.eval_steps = 0, SftConfigError::EvalSteps);
    rejects(|c| c.eval_every = 0, SftConfigError::EvalEvery);
    assert_eq!(
        SftConfigError::EvalEvery.text(),
        "--eval-every must be >= 1 (it is what saves <run>/best)"
    );
}

#[test]
fn numbers_that_are_none_are_refused() {
    rejects(|c| c.warmdown_ratio = num(f64::NAN), SftConfigError::WarmdownRatio);
    rejects(|c| c.final_lr_frac = num(f64::NAN), SftConfigError::FinalLrFrac);
    rejects(|c| c.init_lr_frac = num(f64::NAN), SftConfigError::InitLrFrac);
    rejects(|c| c.init_lr_frac = num(f64::INFINITY), SftConfigError::InitLrFrac);
    rejects(|c| c.lrs.matrix = num(f64::INFINITY), SftConfigError::MatrixLr);
    let mut edge = valid_config();
    edge.warmdown_ratio = num(-0.0);
    edge.final_lr_frac = num(1.0);
    assert_eq!(edge.validate(), Ok(()));
}

#[test]
fn validate_rejects_a_non_positive_lr_in_any_group() {
    rejects(|c| c.lrs.embedding = num(0.0), SftConfigError::EmbeddingLr);
    rejects(|c| c.lrs.unembedding = num(0.0), SftConfigError::UnembeddingLr);
    rejects(|c| c.lrs.matrix = num(0.0), SftConfigError::MatrixLr);
    rejects(|c| c.lrs.matrix = num(-0.001), SftConfigError::MatrixLr);
}

// ---------------------------------------------------------------------------
// The mixtures
// ---------------------------------------------------------------------------

fn text(role: Role, s: &str) -> Message {
    Message {
        role,
        content: Content::Text(s.into()),
    }
}

fn conv(user: &str, assistant: &str) -> Conversation {
    Conversation {
        messages: vec![text(Role::User, user), text(Role::Assistant, assistant)],
    }
}

fn smoltalk(rows: usize) -> Vec<Conversation> {
    (0..rows).map(|i| conv(&format!("row {i:04}"), "ok")).collect()
}

fn identity(count: usize) -> Vec<Conversation> {
    (0..count)
        .map(|i| conv(&format!("Who are you? ({i})"), "I am nanochat."))
        .collect()
}

fn mmlu() -> Vec<Conversation> {
    vec![conv("What is 2+2?", "B")]
}

fn gsm8k() -> Vec<Conversation> {
    vec![conv("How many?", "3")]
}

fn names_and_counts(sources: &[Source]) -> Vec<(&'static str, usize)> {
    sources
        .iter()
        .map(|s| (s.name, s.conversations.len()))
        .collect()
}

#[test]
fn train_sources_repeats_each_dataset_by_its_epoch_count() {
    assert_eq!(
        names_and_counts(&train_sources(smoltalk(5), identity(3), mmlu(), 3, gsm8k(), 4)),
        vec![
            ("smoltalk", 5),
            ("identity", 3),
            ("identity", 3),
            ("mmlu", 1),
            ("mmlu", 1),
            ("mmlu", 1),
            ("gsm8k", 1),
            ("gsm8k", 1),
            ("gsm8k", 1),
            ("gsm8k", 1),
        ]
    );
    assert_eq!(IDENTITY_COPIES, 2);
    assert_eq!(IDENTITY_FILE, "identity_conversations.jsonl");
}

#[test]
fn train_sources_omits_a_dataset_at_zero_epochs() {
    assert_eq!(
        names_and_counts(&train_sources(smoltalk(5), identity(3), Vec::new(), 0, Vec::new(), 0)),
        vec![("smoltalk", 5), ("identity", 3), ("identity", 3)]
    );
}

#[test]
fn copies_hold_the_same_conversations() {
    let mut out = Vec::new();
    push_copies(&mut out, "x", smoltalk(2), 3);
    assert_eq!(names_and_counts(&out), vec![("x", 2), ("x", 2), ("x", 2)]);
    for s in &out {
        assert_eq!(s.conversations, smoltalk(2));
    }
}

#[test]
fn val_caps_scale_nanochat_ratios_to_the_snapshot_budget() {
    let budget = val_budget(100, 8);
    assert_eq!(budget, VAL_HEADROOM * 100 * 8);
    assert_eq!(budget, 12_800);

    let total = VAL_CAP_SMOLTALK + VAL_CAP_MMLU + VAL_CAP_GSM8K;
    assert_eq!(total, 29_620);
    let f = share_of_budget(budget, total);
    assert_eq!(double(f), budget as f64 / 29_620.0);
    assert_eq!(
        [
            scaled_cap(24_000, f, usize::MAX),
            scaled_cap(5_200, f, usize::MAX),
            scaled_cap(420, f, usize::MAX),
        ],
        [10_371, 2_247, 181]
    );
}

#[test]
fn val_caps_floor_at_one_and_clamp_to_what_exists() {
    let f = share_of_budget(1, 29_620);
    assert_eq!(double(f), 1.0 / 29_620.0);
    assert_eq!(scaled_cap(420, f, usize::MAX), 1, "must floor at 1, not 0");
    let all = share_of_budget(30_000, 29_620);
    assert_eq!(double(all), 1.0);
    assert_eq!(scaled_cap(24_000, all, 40), 40);
    assert_eq!(scaled_cap(24_000, all, usize::MAX), 24_000);
}

#[test]
fn val_caps_round_as_floats_do() {
    for budget in [1usize, 7, 99, 100, 1234, 12_800, 20_001, 29_619, 29_620, 50_000] {
        for total in [24_000usize, 24_420, 29_200, 29_620] {
            let want = (budget as f64 / total as f64).min(1.0);
            let f = share_of_budget(budget, total);
            assert_eq!(double(f), want, "{budget} of {total}");
            for size in [24_000usize, 5_200, 420] {
                let cap = ((size as f64 * want).round() as usize).max(1);
                assert_eq!(scaled_cap(size, f, usize::MAX), cap, "{budget} of {total}, {size}");
            }
        }
    }
}

#[test]
fn val_sources_follow_the_train_mixtures_staging() {
    let budget = 100;
    let all = val_sources(smoltalk(200), mmlu(), 3, gsm8k(), 4, budget, 42);
    assert_eq!(
        all.iter().map(|s| s.name).collect::<Vec<_>>(),
        vec!["smoltalk", "mmlu", "gsm8k"]
    );
    assert_eq!(all[0].conversations.len(), 81);

    let staged = val_sources(smoltalk(200), Vec::new(), 0, Vec::new(), 0, budget, 42);
    assert_eq!(names_and_counts(&staged), vec![("smoltalk", 100)]);
}

fn markers(s: &Source) -> Vec<String> {
    s.conversations
        .iter()
        .map(|c| match &c.messages[0].content {
            Content::Text(t) => t.clone(),
            other => panic!("unexpected user content {other:?}"),
        })
        .collect()
}

#[test]
fn val_capping_shuffles_before_truncating() {
    let budget = 24;
    let capped = |seed| val_sources(smoltalk(200), Vec::new(), 0, Vec::new(), 0, budget, seed);
    let kept = markers(&capped(42)[0]);
    assert_eq!(kept.len(), budget, "the whole budget goes to smoltalk");

    let full: Vec<String> = (0..200).map(|i| format!("row {i:04}")).collect();
    assert!(
        kept.iter().all(|k| full.contains(k)),
        "the capped set must be a subset of the file"
    );
    assert_ne!(
        kept,
        full[..budget].to_vec(),
        "a file-order prefix means the shuffle was skipped"
    );

    assert_eq!(kept, markers(&capped(42)[0]));
    assert_ne!(kept, markers(&capped(43)[0]));
}

#[test]
fn a_cap_keeps_the_front_of_the_shuffled_conversations() {
    let all = shuffled_cap(smoltalk(20), usize::MAX, 7);
    let some = shuffled_cap(smoltalk(20), 5, 7);
    assert_eq!(all.len(), 20);
    assert_eq!(some[..], all[..5]);
    let mut sorted: Vec<String> = markers(&Source {
        name: "x",
        conversations: all,
    });
    sorted.sort();
    assert_eq!(
        sorted,
        markers(&Source {
            name: "x",
            conversations: smoltalk(20)
        })
    );
}

// ---------------------------------------------------------------------------
// A run
// ---------------------------------------------------------------------------

fn topics() -> Vec<Conversation> {
    (0..12)
        .map(|i| conv(&format!("tell me about topic number {i:03}"), "ok"))
        .collect()
}

fn val_epoch(eval_steps: usize) -> PackedEpoch {
    let tok = byte_tokenizer();
    let budget = val_budget(eval_steps, 2);
    let sources = val_sources(topics(), Vec::new(), 0, Vec::new(), 0, budget, 42);
    pack_mixture(&tok, &sources, 64, 42).unwrap().unwrap()
}

fn train_epoch() -> PackedEpoch {
    let tok = byte_tokenizer();
    let sources = train_sources(topics(), identity(6), Vec::new(), 0, Vec::new(), 0);
    pack_mixture(&tok, &sources, 64, 42).unwrap().unwrap()
}

#[test]
fn the_val_snapshot_covers_every_packed_val_row() {
    let device_batch = 2;
    let val_rows = val_epoch(1).stats.rows;
    assert!(val_rows >= 2 * device_batch, "fixture too small");

    let eval_steps = val_rows / device_batch;
    let epoch = val_epoch(eval_steps);
    assert_eq!(
        epoch.stats.rows, val_rows,
        "the cap must not move with eval_steps here"
    );
    let batches: Vec<FlatBatch> = val_snapshot(&epoch, device_batch, eval_steps).unwrap();
    assert_eq!(
        batches.len(),
        val_rows / device_batch,
        "the snapshot must reach every val row"
    );
    for (i, b) in batches.iter().enumerate() {
        assert_eq!(*b, epoch.batch(i, 0, 1, device_batch));
    }
}

#[test]
fn num_iters_past_the_epoch_is_rejected() {
    let epoch = train_epoch();
    let held = epoch.num_batches(1, 2);
    assert!(held > 2);
    let err = plan_epoch(&epoch.stats, held, 1, Some(10_000)).unwrap_err();
    assert_eq!(
        err,
        EpochError::TooManySteps {
            asked: 10_000,
            held
        }
    );
    let msg = err.message(1, 2, 1);
    assert!(
        msg.contains("--num-iters 10000") && msg.contains("steps this epoch holds"),
        "unhelpful message: {msg}"
    );
    assert_eq!(plan_epoch(&epoch.stats, held, 1, Some(2)), Ok(2));
    assert_eq!(plan_epoch(&epoch.stats, held, 1, None), Ok(held));
}

#[test]
fn an_epoch_without_steps_or_scored_tokens_is_rejected() {
    let mut stats: PackStats = train_epoch().stats;
    assert_eq!(
        plan_epoch(&stats, 3, 4, None),
        Err(EpochError::TooShort { rows: stats.rows })
    );
    let msg = EpochError::TooShort { rows: 5 }.message(2, 3, 4);
    assert_eq!(
        msg,
        "the train mixture packs only 5 rows, too few for one optimizer step: that needs \
         world(2) * device_batch(3) * grad_accum(4) = 24 rows"
    );
    stats.scored_tokens = 0;
    assert_eq!(
        plan_epoch(&stats, 3, 1, None),
        Err(EpochError::NothingScored { rows: stats.rows })
    );
    assert!(EpochError::NothingScored { rows: 7 }
        .message(1, 1, 1)
        .contains("packs 7 rows but scores no tokens"));
}

#[test]
fn too_few_val_batches_fails_before_the_train_render() {
    let epoch = val_epoch(10_000);
    let held = val_snapshot(&epoch, 2, 10_000).unwrap_err();
    assert_eq!(held, epoch.num_batches(1, 2));
    let msg = snapshot_message(held, 2, 10_000);
    assert!(
        msg.contains("--eval-steps") && msg.contains("lower"),
        "unhelpful message: {msg}"
    );
}

#[test]
fn a_vocab_that_disagrees_with_the_checkpoint_is_rejected() {
    let mut wider = vocab_text();
    wider.push_str("YWI= 256\n");
    let wider = BpeTokenizer::from_vocab(&wider).unwrap();
    let trained = byte_tokenizer().vocab_size();
    assert_eq!(wider.vocab_size(), trained + 1);

    assert_eq!(
        check_start(wider.vocab_size(), trained, 1, 2, 64, 128),
        Err(StartError::Vocab {
            tokens: trained + 1,
            trained
        })
    );
    let msg = vocab_mismatch("wider-vocab.txt", trained + 1, trained).unwrap();
    assert!(msg.contains("scores garbage"), "unhelpful message: {msg}");
    assert_eq!(vocab_mismatch("vocab.txt", trained, trained), None);
}

#[test]
fn a_run_starts_with_the_micro_batches_of_its_geometry() {
    assert_eq!(check_start(265, 265, 1, 2, 64, 256), Ok(2));
    assert!(matches!(
        check_start(265, 265, 1, 2, 64, 100),
        Err(StartError::Geometry { .. })
    ));
}

#[test]
fn finetuning_scores_replies_and_spares_the_matrices() {
    let mut cfg = valid_config();
    cfg.gpus = 4;
    let lrs = GroupLrs {
        embedding: num(0.1),
        unembedding: num(0.2),
        matrix: num(0.3),
    };
    let t = train_config(&cfg, 17, 3, lrs);
    assert_eq!((t.num_iters, t.grad_accum), (17, 3));
    assert_eq!(t.tokens_per_step, 131_072);
    assert!(t.targets_may_be_ignored);
    assert_eq!(t.lrs, lrs);
    assert_eq!(t.weight_decays.matrix, num(0.0));
    assert_eq!(t.weight_decays.embedding, num(0.001));
    assert_eq!(t.log_every, 10);
}

#[test]
fn ranks_that_disagree_are_found_out() {
    assert_eq!(disagreement(&vec![3, 4], &vec![6, 8], 2), None);
    assert_eq!(disagreement(&vec![3, 4, 5], &vec![6, 9, 11], 2), Some(1));
}
