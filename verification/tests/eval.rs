use base64::engine::general_purpose::STANDARD;
use base64::Engine;
use rs_nanogpt::binary64::{Real, Real32};
use rs_nanogpt::eval::loss::{shard_batches, BpbAccumulator, Counted};
use rs_nanogpt::eval::sample::{argmax, candidates, is_greedy, EmptyPrefix, Generation, Next};
use rs_nanogpt::eval::tokenizer::{
    all_round_trip, eval_fixtures, table_header, table_row, try_eval_fixtures, Fixture,
    FixtureResult,
};
use rs_nanogpt::model::config::GptConfig;
use rs_nanogpt::tokenizer::bpe::BpeTokenizer;
use rs_nanogpt::tokenizer::shared::TokenId;

fn byte_tokenizer() -> BpeTokenizer {
    let mut text = String::new();
    for b in 0u32..256 {
        text.push_str(&format!("{} {}\n", STANDARD.encode([b as u8]), b));
    }
    BpeTokenizer::from_vocab(&text).unwrap()
}

fn scores(values: &[f32]) -> Vec<Real32> {
    values.iter().map(|v| Real32 { bits: v.to_bits() }).collect()
}

fn cfg(sequence_len: usize) -> GptConfig {
    let mut c = GptConfig::mac_smoke();
    c.sequence_len = sequence_len;
    c.n_layer = 1;
    c
}

// ---------------------------------------------------------------------------
// Generation
// ---------------------------------------------------------------------------

/// A stand-in for a model: what it says next depends on all that it sees.
fn next_id(context: &[TokenId]) -> TokenId {
    context
        .iter()
        .fold(7u32, |h, &id| h.wrapping_mul(31).wrapping_add(id))
        % 256
}

/// Generates over the cache: the model sees what is cached and what it is given.
/// Returns the ids, those that are shown, and how many the model was given.
fn generate_ids(
    prefix: &[TokenId],
    max_tokens: usize,
    stop: &[TokenId],
    seq_len: usize,
) -> Result<(Vec<TokenId>, Vec<TokenId>, Vec<usize>), EmptyPrefix> {
    let mut g = Generation::start(prefix, max_tokens, stop, &cfg(seq_len))?;
    let mut cached: Vec<TokenId> = Vec::new();
    let mut shown = Vec::new();
    let mut fed = Vec::new();
    while let Next::Feed { from } = g.next() {
        cached.truncate(g.cache.pos());
        let feed = g.ids[from..].to_vec();
        assert!(g.cache.check_room(feed.len()).is_ok());
        fed.push(feed.len());
        cached.extend(feed);
        let id = next_id(&cached);
        if g.sampled(id) {
            shown.push(id);
        }
    }
    Ok((g.into_generated(), shown, fed))
}

/// Generates with the whole context at every step.
fn generate_ids_uncached(prefix: &[TokenId], max_tokens: usize, seq_len: usize) -> Vec<TokenId> {
    let mut ids = prefix.to_vec();
    for _ in 0..max_tokens {
        let start = ids.len().saturating_sub(seq_len);
        ids.push(next_id(&ids[start..]));
    }
    ids.split_off(prefix.len())
}

fn prefix(tok: &BpeTokenizer, text: &str) -> Vec<TokenId> {
    let mut ids = vec![tok.bos_id()];
    ids.extend(tok.encode(text));
    ids
}

#[test]
fn generation_past_seq_len_crops_without_panicking() {
    let p = prefix(&byte_tokenizer(), "context");
    let (out, _, _) = generate_ids(&p, 30, &[], 8).unwrap();
    assert_eq!(out.len(), 30);
}

#[test]
fn cached_generation_matches_the_uncached_reference() {
    let p = prefix(&byte_tokenizer(), "hello");
    let (cached, _, fed) = generate_ids(&p, 20, &[], 64).unwrap();
    assert_eq!(cached.len(), 20);
    assert_eq!(cached, generate_ids_uncached(&p, 20, 64));
    assert_eq!(fed[0], p.len());
    assert!(fed[1..].iter().all(|&n| n == 1), "one id per step: {fed:?}");
}

#[test]
fn generation_past_seq_len_matches_the_uncached_reference() {
    let p = prefix(&byte_tokenizer(), "context");
    let (cached, _, _) = generate_ids(&p, 12, &[], 8).unwrap();
    assert_eq!(cached.len(), 12);
    assert_eq!(cached, generate_ids_uncached(&p, 12, 8));
    // A prefix that is longer than the context from the start.
    let long = prefix(&byte_tokenizer(), "a much longer context");
    let (cached, _, _) = generate_ids(&long, 5, &[], 8).unwrap();
    assert_eq!(cached, generate_ids_uncached(&long, 5, 8));
}

#[test]
fn stop_token_ends_generation_early() {
    let p = prefix(&byte_tokenizer(), "hi");
    let (full, _, _) = generate_ids(&p, 16, &[], 64).unwrap();
    let stop = full[2];
    let first = full.iter().position(|&id| id == stop).unwrap();

    let (out, streamed, _) = generate_ids(&p, 16, &[stop], 64).unwrap();
    assert_eq!(out, full[..=first], "generation stops on the stop id");
    assert_eq!(
        out.last(),
        Some(&stop),
        "the stop id stays in the returned ids, so history is well-formed"
    );
    assert_eq!(streamed, full[..first], "but is never handed to the caller");
}

#[test]
fn max_tokens_zero_generates_nothing() {
    let p = prefix(&byte_tokenizer(), "abc");
    let (out, shown, fed) = generate_ids(&p, 0, &[], 64).unwrap();
    assert!(out.is_empty());
    assert!(
        shown.is_empty() && fed.is_empty(),
        "the callback must not fire when nothing is generated"
    );
}

#[test]
fn empty_prefix_is_an_error_not_an_underflow() {
    let e = generate_ids(&[], 4, &[], 64)
        .expect_err("an empty prefix has no last position to read logits from");
    assert!(e.message().contains("must be non-empty"));
}

// ---------------------------------------------------------------------------
// Picking an id
// ---------------------------------------------------------------------------

#[test]
fn the_highest_score_is_picked_and_the_last_of_several() {
    assert_eq!(argmax(&scores(&[1.0, 3.0, 2.0])), 1);
    assert_eq!(argmax(&scores(&[3.0, 1.0, 3.0])), 2);
    assert_eq!(argmax(&scores(&[-0.0, 0.0, -0.0])), 1);
    assert_eq!(argmax(&scores(&[f32::NEG_INFINITY, -5.0])), 1);
    assert_eq!(argmax(&scores(&[f32::INFINITY, f32::NAN])), 1);
    let values = [0.5f32, -1.5, 7.25, 7.25, -0.0, 3.0];
    let want = values
        .iter()
        .enumerate()
        .max_by(|(_, a), (_, b)| a.total_cmp(b))
        .map(|(i, _)| i)
        .unwrap();
    assert_eq!(argmax(&scores(&values)), want);
}

#[test]
fn top_k_restricts_to_exactly_the_k_largest() {
    let logits = scores(&[9.5f32, 10.0, 9.9, 9.4]);
    let mut ids = candidates(&logits, 2);
    ids.sort_unstable();
    assert_eq!(ids, vec![1, 2]);
    assert_eq!(candidates(&logits, 0), vec![0, 1, 2, 3]);
    assert_eq!(candidates(&logits, 4), vec![0, 1, 2, 3]);
    assert_eq!(candidates(&logits, 99), vec![0, 1, 2, 3]);
}

#[test]
fn top_k_one_is_greedy() {
    for shift in 0..50u32 {
        let values: Vec<f32> = (0..40u32)
            .map(|i| ((i.wrapping_mul(2_654_435_761).wrapping_add(shift * 977)) % 1009) as f32)
            .collect();
        let s = scores(&values);
        let best = argmax(&s);
        let one = candidates(&s, 1);
        assert_eq!(values[one[0] as usize], values[best]);
        let mut top: Vec<f32> = candidates(&s, 7).iter().map(|&i| values[i as usize]).collect();
        top.sort_by(|a, b| b.total_cmp(a));
        let mut sorted = values.clone();
        sorted.sort_by(|a, b| b.total_cmp(a));
        assert_eq!(top, sorted[..7]);
    }
}

#[test]
fn a_temperature_that_is_not_above_zero_is_greedy() {
    let greedy = |t: f64| is_greedy(Real { bits: t.to_bits() });
    assert!(greedy(0.0) && greedy(-0.0) && greedy(-1.0) && greedy(f64::NEG_INFINITY));
    assert!(!greedy(1e-300) && !greedy(1.0) && !greedy(f64::INFINITY) && !greedy(f64::NAN));
}

// ---------------------------------------------------------------------------
// Scoring
// ---------------------------------------------------------------------------

/// What positions add up to: the losses per token and per byte.
fn sums(losses: &[f64], counted: &[Counted]) -> (f64, f64) {
    let mut tokens = 0.0;
    let mut bytes = 0.0;
    for (l, c) in losses.iter().zip(counted) {
        match c {
            Counted::Ignored => {}
            Counted::Token => tokens += l,
            Counted::TokenAndBytes => {
                tokens += l;
                bytes += l;
            }
        }
    }
    (tokens, bytes)
}

#[test]
fn masks_specials_from_bpb_and_ignored_from_both() {
    let loss = [1.0, 2.0, 4.0, 8.0];
    let token_bytes = vec![1u32, 3, 0, 5];
    let mut acc = BpbAccumulator::default();
    let counted = acc.add(&vec![0i64, 1, 2, -1], &token_bytes);
    assert_eq!(
        counted,
        vec![
            Counted::TokenAndBytes,
            Counted::TokenAndBytes,
            Counted::Token,
            Counted::Ignored,
        ]
    );
    let (nats, byte_nats) = sums(&loss, &counted);
    let val_loss = nats / acc.valid_tokens as f64;
    assert!((val_loss - (1.0 + 2.0 + 4.0) / 3.0).abs() < 1e-6, "{val_loss}");
    let bpb = byte_nats / (std::f64::consts::LN_2 * acc.bytes as f64);
    let want = (1.0 + 2.0) / (std::f64::consts::LN_2 * (1.0 + 3.0));
    assert!((bpb - want).abs() < 1e-6, "{bpb}");
}

#[test]
fn no_scored_bytes_are_counted_for_specials() {
    let mut acc = BpbAccumulator::default();
    acc.add(&vec![0i64, 0], &vec![0u32]);
    assert_eq!(
        acc,
        BpbAccumulator {
            valid_tokens: 2,
            bytes: 0
        }
    );
}

#[test]
fn add_accumulates_across_batches() {
    let token_bytes = vec![1u32, 2, 1];
    let mut split = BpbAccumulator::default();
    split.add(&vec![0i64, 1], &token_bytes);
    split.add(&vec![2i64, 0], &token_bytes);

    let mut combined = BpbAccumulator::default();
    combined.add(&vec![0i64, 1, 2, 0], &token_bytes);
    assert_eq!(split, combined);
    assert_eq!(combined.valid_tokens, 4);
    assert_eq!(combined.bytes, 5);
}

#[test]
fn shard_sums_partition_the_batches() {
    let numbers: Vec<u64> = vec![3, 1, 4, 1, 5];
    for num_shards in [1usize, 2, 3] {
        let mut seen: Vec<usize> = Vec::new();
        let mut merged = 0;
        for shard in 0..num_shards {
            let mine = shard_batches(numbers.len(), shard, num_shards);
            let want: Vec<usize> = (0..numbers.len()).skip(shard).step_by(num_shards).collect();
            assert_eq!(mine, want);
            merged += mine.iter().map(|&i| numbers[i]).sum::<u64>();
            seen.extend(mine);
        }
        seen.sort_unstable();
        assert_eq!(seen, vec![0, 1, 2, 3, 4]);
        assert_eq!(merged, numbers.iter().sum::<u64>());
    }
}

// ---------------------------------------------------------------------------
// Fixtures
// ---------------------------------------------------------------------------

fn fixtures() -> Vec<Fixture> {
    vec![
        Fixture {
            name: "en",
            text: "The quick brown fox.\n",
        },
        Fixture {
            name: "korean",
            text: "\u{C548}\u{B155}",
        },
        Fixture {
            name: "code",
            text: "fn main() {}\n",
        },
    ]
}

#[test]
fn eval_fixtures_returns_three_results_in_order() {
    let tok = byte_tokenizer();
    let results = eval_fixtures(&tok, &fixtures());
    let names: Vec<&str> = results.iter().map(|r| r.name).collect();
    assert_eq!(names, vec!["en", "korean", "code"]);
    assert_eq!(results[1].bytes, 6);
    assert_eq!(results[1].tokens, 6);
    assert!(all_round_trip(&results));
    assert_eq!(try_eval_fixtures(&tok, &fixtures()), Some(results));
}

#[test]
fn a_text_that_does_not_come_back_is_noticed() {
    let bad = FixtureResult {
        name: "x",
        bytes: 1,
        tokens: 1,
        round_trip_ok: false,
    };
    assert!(!all_round_trip(&vec![bad]));
    assert!(all_round_trip(&vec![]));
}

#[test]
fn the_table_lines_up() {
    let row = |name, bytes, tokens| {
        table_row(&FixtureResult {
            name,
            bytes,
            tokens,
            round_trip_ok: true,
        })
    };
    assert_eq!(
        table_header(),
        "fixture         bytes     tokens    bytes/token  round_trip"
    );
    assert_eq!(
        row("en", 2431, 1189),
        "en               2431       1189          2.045          ok"
    );
    assert_eq!(
        row("korean", 585, 583),
        "korean            585        583          1.003          ok"
    );
    assert_eq!(
        row("code", 372, 309),
        "code              372        309          1.204          ok"
    );
    assert_eq!(
        table_row(&FixtureResult {
            name: "nothing at all",
            bytes: 0,
            tokens: 0,
            round_trip_ok: false
        }),
        "nothing at all          0          0          0.000        FAIL"
    );
}

#[test]
fn ratios_round_as_floats_do() {
    let pairs: [(usize, usize); 15] = [
        (1, 3),
        (2, 3),
        (1, 8),
        (3, 16),
        (1001, 2000),
        (123_456_789, 1013),
        (5, 1),
        (0, 7),
        ((1 << 53) - 1, 1),
        ((1 << 53) + 1, 1),
        ((1 << 54) + 3, 3),
        (usize::MAX, 3),
        (usize::MAX, usize::MAX),
        (usize::MAX, 1),
        (1, usize::MAX),
    ];
    for (bytes, tokens) in pairs {
        let got = table_row(&FixtureResult {
            name: "x",
            bytes,
            tokens,
            round_trip_ok: true,
        });
        let want = format!(
            "{:<10} {:>10} {:>10} {:>14.3} {:>11}",
            "x",
            bytes,
            tokens,
            bytes as f64 / tokens as f64,
            "ok"
        );
        assert_eq!(got, want);
    }
}
