use base64::engine::general_purpose::STANDARD;
use base64::Engine;
use rs_nanogpt::data::batch::FlatBatch;
use rs_nanogpt::data::download::{
    first_step, next_step, partial_name, shard_filename, shard_indices, shard_jobs, summarize,
    FileJob, Outcome, RetryPolicy, Step, Summary, BASE_URL, MAX_SHARD,
};
use rs_nanogpt::data::loader::{
    encode_doc, split_rows, BatchAssembler, DataLoader, EmptyCorpus, LoaderAction,
};
use rs_nanogpt::data::parquet::{
    list_shards, read_all, shards_for_split, BatchEvent, ReadAction, ShardTextIter, Split,
    TooFewShards,
};
use rs_nanogpt::tokenizer::bpe::BpeTokenizer;

fn byte_tokenizer() -> BpeTokenizer {
    let mut text = String::new();
    for b in 0u32..256 {
        text.push_str(&format!("{} {}\n", STANDARD.encode([b as u8]), b));
    }
    BpeTokenizer::from_vocab(&text).unwrap()
}

fn byte_id(b: u8) -> u32 {
    b as u32
}

fn names(list: &[&str]) -> Vec<String> {
    list.iter().map(|s| s.to_string()).collect()
}

/// Runs a loader over the documents, again and again, until a batch is done.
fn next_batch(loader: &mut DataLoader, docs: &[Vec<u32>], at: &mut usize) -> FlatBatch {
    loop {
        match loader.poll() {
            LoaderAction::Batch(b) => return b,
            LoaderAction::Placed => {}
            LoaderAction::NeedDoc => {
                if *at == docs.len() {
                    loader.end_pass().unwrap();
                    *at = 0;
                }
                loader.feed_doc(docs[*at].clone());
                *at += 1;
            }
        }
    }
}

fn encoded(tok: &BpeTokenizer, text: &str) -> Vec<u32> {
    encode_doc(tok, text).unwrap().unwrap()
}

// ---------------------------------------------------------------------------
// Packing documents into rows
// ---------------------------------------------------------------------------

#[test]
fn over_long_doc_is_cropped_to_row_length() {
    let mut p = BatchAssembler::new(vec![(0u32..12).collect()], 2, 2, 1);
    let FlatBatch { inputs, targets } = p.next_batch();
    assert_eq!(inputs, vec![0, 1, 0, 1]);
    assert_eq!(targets, vec![1, 2, 1, 2]);
}

#[test]
fn best_fit_places_largest_doc_that_fits_each_gap() {
    let docs = vec![vec![10, 11], vec![20, 21, 22], vec![30]];
    let mut p = BatchAssembler::new(docs, 1, 4, 3);
    let FlatBatch { inputs, targets } = p.next_batch();
    assert_eq!(inputs, vec![20, 21, 22, 10]);
    assert_eq!(targets, vec![21, 22, 10, 11]);
}

#[test]
fn every_packed_row_starts_on_a_doc_boundary() {
    const BOS: u32 = 99;
    let docs = vec![vec![BOS, 1, 2], vec![BOS, 3], vec![BOS, 4, 5, 6, 7, 8]];
    let (b, t) = (3usize, 3usize);
    let mut p = BatchAssembler::new(docs, b, t, 3);
    let rows = p.next_rows();
    let row_len = t + 1;
    for r in 0..b {
        assert_eq!(rows[r * row_len], BOS, "row {r} must start on a BOS");
    }
}

#[test]
fn packing_is_deterministic_for_a_fixed_source() {
    let docs: Vec<Vec<u32>> = (0..20u32)
        .map(|i| (0..(1 + i % 5)).map(|j| i * 10 + j).collect())
        .collect();
    let (b, t) = (2usize, 6usize);
    let mut p1 = BatchAssembler::new(docs.clone(), b, t, 6);
    let mut p2 = BatchAssembler::new(docs, b, t, 6);
    for _ in 0..3 {
        assert_eq!(p1.next_rows(), p2.next_rows());
    }
}

#[test]
fn cycles_through_a_finite_source_across_many_batches() {
    let docs = vec![vec![0, 1], vec![2, 3, 4], vec![5]];
    let (b, t) = (2usize, 3usize);
    let mut p = BatchAssembler::new(docs, b, t, 3);
    for _ in 0..10 {
        assert_eq!(p.next_rows().len(), b * (t + 1));
    }
}

#[test]
fn split_rows_shifts_each_row_independently() {
    let FlatBatch { inputs, targets } = split_rows(&[10, 11, 12, 20, 21, 22], 2, 2);
    assert_eq!(inputs, vec![10, 11, 20, 21]);
    assert_eq!(targets, vec![11, 12, 21, 22]);
}

#[test]
fn encode_docs_tokenizes_each_nonnull_document() {
    let tok = byte_tokenizer();
    let rows = vec![Some("ab".to_string()), None, Some("cd".to_string())];
    let docs: Vec<Vec<u32>> = read_all(&vec![vec![rows]])
        .iter()
        .map(|text| encoded(&tok, text))
        .collect();
    let bos = tok.bos_id();
    assert_eq!(
        docs,
        vec![
            vec![bos, byte_id(b'a'), byte_id(b'b')],
            vec![bos, byte_id(b'c'), byte_id(b'd')],
        ]
    );
}

#[test]
fn encode_docs_factory_yields_identical_fresh_passes() {
    let tok = byte_tokenizer();
    let files = vec![vec![vec![Some("hello".to_string()), Some("world".to_string())]]];
    let pass = || -> Vec<Vec<u32>> {
        read_all(&files).iter().map(|text| encoded(&tok, text)).collect()
    };
    let first = pass();
    let second = pass();
    assert!(!first.is_empty());
    assert_eq!(first, second);
}

#[test]
fn next_batch_packs_and_shifts_expected_token_ids() {
    let tok = byte_tokenizer();
    let docs = vec![encoded(&tok, "abcde")];
    let mut loader = DataLoader::open_with_buffer_size(1, 2, 4);
    let batch = next_batch(&mut loader, &docs, &mut 0);
    let bos = tok.bos_id();
    let (a, b) = (byte_id(b'a'), byte_id(b'b'));
    assert_eq!(batch.inputs, vec![bos, a]);
    assert_eq!(batch.targets, vec![a as i64, b as i64]);
}

#[test]
fn take_batches_is_deterministic_across_fresh_loaders() {
    let tok = byte_tokenizer();
    let docs = vec![encoded(&tok, "the quick brown fox jumps over the lazy dog")];
    let take = || -> Vec<FlatBatch> {
        let mut loader = DataLoader::open_with_buffer_size(2, 4, 4);
        let mut at = 0;
        (0..3).map(|_| next_batch(&mut loader, &docs, &mut at)).collect()
    };
    let a = take();
    let c = take();
    assert_eq!(a.len(), 3);
    for (x, y) in a.iter().zip(&c) {
        assert_eq!(x.inputs, y.inputs);
        assert_eq!(x.targets, y.targets);
    }
}

#[test]
fn loader_and_assembler_make_the_same_batches() {
    let docs: Vec<Vec<u32>> = (0..7u32)
        .map(|i| (0..(1 + i % 4)).map(|j| i * 10 + j).collect())
        .collect();
    let mut p = BatchAssembler::new(docs.clone(), 2, 5, 3);
    let mut loader = DataLoader::open_with_buffer_size(2, 5, 3);
    let mut at = 0;
    for _ in 0..6 {
        let want = p.next_batch();
        let got = next_batch(&mut loader, &docs, &mut at);
        assert_eq!(got, want);
    }
    let mut p = BatchAssembler::new(docs.clone(), 2, 5, 3);
    let mut loader = DataLoader::open_with_buffer_size(2, 5, 3);
    let mut at = 0;
    for _ in 0..6 {
        let (got, next) = loader.next_batch(&docs, at);
        at = next;
        assert_eq!(got, p.next_batch());
    }
}

#[test]
fn a_pass_without_documents_is_an_empty_corpus() {
    let mut loader = DataLoader::open_with_buffer_size(1, 1, 1);
    assert!(matches!(loader.poll(), LoaderAction::NeedDoc));
    assert_eq!(loader.end_pass(), Err(EmptyCorpus));
}

#[test]
fn the_default_pool_is_larger_than_one_document() {
    let mut loader = DataLoader::open(1, 1);
    loader.feed_doc(vec![1, 2, 3]);
    assert!(matches!(loader.poll(), LoaderAction::NeedDoc));
    assert_eq!(loader.end_pass(), Ok(()));
}

// ---------------------------------------------------------------------------
// Shards
// ---------------------------------------------------------------------------

#[test]
fn split_selects_all_but_last_and_last() {
    let all = names(&["a.parquet", "b.parquet", "c.parquet"]);
    assert_eq!(
        shards_for_split(&all, Split::Train).unwrap(),
        names(&["a.parquet", "b.parquet"])
    );
    assert_eq!(
        shards_for_split(&all, Split::Val).unwrap(),
        names(&["c.parquet"])
    );
}

#[test]
fn split_requires_at_least_two_shards() {
    let one = names(&["only.parquet"]);
    let err = shards_for_split(&one, Split::Train).unwrap_err();
    assert_eq!(err, TooFewShards { found: 1 });
    assert_eq!(
        err.message(),
        "need at least 2 shards to form train/val splits, found 1"
    );
}

#[test]
fn list_shards_returns_sorted_parquet_only() {
    let found = names(&["b.parquet", "a.parquet", "notes.txt"]);
    assert_eq!(list_shards(&found), vec!["a.parquet", "b.parquet"]);
}

#[test]
fn a_name_that_is_only_an_extension_is_no_shard() {
    let found = names(&[".parquet", "x.parquet.tmp", "parquet"]);
    assert!(list_shards(&found).is_empty());
}

#[test]
fn shard_text_iter_streams_all_rows_in_order_skipping_nulls() {
    let s0 = vec![vec![Some("alpha".to_string()), None, Some("beta".to_string())]];
    let s1 = vec![vec![Some("gamma".to_string())]];
    let docs = read_all(&vec![s0, s1]);
    assert_eq!(docs, vec!["alpha", "beta", "gamma"]);
}

#[test]
fn a_reader_asks_for_files_and_batches_and_ends_after_a_failure() {
    let mut reader = ShardTextIter::new(2);
    assert_eq!(reader.poll(), ReadAction::OpenFile { file: 0 });
    reader.file_opened(true);
    assert_eq!(reader.poll(), ReadAction::ReadBatch);
    reader.batch_read(BatchEvent::Rows {
        rows: vec![None, Some("x".to_string())],
    });
    assert_eq!(reader.poll(), ReadAction::Yield { text: "x".to_string() });
    assert_eq!(reader.poll(), ReadAction::ReadBatch);
    reader.batch_read(BatchEvent::EndOfFile);
    assert_eq!(reader.poll(), ReadAction::OpenFile { file: 1 });
    reader.file_opened(true);
    assert_eq!(reader.poll(), ReadAction::ReadBatch);
    reader.batch_read(BatchEvent::Failed);
    assert_eq!(reader.poll(), ReadAction::Finish);
    assert_eq!(reader.poll(), ReadAction::Finish);
}

// ---------------------------------------------------------------------------
// Downloads
// ---------------------------------------------------------------------------

#[test]
fn shard_filename_zero_pads_to_five_digits() {
    assert_eq!(shard_filename(0), "shard_00000.parquet");
    assert_eq!(shard_filename(42), "shard_00042.parquet");
    assert_eq!(shard_filename(MAX_SHARD), "shard_06542.parquet");
}

#[test]
fn shard_indices_appends_pinned_val_and_dedups() {
    assert_eq!(shard_indices(5, 3, Some(6542)), vec![5, 6, 7, 6542]);
    assert_eq!(shard_indices(5, 3, None), vec![5, 6, 7]);
    assert_eq!(shard_indices(0, 2, Some(1)), vec![0, 1]);
}

#[test]
fn the_pinned_shard_sorts_last_and_is_held_out() {
    let mut found: Vec<String> = shard_indices(9, 3, Some(MAX_SHARD))
        .into_iter()
        .map(shard_filename)
        .collect();
    found.reverse();
    let all = list_shards(&found);
    assert_eq!(
        shards_for_split(&all, Split::Train).unwrap(),
        names(&["shard_00009.parquet", "shard_00010.parquet", "shard_00011.parquet"])
    );
    assert_eq!(
        shards_for_split(&all, Split::Val).unwrap(),
        names(&["shard_06542.parquet"])
    );
}

#[test]
fn shard_jobs_fetch_the_range_plus_the_pinned_val_shard() {
    let jobs = shard_jobs(5, 3, Some(6542), "http://host/dir//");
    let want: Vec<FileJob> = ["00005", "00006", "00007", "06542"]
        .iter()
        .map(|n| FileJob {
            url: format!("http://host/dir/shard_{n}.parquet"),
            filename: format!("shard_{n}.parquet"),
        })
        .collect();
    assert_eq!(jobs, want);
    let one = shard_jobs(0, 1, None, BASE_URL);
    assert_eq!(one[0].url, format!("{BASE_URL}/shard_00000.parquet"));
}

#[test]
fn a_file_that_is_there_is_skipped() {
    let policy = RetryPolicy::default();
    assert_eq!(
        first_step(&policy, true),
        Step::Settled { outcome: Outcome::Skipped }
    );
    assert_eq!(first_step(&policy, false), Step::Attempt { attempt: 1 });
    let none = RetryPolicy {
        max_attempts: 0,
        backoff_base_secs: 1,
    };
    assert_eq!(
        first_step(&none, false),
        Step::Settled { outcome: Outcome::Failed }
    );
}

#[test]
fn a_failing_file_is_tried_again_with_growing_waits_and_then_given_up() {
    let policy = RetryPolicy::default();
    assert_eq!(policy.max_attempts, 5);
    let mut attempt = 1;
    let mut waits = Vec::new();
    loop {
        match next_step(&policy, attempt, false) {
            Step::Retry {
                attempt: next,
                wait_secs,
            } => {
                attempt = next;
                waits.push(wait_secs);
            }
            Step::Settled { outcome } => {
                assert_eq!(outcome, Outcome::Failed);
                break;
            }
            Step::Attempt { .. } => panic!("the first attempt was made already"),
        }
    }
    assert_eq!(waits, vec![2, 4, 8, 16]);
    assert_eq!(
        next_step(&policy, 3, true),
        Step::Settled { outcome: Outcome::Downloaded }
    );
}

#[test]
fn a_file_is_written_under_a_partial_name_first() {
    assert_eq!(partial_name("shard_00005.parquet"), "shard_00005.parquet.tmp");
}

#[test]
fn a_summary_counts_each_outcome() {
    let s = summarize(&vec![Outcome::Downloaded, Outcome::Skipped, Outcome::Failed, Outcome::Failed]);
    assert_eq!(
        s,
        Summary {
            requested: 4,
            downloaded: 1,
            skipped: 1,
            failed: 2
        }
    );
}

/// What becomes of files, each there or not, and each fetched at the given attempt
/// or at none.
fn run(there: &[bool], fetched_at: &[Option<u32>]) -> Vec<Outcome> {
    let policy = RetryPolicy::default();
    there
        .iter()
        .zip(fetched_at)
        .map(|(&present, &good)| {
            let mut step = first_step(&policy, present);
            loop {
                step = match step {
                    Step::Settled { outcome } => return outcome,
                    Step::Attempt { attempt } | Step::Retry { attempt, .. } => {
                        next_step(&policy, attempt, good == Some(attempt))
                    }
                };
            }
        })
        .collect()
}

#[test]
fn a_rerun_fetches_only_what_failed() {
    let there = [true, false, false, false];
    let first = run(&there, &[None, Some(1), None, Some(5)]);
    let s1 = summarize(&first);
    assert_eq!((s1.downloaded, s1.skipped, s1.failed), (2, 1, 1));
    let there: Vec<bool> = there
        .iter()
        .zip(&first)
        .map(|(&t, &o)| t || o == Outcome::Downloaded)
        .collect();
    let s2 = summarize(&run(&there, &[None, None, Some(2), None]));
    assert_eq!((s2.downloaded, s2.skipped, s2.failed), (1, 3, 0));
    assert_eq!(s2.skipped, s1.downloaded + s1.skipped);
}
