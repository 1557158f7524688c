use base64::engine::general_purpose::STANDARD;
use base64::Engine;
use std::collections::VecDeque;

use rs_nanogpt::binary64::Double;
use rs_nanogpt::tasks::pack::{
    pack_epoch, pack_epoch_with_buffer, refill, EpochExhausted, PackStats, PackedEpoch,
    BUFFER_SIZE,
};
use rs_nanogpt::tokenizer::bpe::BpeTokenizer;
use rs_nanogpt::tokenizer::chat::{Content, Conversation, Message, RenderedConversation, Role};
use rs_nanogpt::tokenizer::shared::TokenId;

const BOS: TokenId = 99;

fn byte_tokenizer() -> BpeTokenizer {
    let mut text = String::new();
    for b in 0u32..256 {
        text.push_str(&format!("{} {}\n", STANDARD.encode([b as u8]), b));
    }
    BpeTokenizer::from_vocab(&text).unwrap()
}

/// A conversation of `len` tokens: BOS (unscored) then `len - 1` copies of the
/// marker `k` (scored).
fn conv(k: TokenId, len: usize) -> RenderedConversation {
    assert!(len >= 2 && k != BOS);
    RenderedConversation {
        ids: std::iter::once(BOS)
            .chain(std::iter::repeat_n(k, len - 1))
            .collect(),
        mask: std::iter::once(false)
            .chain(std::iter::repeat_n(true, len - 1))
            .collect(),
    }
}

/// Rows of `capacity` where row `r` holds `r*100, r*100+1, …`.
fn epoch_of(num_rows: usize, capacity: usize) -> PackedEpoch {
    assert!(capacity < 100);
    let rows: Vec<TokenId> = (0..num_rows)
        .flat_map(|r| (0..capacity).map(move |c| (r * 100 + c) as TokenId))
        .collect();
    PackedEpoch {
        mask: vec![true; rows.len()],
        stats: PackStats {
            rows: num_rows,
            conversations: num_rows,
            pad_tokens: 0,
            total_tokens: rows.len(),
            scored_tokens: rows.len(),
        },
        rows,
        row_capacity: capacity,
    }
}

fn as_f64(d: Double) -> f64 {
    d.mantissa as f64 / d.unit as f64
}

/// The rows of a batch's inputs.
fn input_rows(inputs: &[u32], device_batch: usize) -> Vec<Vec<u32>> {
    inputs
        .chunks(inputs.len() / device_batch)
        .map(|row| row.to_vec())
        .collect()
}

#[test]
fn hand_computed_layout() {
    let epoch = pack_epoch_with_buffer(vec![conv(1, 4), conv(2, 5), conv(3, 3)], 8, BOS, 3);

    assert_eq!(
        epoch.rows,
        vec![BOS, 2, 2, 2, 2, BOS, 3, 3, BOS, 1, 1, 1, BOS, BOS, BOS, BOS]
    );
    assert_eq!(
        epoch.mask,
        vec![
            false, true, true, true, true, false, true, true, false, true, true, true, false,
            false, false, false,
        ]
    );
    assert_eq!(
        epoch.stats,
        PackStats {
            rows: 2,
            conversations: 3,
            pad_tokens: 4,
            total_tokens: 16,
            scored_tokens: 9,
        }
    );
    assert!((as_f64(epoch.stats.pad_fraction()) - 0.25).abs() < 1e-12);
    assert_eq!(as_f64(epoch.stats.scored_fraction()), 9.0 / 16.0);
}

#[test]
fn fractions_are_what_division_gives() {
    let pairs: [(usize, usize); 9] = [
        (0, 0),
        (0, 7),
        (1, 3),
        (2, 3),
        (7, 7),
        (123_456_789, 987_654_321_012),
        (7, 3),
        (usize::MAX, 1),
        (5, 0),
    ];
    for (part, total) in pairs {
        let stats = PackStats {
            rows: 0,
            conversations: 0,
            pad_tokens: part,
            total_tokens: total,
            scored_tokens: part,
        };
        let want = if total == 0 { 0.0 } else { part as f64 / total as f64 };
        assert_eq!(as_f64(stats.pad_fraction()), want);
        assert_eq!(as_f64(stats.scored_fraction()), want);
    }
}

#[test]
fn tie_keeps_the_first_candidate() {
    let epoch = pack_epoch_with_buffer(vec![conv(1, 4), conv(2, 4)], 5, BOS, 2);
    assert_eq!(epoch.rows, vec![BOS, 1, 1, 1, BOS, BOS, 2, 2, 2, BOS]);
    assert_eq!(epoch.stats.pad_tokens, 2);
}

#[test]
fn buffer_bounds_the_lookahead() {
    let stream = || vec![conv(1, 3), conv(2, 2), conv(3, 6)];

    let narrow = pack_epoch_with_buffer(stream(), 8, BOS, 2);
    assert_eq!(
        narrow.rows,
        vec![BOS, 1, 1, BOS, 2, BOS, BOS, BOS, BOS, 3, 3, 3, 3, 3, BOS, BOS]
    );

    let wide = pack_epoch_with_buffer(stream(), 8, BOS, 3);
    assert_eq!(
        wide.rows,
        vec![BOS, 3, 3, 3, 3, 3, BOS, 2, BOS, 1, 1, BOS, BOS, BOS, BOS, BOS]
    );
    assert_eq!(narrow.stats.pad_tokens, wide.stats.pad_tokens);
    assert_eq!(BUFFER_SIZE, 100);
}

#[test]
fn packing_conserves_every_conversation() {
    let capacity = 12;
    let want: Vec<(TokenId, usize)> = (1..=30u32).map(|k| (k, 2 + (k as usize * 7) % 9)).collect();
    let epoch = pack_epoch_with_buffer(
        want.iter().map(|&(k, len)| conv(k, len)).collect(),
        capacity,
        BOS,
        5,
    );

    let content: usize = want.iter().map(|&(_, len)| len).sum();
    assert_eq!(epoch.stats.conversations, want.len());
    assert_eq!(epoch.stats.total_tokens, epoch.stats.rows * capacity);
    assert_eq!(content + epoch.stats.pad_tokens, epoch.stats.total_tokens);

    let mut got: Vec<(TokenId, usize)> = Vec::new();
    for row in 0..epoch.stats.rows {
        let start = row * capacity;
        let ids = &epoch.rows[start..start + capacity];
        let mask = &epoch.mask[start..start + capacity];
        assert_eq!(ids[0], BOS, "row {row} must start with BOS");
        let mut pos = 0;
        while pos < capacity {
            assert_eq!(ids[pos], BOS, "row {row} position {pos} must be a boundary");
            assert!(!mask[pos], "a BOS is never a target");
            if pos + 1 == capacity || !mask[pos + 1] {
                assert!(ids[pos..].iter().all(|&id| id == BOS));
                assert!(mask[pos..].iter().all(|&m| !m));
                break;
            }
            let marker = ids[pos + 1];
            let len = 1 + ids[pos + 1..]
                .iter()
                .zip(&mask[pos + 1..])
                .take_while(|&(&id, &scored)| id == marker && scored)
                .count();
            got.push((marker, len));
            pos += len;
        }
    }
    got.sort_unstable();
    let mut want = want;
    want.sort_unstable();
    assert_eq!(got, want);
}

#[test]
fn packing_is_deterministic() {
    let stream = || (1..=12u32).map(|k| conv(k, 2 + (k as usize) % 5)).collect();
    let a = pack_epoch_with_buffer(stream(), 9, BOS, 4);
    let b = pack_epoch_with_buffer(stream(), 9, BOS, 4);
    assert_eq!(a.rows, b.rows);
    assert_eq!(a.mask, b.mask);
    assert_eq!(a.stats, b.stats);
    assert_eq!(a.digest(), b.digest());
}

#[test]
fn scored_tokens_counts_the_unignored_targets() {
    let epoch = pack_epoch_with_buffer(vec![conv(1, 4), conv(2, 5), conv(3, 3)], 8, BOS, 3);
    assert_eq!(
        epoch.stats.scored_tokens,
        epoch.mask.iter().filter(|&&m| m).count()
    );

    let mut view = epoch.view(0, 1, 1);
    let mut unignored = 0usize;
    for _ in 0..view.num_batches() {
        let batch = view.next_batch().unwrap();
        unignored += batch.targets.iter().filter(|&&t| t != -1).count();
    }
    assert_eq!(unignored, epoch.stats.scored_tokens);
}

#[test]
fn digest_is_order_and_mask_sensitive_and_fits_44_bits() {
    let a = pack_epoch_with_buffer(vec![conv(1, 4), conv(2, 4), conv(3, 4)], 4, BOS, 1);
    let b = pack_epoch_with_buffer(vec![conv(3, 4), conv(1, 4), conv(2, 4)], 4, BOS, 1);

    let sum = |e: &PackedEpoch| e.rows.iter().map(|&id| id as u64).sum::<u64>();
    assert_eq!(sum(&a), sum(&b), "the fixture must defeat a sum of the ids");
    assert_ne!(a.digest(), b.digest(), "digest must be order-sensitive");

    let mut c = pack_epoch_with_buffer(vec![conv(1, 4), conv(2, 4), conv(3, 4)], 4, BOS, 1);
    assert_eq!(c.rows, a.rows);
    c.mask[1] = !c.mask[1];
    assert_ne!(a.digest(), c.digest(), "digest must cover the mask");

    for e in [&a, &b, &c] {
        assert!(e.digest() < 1u64 << 44, "digest must fit 44 bits");
    }
}

#[test]
fn targets_are_ignored_exactly_where_the_shifted_mask_is_false() {
    let tok = byte_tokenizer();
    let text = |role, s: &str| Message {
        role,
        content: Content::Text(s.into()),
    };
    let conversation = Conversation {
        messages: vec![text(Role::User, "Hi"), text(Role::Assistant, "Yo")],
    };
    let rendered = tok.render_conversation(&conversation, 12).unwrap();
    assert_eq!(rendered.ids.len(), 9);

    let epoch = pack_epoch(vec![rendered], 12, tok.bos_id());
    assert_eq!(epoch.num_rows(), 1);
    assert_eq!(epoch.row_capacity(), 12);
    let batch = epoch.batch(0, 0, 1, 1);

    assert_eq!(
        batch.inputs,
        vec![256, 257, 72, 105, 258, 259, 89, 111, 260, 256, 256]
    );
    assert_eq!(
        batch.targets,
        vec![-1, -1, -1, -1, -1, 89, 111, 260, -1, -1, -1]
    );
}

#[test]
fn batches_partition_the_leading_rows() {
    for &(num_rows, world, device_batch) in &[
        (12usize, 1usize, 2usize),
        (12, 2, 2),
        (12, 3, 2),
        (13, 3, 2),
        (7, 2, 3),
        (10, 3, 1),
    ] {
        let epoch = epoch_of(num_rows, 4);
        let batches = epoch.num_batches(world, device_batch);

        let mut seen: Vec<u32> = Vec::new();
        for rank in 0..world {
            for i in 0..batches {
                let batch = epoch.batch(i, rank, world, device_batch);
                for row in input_rows(&batch.inputs, device_batch) {
                    seen.push(row[0] / 100);
                }
            }
        }
        seen.sort_unstable();

        let covered = batches * world * device_batch;
        let want: Vec<u32> = (0..covered as u32).collect();
        assert_eq!(
            seen, want,
            "rows {num_rows}, world {world}, device_batch {device_batch}"
        );
        assert_eq!(
            num_rows - covered,
            num_rows % (world * device_batch),
            "the dropped tail is exactly the remainder"
        );
    }
}

#[test]
fn view_serves_the_indexed_batches_in_order_then_errors() {
    for &(num_rows, rank, world, device_batch) in &[
        (12usize, 0usize, 1usize, 2usize),
        (12, 1, 2, 2),
        (13, 2, 3, 2),
    ] {
        let epoch = epoch_of(num_rows, 4);
        let mut view = epoch.view(rank, world, device_batch);
        let total = epoch.num_batches(world, device_batch);
        assert_eq!(view.num_batches(), total);

        for i in 0..view.num_batches() {
            let want = epoch.batch(i, rank, world, device_batch);
            let got = view.next_batch().unwrap();
            assert_eq!(
                want.inputs, got.inputs,
                "rows {num_rows}, rank {rank}/{world}, B {device_batch}, batch {i}"
            );
            assert_eq!(want.targets, got.targets);
        }
        let err = view.next_batch().unwrap_err();
        assert_eq!(
            err,
            EpochExhausted {
                total,
                world,
                device_batch
            }
        );
        assert_eq!(
            err.message(),
            format!(
                "epoch view exhausted: {total} micro-batches served at world {world} × device_batch {device_batch}"
            )
        );
    }
}

#[test]
fn num_batches_matches_a_brute_force_per_rank_count() {
    for num_rows in 0..14usize {
        for world in 1..=4usize {
            for device_batch in 1..=3usize {
                let brute = (0..world)
                    .map(|rank| (0..num_rows).filter(|r| r % world == rank).count() / device_batch)
                    .min()
                    .expect("world >= 1");
                assert_eq!(
                    epoch_of(num_rows, 4).num_batches(world, device_batch),
                    brute,
                    "rows {num_rows}, world {world}, device_batch {device_batch}"
                );
            }
        }
    }
}

#[test]
fn conversation_of_exactly_a_row_needs_no_padding() {
    let epoch = pack_epoch(vec![conv(1, 8)], 8, BOS);
    assert_eq!(epoch.rows, vec![BOS, 1, 1, 1, 1, 1, 1, 1]);
    assert_eq!(
        epoch.stats,
        PackStats {
            rows: 1,
            conversations: 1,
            pad_tokens: 0,
            total_tokens: 8,
            scored_tokens: 7,
        }
    );
}

#[test]
fn empty_mixture_packs_to_zero_rows() {
    let epoch = pack_epoch(Vec::new(), 8, BOS);
    assert_eq!(epoch.num_rows(), 0);
    assert_eq!(epoch.num_batches(1, 1), 0);
    assert_eq!(epoch.stats.total_tokens, 0);
    assert_eq!(as_f64(epoch.stats.pad_fraction()), 0.0);
}

#[test]
fn the_window_takes_the_next_conversations_in_order() {
    let markers = |convs: &[RenderedConversation]| -> Vec<TokenId> {
        convs.iter().map(|c| c.ids[1]).collect()
    };
    let mut buf = vec![conv(1, 2)];
    let mut src: VecDeque<RenderedConversation> = (2..6).map(|k| conv(k, 3)).collect();
    refill(&mut buf, &mut src, 3, 8);
    assert_eq!(markers(&buf), vec![1, 2, 3]);
    assert_eq!(markers(src.make_contiguous()), vec![4, 5]);
    refill(&mut buf, &mut src, 2, 8);
    assert_eq!(markers(&buf), vec![1, 2, 3], "a window that is too full stays as it is");
    assert_eq!(src.len(), 2);
    refill(&mut buf, &mut src, 100, 8);
    assert_eq!(markers(&buf), vec![1, 2, 3, 4, 5]);
    assert!(src.is_empty());
}
