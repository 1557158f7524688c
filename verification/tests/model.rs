use rs_nanogpt::binary64::Real32;
use rs_nanogpt::flash_attn::{
    check_bhtd, flash_attn_bwd, flash_attn_fwd_lse, round_multiple, window, Name, Operand,
    OperandError, Sizes, Strides, Window,
};
use rs_nanogpt::model::config::{ConfigError, GptConfig};
use rs_nanogpt::model::flash_attention::{check_prefix, chunks, flash_chunk, Chunk, FLASH_CHUNK};
use rs_nanogpt::model::kv_cache::{Append, CacheError, Dims, KvCache};
use rs_nanogpt::model::loss::Reduction;

// ---------------------------------------------------------------------------
// The shape
// ---------------------------------------------------------------------------

#[test]
fn mac_smoke_is_valid_and_head_dim_64() {
    let cfg = GptConfig::mac_smoke();
    assert_eq!(cfg.head_dim(), 64);
    assert!(cfg.validate().is_ok());
    assert_eq!(f32::from_bits(cfg.rope_base.bits), 100_000.0);
    assert_eq!(f32::from_bits(cfg.norm_eps.bits), 1e-6);
}

#[test]
fn rejects_n_embd_not_divisible_by_n_head() {
    let mut cfg = GptConfig::mac_smoke();
    cfg.n_embd = 100;
    let err = cfg.validate().unwrap_err();
    assert_eq!(
        err,
        ConfigError::HeadsDoNotDivide {
            n_embd: 100,
            n_head: 6
        }
    );
    assert_eq!(
        err.message(),
        "n_embd (100) must be divisible by n_head (6) so head_dim is an integer"
    );
}

#[test]
fn rejects_zero_heads() {
    let mut cfg = GptConfig::mac_smoke();
    cfg.n_head = 0;
    let err = cfg.validate().unwrap_err();
    assert_eq!(err, ConfigError::NoHeads);
    assert_eq!(err.message(), "n_head must be non-zero");
}

#[test]
fn a_loss_is_one_number_or_one_for_each_position() {
    assert!(Reduction::Mean.shape(2, 3).is_empty());
    assert_eq!(Reduction::PerPosition.shape(2, 3), vec![2, 3]);
}

// ---------------------------------------------------------------------------
// The cache
// ---------------------------------------------------------------------------

fn cfg(n_layer: usize, sequence_len: usize) -> GptConfig {
    GptConfig {
        vocab_size: 32,
        sequence_len,
        n_layer,
        n_head: 2,
        n_embd: 8,
        rope_base: Real32 {
            bits: 100_000.0f32.to_bits(),
        },
        norm_eps: Real32 {
            bits: 1e-6f32.to_bits(),
        },
    }
}

fn span(t: usize) -> Dims {
    Dims {
        batch: 1,
        heads: 2,
        time: t,
        head_dim: 4,
    }
}

/// A buffer of one number per row, on which appends are carried out.
struct Rows {
    rows: Option<Vec<f32>>,
}

impl Rows {
    fn apply(&mut self, plan: Append, src: &[f32]) -> Vec<f32> {
        if let Some(shape) = plan.allocate {
            self.rows = Some(vec![0.0; shape.time]);
        }
        let rows = self.rows.as_mut().unwrap();
        rows[plan.at..plan.at + src.len()].copy_from_slice(src);
        rows[..plan.prefix].to_vec()
    }
}

#[test]
fn append_returns_the_running_prefix() {
    let mut cache = KvCache::new(&cfg(1, 16), 8).unwrap();
    let layer = cache.layer_mut(0);
    let (mut k_rows, mut v_rows) = (Rows { rows: None }, Rows { rows: None });

    let spans = [(3usize, 1.0f32, 0usize), (1, 2.0, 3), (2, 3.0, 4)];
    let (mut k_written, mut v_written) = (Vec::new(), Vec::new());
    for (t, fill, at) in spans {
        let src_k = vec![fill; t];
        let src_v = vec![-fill; t];
        let (k, v) = layer.append(span(t), span(t), at);
        k_written.extend(&src_k);
        v_written.extend(&src_v);
        assert_eq!(k_rows.apply(k, &src_k), k_written, "k prefix");
        assert_eq!(v_rows.apply(v, &src_v), v_written, "v prefix");
    }
}

#[test]
fn reset_rewinds_without_reallocating() {
    let capacity = 4;
    let mut cache = KvCache::new(&cfg(1, 16), capacity).unwrap();
    let mut rows = Rows { rows: None };

    let (k, _) = cache.layer_mut(0).append(span(capacity), span(capacity), 0);
    assert_eq!(k.allocate.unwrap().time, capacity);
    rows.apply(k, &[7.0; 4]);
    cache.advance(capacity);
    assert_eq!(cache.pos(), capacity);

    cache.reset();
    assert_eq!(cache.pos(), 0);

    let (k, v) = cache.layer_mut(0).append(span(1), span(1), 0);
    assert_eq!((k.allocate, v.allocate), (None, None));
    assert_eq!(rows.apply(k, &[9.0]), [9.0]);
    assert_eq!(rows.rows.unwrap(), [9.0, 7.0, 7.0, 7.0]);
}

#[test]
fn check_room_rejects_a_span_past_capacity() {
    let mut cache = KvCache::new(&cfg(1, 16), 4).unwrap();
    assert!(cache.check_room(4).is_ok());
    assert!(cache.check_room(5).is_err());
    cache.advance(3);
    assert!(cache.check_room(1).is_ok());
    let err = cache.check_room(2).unwrap_err();
    assert_eq!(
        err.message(),
        "kv-cache overflow: 3 cached + 2 new exceeds capacity 4"
    );
    assert!(cache.check_room(usize::MAX).is_err());
    assert_eq!(cache.pos(), 3, "a rejected span must not advance");
}

#[test]
fn new_rejects_capacity_beyond_sequence_len() {
    let cfg = cfg(2, 16);
    assert!(KvCache::new(&cfg, 16).is_ok());
    let err = KvCache::new(&cfg, 17).unwrap_err();
    assert_eq!(
        err,
        CacheError::TooLong {
            capacity: 17,
            sequence_len: 16
        }
    );
    assert!(err.message().starts_with("kv-cache capacity (17) exceeds sequence_len (16)"));
}

#[test]
fn layers_are_independent() {
    let mut cache = KvCache::new(&cfg(3, 16), 4).unwrap();
    assert_eq!(cache.layers.len(), 3);
    cache.layer_mut(1).append(span(1), span(1), 0);
    assert!(cache.layers[1].k.buf.is_some(), "layer 1 never written");
    for i in [0usize, 2] {
        assert!(cache.layers[i].k.buf.is_none(), "layer {i} aliases layer 1");
    }
}

// ---------------------------------------------------------------------------
// Attention in chunks
// ---------------------------------------------------------------------------

#[test]
fn no_grad_entry_rejects_a_kv_length_mismatch() {
    let (t0, t_q) = (3usize, 2usize);
    let ok = t0 + t_q;
    let short = ok - 1;
    assert!(check_prefix(t0, t_q, ok, ok).is_ok());
    assert!(check_prefix(t0, t_q, ok, short).is_err());
    assert_eq!(
        check_prefix(t0, t_q, short, ok).unwrap_err(),
        "flash-attn no-grad: k/v length 4/5 must equal kv_offset (3) + T_q (2) = 5"
    );
}

#[test]
fn chunks_cover_the_rows_and_what_they_see() {
    assert_eq!(
        chunks(7, 0, 3),
        vec![
            Chunk { start: 0, len: 3, width: 3 },
            Chunk { start: 3, len: 3, width: 6 },
            Chunk { start: 6, len: 1, width: 7 },
        ]
    );
    assert_eq!(
        chunks(2, 5, 128),
        vec![Chunk { start: 0, len: 2, width: 7 }]
    );
    assert!(chunks(0, 5, 128).is_empty());
}

#[test]
fn chunk_sizes_fall_back_to_the_default() {
    assert_eq!(flash_chunk(None), FLASH_CHUNK);
    assert_eq!(flash_chunk(Some("256")), 256);
    assert_eq!(flash_chunk(Some("0")), FLASH_CHUNK);
    assert_eq!(flash_chunk(Some("many")), FLASH_CHUNK);
    assert_eq!(flash_chunk(Some(" 64")), FLASH_CHUNK);
}

// ---------------------------------------------------------------------------
// The fused kernels
// ---------------------------------------------------------------------------

/// A contiguous operand.
fn packed(dims: &[usize], dtype: &str) -> Operand {
    let mut strides = vec![1; dims.len()];
    for i in (0..dims.len() - 1).rev() {
        strides[i] = strides[i + 1] * dims[i + 1];
    }
    Operand {
        dims: dims.to_vec(),
        strides,
        dtype: dtype.to_string(),
        contiguous: true,
    }
}

fn bf(b: usize, h: usize, t: usize, d: usize) -> Operand {
    packed(&[b, h, t, d], "BF16")
}

#[test]
fn rejects_unsupported_shapes() {
    let fwd = flash_attn_fwd_lse;
    let ok = bf(1, 2, 128, 128);

    assert_eq!(
        fwd(&bf(1, 4, 128, 128), &ok, &ok, true),
        Err(OperandError::Heads { q: 4, k: 2 }),
        "GQA"
    );

    let short_q = bf(1, 2, 64, 128);
    assert_eq!(
        fwd(&short_q, &ok, &ok, true),
        Err(OperandError::CausalLengths { q: 64, k: 128 }),
        "causal ragged"
    );
    let launch = fwd(&short_q, &ok, &ok, false).expect("non-causal ragged");
    assert_eq!(
        launch.sizes,
        Sizes {
            batch: 1,
            heads: 2,
            seqlen_q: 64,
            seqlen_k: 128
        },
        "non-causal ragged shape"
    );

    let f32_q = packed(&[1, 2, 128, 128], "F32");
    assert_eq!(
        fwd(&f32_q, &ok, &ok, true),
        Err(OperandError::Dtype { name: Name::Q }),
        "dtype"
    );
    let hd64 = bf(1, 2, 128, 64);
    assert_eq!(
        fwd(&hd64, &hd64, &hd64, true),
        Err(OperandError::HeadDim {
            name: Name::Q,
            head_dim: 64
        }),
        "head_dim"
    );
    let mut empty = ok.clone();
    empty.dims[2] = 0;
    assert_eq!(
        fwd(&empty, &empty, &empty, true),
        Err(OperandError::NoQueries),
        "empty seqlen"
    );

    let good_lse = packed(&[1, 2, 128], "F32");
    let bwd = |lse: &Operand| flash_attn_bwd(&ok, &ok, &ok, &ok, lse, &ok, true);
    assert!(bwd(&good_lse).is_ok());
    assert_eq!(
        bwd(&packed(&[1, 128, 2], "F32")),
        Err(OperandError::LseShape),
        "lse shape"
    );
    assert_eq!(
        bwd(&packed(&[1, 2, 128], "BF16")),
        Err(OperandError::LseDtype),
        "lse dtype"
    );
    let mut strided = good_lse.clone();
    strided.contiguous = false;
    assert_eq!(bwd(&strided), Err(OperandError::LseShape));
}

#[test]
fn operands_are_checked_one_rule_at_a_time() {
    let ok = bf(2, 3, 5, 128);
    assert_eq!(check_bhtd(&ok, Name::K), Ok((2, 3, 5)));
    assert_eq!(
        check_bhtd(&packed(&[2, 3, 128], "BF16"), Name::V),
        Err(OperandError::Rank { name: Name::V })
    );
    let mut strided = ok.clone();
    strided.strides[3] = 2;
    assert_eq!(
        check_bhtd(&strided, Name::O),
        Err(OperandError::LastDim { name: Name::O })
    );
    let other = bf(2, 3, 6, 128);
    assert_eq!(
        flash_attn_fwd_lse(&ok, &ok, &other, false),
        Err(OperandError::KeysAndValues)
    );
    let batch = bf(1, 3, 5, 128);
    assert_eq!(
        flash_attn_fwd_lse(&ok, &batch, &batch, false),
        Err(OperandError::Batch)
    );
    let lse = packed(&[2, 3, 5], "F32");
    let bwd = |o: &Operand, d_o: &Operand| flash_attn_bwd(&ok, &ok, &ok, o, &lse, d_o, true);
    assert_eq!(
        bwd(&other, &ok),
        Err(OperandError::NotLikeQueries { name: Name::O })
    );
    assert_eq!(
        bwd(&ok, &other),
        Err(OperandError::NotLikeQueries { name: Name::DO })
    );
}

#[test]
fn launches_count_their_buffers() {
    let q = bf(2, 3, 100, 128);
    let l = flash_attn_fwd_lse(&q, &q, &q, true).unwrap();
    assert_eq!(l.out_len, 2 * 3 * 100 * 128);
    assert_eq!(l.lse_len, 2 * 3 * 100);
    let strides = Strides {
        batch: 3 * 100 * 128,
        row: 128,
        head: 100 * 128,
    };
    assert_eq!((l.q, l.o), (strides, strides));
    assert_eq!(l.common.seqlen_q_rounded, 128);
    assert_eq!(l.common.head_dim_rounded, 128);
    assert_eq!(
        l.common.window,
        Window {
            is_causal: 1,
            left: 100,
            right: 0
        }
    );

    let lse = packed(&[2, 3, 100], "F32");
    let b = flash_attn_bwd(&q, &q, &q, &q, &lse, &q, true).unwrap();
    assert_eq!(b.dq_len, 2 * 3 * 100 * 128);
    assert_eq!(b.dkv_len, 2 * 3 * 100 * 128);
    assert_eq!(b.dq_accum_len, 2 * 3 * 128 * 128);
    assert_eq!(b.dsoftmax_len, 2 * 3 * 128);
    assert_eq!(
        b.common.window,
        Window {
            is_causal: 1,
            left: -1,
            right: -1
        }
    );
    assert_eq!(
        window(false, 100, false),
        Window {
            is_causal: 0,
            left: -1,
            right: -1
        }
    );
}

#[test]
fn lengths_round_up_to_multiples() {
    assert_eq!(round_multiple(0, 128), 0);
    assert_eq!(round_multiple(1, 128), 128);
    assert_eq!(round_multiple(128, 128), 128);
    assert_eq!(round_multiple(129, 128), 256);
    assert_eq!(round_multiple(33, 32), 64);
}
