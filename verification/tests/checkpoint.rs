use rs_nanogpt::checkpoint::{
    is_float, parse_meta, write_meta, CheckpointMeta, MetaError, META_FILE, MODEL_FILE,
};

/// A checkpoint's text, with the numbers as they are printed.
fn meta(rope_base: f32, norm_eps: f32, step: usize, val_bpb: f64) -> CheckpointMeta {
    CheckpointMeta {
        vocab_size: 32,
        sequence_len: 16,
        n_layer: 2,
        n_head: 2,
        n_embd: 8,
        rope_base: format!("{rope_base}"),
        norm_eps: format!("{norm_eps}"),
        step,
        val_bpb: format!("{val_bpb}"),
    }
}

#[test]
fn meta_round_trips_and_ignores_blank_lines() {
    let m = meta(100_000.0, 1e-6, 4999, 1.234_567);
    let mut text = write_meta(&m);
    text.insert_str(0, "\n   \n");
    let back = parse_meta(&text).unwrap();
    assert_eq!(back, m);
    assert_eq!(back.rope_base.parse::<f32>().unwrap(), 100_000.0);
    assert_eq!(back.norm_eps.parse::<f32>().unwrap(), 1e-6);
    assert_eq!(back.val_bpb.parse::<f64>().unwrap(), 1.234_567);
}

#[test]
fn the_text_has_a_line_for_each_key() {
    assert_eq!(
        write_meta(&meta(100_000.0, 1e-6, 4999, 1.234_567)),
        "vocab_size 32\n\
         sequence_len 16\n\
         n_layer 2\n\
         n_head 2\n\
         n_embd 8\n\
         rope_base 100000\n\
         norm_eps 0.000001\n\
         step 4999\n\
         val_bpb 1.234567\n"
    );
    assert_eq!((MODEL_FILE, META_FILE), ("model.safetensors", "meta.txt"));
}

#[test]
fn parse_rejects_invalid_meta() {
    assert!(parse_meta("vocab_size\n").is_err());
    assert!(parse_meta("vocab_size 32 64\n").is_err());
    assert!(parse_meta("vocab_size lots\n").is_err());
    assert!(parse_meta("bogus 1\n").is_err());
    let without_n_head: String = write_meta(&meta(100_000.0, 1e-6, 1, 0.5))
        .lines()
        .filter(|l| !l.starts_with("n_head "))
        .map(|l| format!("{l}\n"))
        .collect();
    assert!(parse_meta(&without_n_head).is_err());
}

#[test]
fn each_fault_is_named() {
    let fault = |text: &str| parse_meta(text).unwrap_err();
    assert_eq!(
        fault("\nvocab_size\n"),
        MetaError::NoValue {
            line: 2,
            raw: "vocab_size".into()
        }
    );
    assert_eq!(
        fault("\nvocab_size\n").message(),
        "checkpoint meta line 2: expected `key value`, got \"vocab_size\""
    );
    assert_eq!(
        fault(" step 1 2 ").message(),
        "checkpoint meta line 1: expected exactly `key value`, got \" step 1 2 \""
    );
    assert_eq!(
        fault("step -1").message(),
        "checkpoint meta: bad value for `step`: \"-1\""
    );
    assert_eq!(
        fault("bogus 1").message(),
        "checkpoint meta line 1: unknown key \"bogus\""
    );
    assert_eq!(
        fault("").message(),
        "checkpoint meta: missing key `vocab_size`"
    );
    let text = write_meta(&meta(1.0, 2.0, 1, 0.5));
    assert_eq!(
        fault(&text.replace("n_head 2\n", "")),
        MetaError::Missing {
            key: "n_head".into()
        }
    );
}

#[test]
fn of_two_values_the_later_stands() {
    let text = format!("step 7\n{}", write_meta(&meta(1.0, 2.0, 1, 0.5)));
    assert_eq!(parse_meta(&text).unwrap().step, 1);
    assert!(parse_meta(&format!("step x\n{text}")).is_err());
}

#[test]
fn numbers_with_a_fraction_are_what_floats_are_read_from() {
    for s in [
        "", "+", "-", ".", "1", "1.", ".5", "-1.5e3", "1e", "1e+", "1e+5", "1E-07", "e5", "1.2.3",
        "inf", "-Infinity", "NaN", "+nan", "infin", "0x10", "1_000", " 1", "1e5.5", "+-1", "--1",
        "1..", "5e--1", "١", "1e400", "-0", "00012.500", "nan0", "1f",
    ] {
        let chars: Vec<char> = s.chars().collect();
        assert_eq!(is_float(&chars), s.parse::<f64>().is_ok(), "{s:?}");
    }
}
