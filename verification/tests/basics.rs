use rs_nanogpt::binary64::{to_double, Double, Real, Real32};
use rs_nanogpt::order::sort;
use rs_nanogpt::shuffle::{rearrange, shuffled_numbers};
use rs_nanogpt::text::{
    chars_of, decimal_string, ends_with, equals, equals_ignoring_case, find_char, parse_unsigned,
    push_left, push_right, push_signed, push_zero_padded, split_lines, split_words, starts_with,
    string_of, trim,
};

use rand::seq::SliceRandom;
use rand::SeedableRng;
use rand_chacha::ChaCha8Rng;

fn num(x: f64) -> Real {
    Real { bits: x.to_bits() }
}

fn texts(parts: Vec<Vec<char>>) -> Vec<String> {
    parts.iter().map(|p| p.iter().collect()).collect()
}

#[test]
fn numbers_are_compared_as_floats_are() {
    let values = [
        f64::NEG_INFINITY,
        -1.5,
        -f64::MIN_POSITIVE,
        -0.0,
        0.0,
        5e-324,
        0.5,
        1.0,
        1.0000000000000002,
        f64::MAX,
        f64::INFINITY,
        f64::NAN,
    ];
    for a in values {
        assert_eq!(num(a).is_finite(), a.is_finite(), "{a}");
        assert_eq!(num(a).is_positive(), a > 0.0, "{a}");
        assert_eq!(num(a).is_below_zero(), a < 0.0, "{a}");
        assert_eq!(num(a).is_fraction(), (0.0..=1.0).contains(&a), "{a}");
        for b in values {
            assert_eq!(num(a).is_less(&num(b)), a < b, "{a} < {b}");
        }
    }
}

#[test]
fn single_precision_numbers_are_ordered_totally() {
    let values = [
        -f32::NAN,
        f32::NEG_INFINITY,
        -2.0,
        -0.0,
        0.0,
        1e-45,
        3.5,
        f32::INFINITY,
        f32::NAN,
    ];
    for a in values {
        let x = Real32 { bits: a.to_bits() };
        assert_eq!(x.is_finite(), a.is_finite());
        for b in values {
            let y = Real32 { bits: b.to_bits() };
            assert_eq!(x.order_key().cmp(&y.order_key()), a.total_cmp(&b), "{a} {b}");
        }
    }
}

#[test]
fn quotients_round_as_floats_do() {
    for (a, b) in [(1u64, 3u64), (2, 3), (22, 7), (1, 29_620), (12_800, 29_620), (7, 1)] {
        let d = Double::quotient(a as u128, b as u128);
        assert_eq!(d.mantissa as f64 / d.unit as f64, a as f64 / b as f64);
        let t = d.times(1000);
        assert_eq!(t.mantissa as f64 / t.unit as f64, a as f64 / b as f64 * 1000.0);
        assert_eq!(t.round() as f64, (a as f64 / b as f64 * 1000.0).round());
    }
    for n in [0u64, 1, (1 << 53) - 1, (1 << 53) + 1, (1 << 53) + 3, u64::MAX, u64::MAX - 1024] {
        assert_eq!(to_double(n), n as f64 as u128, "{n}");
    }
}

#[test]
fn fixed_digits_round_as_floats_do() {
    for (a, b) in [(1u64, 8u64), (3, 8), (5, 8), (1, 3), (2, 3), (999, 1000), (15, 100), (25, 100), (35, 100)] {
        let d = Double::quotient(a as u128, b as u128);
        for digits in 1..=3u64 {
            let mut s = String::new();
            d.push_fixed(&mut s, digits);
            assert_eq!(s, format!("{:.*}", digits as usize, a as f64 / b as f64));
        }
    }
}

#[test]
fn positions_are_sorted_stably() {
    assert_eq!(sort(&vec![3u32, 1, 2, 1, 3]), vec![1, 3, 2, 0, 4]);
    let words: Vec<Vec<char>> = ["b", "", "ab", "a", "b", "\u{1F389}", "\u{FFFD}"]
        .iter()
        .map(|w| w.chars().collect())
        .collect();
    let order = sort(&words);
    let sorted: Vec<String> = order.iter().map(|&i| words[i].iter().collect()).collect();
    let mut want: Vec<String> = words.iter().map(|w| w.iter().collect()).collect();
    want.sort();
    assert_eq!(sorted, want);
    assert!(order.iter().position(|&i| i == 0) < order.iter().position(|&i| i == 4));
    assert!(sort(&Vec::<u32>::new()).is_empty());
}

#[test]
fn a_seed_fixes_the_order() {
    let mut want: Vec<usize> = (0..50).collect();
    want.shuffle(&mut ChaCha8Rng::seed_from_u64(42));
    assert_eq!(shuffled_numbers(50, 42), want);
    assert_ne!(shuffled_numbers(50, 43), want);
    let mut sorted = want.clone();
    sorted.sort_unstable();
    assert_eq!(sorted, (0..50).collect::<Vec<usize>>());
    assert_eq!(rearrange(vec!["a", "b", "c"], &vec![2, 0, 1]), vec!["c", "a", "b"]);
}

#[test]
fn numerals_are_written_and_read() {
    assert_eq!(decimal_string(0), "0");
    assert_eq!(decimal_string(u64::MAX), u64::MAX.to_string());
    let mut s = String::new();
    push_zero_padded(&mut s, 42, 5);
    push_signed(&mut s, -7);
    push_signed(&mut s, i64::MIN);
    assert_eq!(s, format!("00042-7{}", i64::MIN));
    let parse = |text: &str, max: u64| parse_unsigned(&chars_of(text), max);
    for text in ["0", "007", "+5", "18446744073709551615", "18446744073709551616", "", "+", "-1", " 1", "1 ", "\u{0661}"] {
        assert_eq!(parse(text, u64::MAX), text.parse::<u64>().ok(), "{text:?}");
    }
    assert_eq!(parse("256", 255), None);
    assert_eq!(parse("255", 255), Some(255));
}

#[test]
fn texts_are_split_as_the_standard_library_splits_them() {
    for text in ["", "a", "a\nb", "a\r\nb\r", "\n\n", "x\r\r\n\ny\n", "\r"] {
        let want: Vec<&str> = text.lines().collect();
        assert_eq!(texts(split_lines(&chars_of(text))), want, "{text:?}");
    }
    for text in ["", "  ", "a b", " a\t\u{3000}bc\u{85} d", "\u{2003}x", "x\u{1680}"] {
        let want: Vec<&str> = text.split_whitespace().collect();
        assert_eq!(texts(split_words(&chars_of(text))), want, "{text:?}");
        assert_eq!(string_of(trim(&chars_of(text))), text.trim());
    }
}

#[test]
fn texts_are_compared() {
    assert!(equals("abc", "abc") && !equals("abc", "ab"));
    let chars = chars_of("QuIt");
    assert!(equals_ignoring_case(&chars, "quit"));
    assert!(!equals_ignoring_case(&chars_of("\u{212A}"), "k"));
    assert!(starts_with(&chars, &chars_of("Qu")) && !starts_with(&chars, &chars_of("u")));
    assert!(ends_with(&chars, &chars_of("It")) && !ends_with(&chars, &chars_of("QuItx")));
    assert_eq!(find_char(&chars, 'I', 0), 2);
    assert_eq!(find_char(&chars, 'Q', 1), 4);
}

#[test]
fn columns_are_padded() {
    let mut s = String::new();
    push_left(&mut s, "\u{4E16}", 3);
    push_right(&mut s, "ab", 4);
    push_left(&mut s, "long", 2);
    assert_eq!(s, "\u{4E16}    ablong");
}
