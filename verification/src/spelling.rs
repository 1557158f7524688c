//! How numbers, lines and words are written.
use vstd::prelude::*;

use crate::text::{
    all_digits, ascii_small, decimal, digits_value, index_from, is_digit, is_space,
    lemma_decimal_digits, lemma_index_from, lemma_space_from, lines, padding, same_but_case,
    signed_decimal, space_from, trimmed, trimmed_end, trimmed_start, unsigned_value, without_cr,
    words, zero_padded,
};

verus! {

// ---------------------------------------------------------------------------
// Numbers
// ---------------------------------------------------------------------------

/// A digit more weighs ten times what stood before it, and itself.
pub proof fn digits_weigh_ten(s: Seq<char>, c: char)
    requires
        all_digits(s),
        '0' <= c && c <= '9',
    ensures
        digits_value(s.push(c)) == 10 * digits_value(s) + (c as int - '0' as int),
        digits_value(Seq::empty()) == 0,
{
    assert(s.push(c).drop_last() =~= s);
}

/// A numeral is made of digits, has no zero in front but for zero itself, and gets a
/// digit more when its number is multiplied by ten and a digit added.
pub proof fn numerals_grow_by_digits(n: nat, d: nat)
    requires
        d < 10,
    ensures
        decimal(n).len() > 0,
        all_digits(decimal(n)),
        n > 0 ==> decimal(n)[0] != '0',
        n > 0 ==> decimal(10 * n + d) == decimal(n).push(((48 + d) as u8) as char),
        n == 0 ==> decimal(d) == seq![((48 + d) as u8) as char],
        digits_value(decimal(n)) == n,
    decreases n,
{
    lemma_decimal_digits(n);
    assert((10 * n + d) / 10 == n);
    assert((10 * n + d) % 10 == d);
    if n >= 10 {
        numerals_grow_by_digits(n / 10, d);
    }
    crate::text::decimal_spells(n, n);
}

/// A padded numeral is the numeral behind as many zeros as it takes, and no more.
pub proof fn padded_numerals_have_zeros_in_front(n: nat, width: nat)
    ensures
        ({
            let s = zero_padded(n, width);
            let d = decimal(n);
            &&& s.len() == if d.len() < width {
                width
            } else {
                d.len()
            }
            &&& s.subrange(s.len() - d.len(), s.len() as int) == d
            &&& forall|i: int| 0 <= i < s.len() - d.len() ==> s[i] == '0'
        }),
{
    let s = zero_padded(n, width);
    let d = decimal(n);
    assert(s.subrange(s.len() - d.len(), s.len() as int) =~= d);
}

/// A negative number is written as its opposite behind a minus sign.
pub proof fn negative_numbers_have_a_sign(n: nat)
    requires
        n > 0,
    ensures
        signed_decimal(-(n as int)) == seq!['-'] + decimal(n),
        signed_decimal(n as int) == decimal(n),
        signed_decimal(0) == decimal(0),
{
}

/// Whether every character is one of the ten digits.
pub open spec fn is_numeral(s: Seq<char>) -> bool {
    s.len() > 0 && forall|i: int| 0 <= i < s.len() ==> '0' <= #[trigger] s[i] && s[i] <= '9'
}

/// A text is read as a number if and only if it is one or more digits, with or
/// without one plus sign in front, and the number is not above the greatest.
pub proof fn only_digits_are_read(d: Seq<char>, max: nat)
    ensures
        is_numeral(d) && digits_value(d) <= max ==> {
            &&& unsigned_value(d, max) == Some(digits_value(d))
            &&& unsigned_value(seq!['+'] + d, max) == Some(digits_value(d))
        },
        !is_numeral(d) || digits_value(d) > max ==> {
            &&& unsigned_value(seq!['+'] + d, max) is None
            &&& d.len() == 0 || d[0] != '+' ==> unsigned_value(d, max) is None
        },
{
    let p = seq!['+'] + d;
    assert(p.skip(1) =~= d);
    if all_digits(d) {
        assert forall|i: int| 0 <= i < d.len() implies '0' <= #[trigger] d[i] && d[i] <= '9' by {
            assert(is_digit(d[i]));
        }
    }
    if is_numeral(d) {
        assert(d[0] != '+');
        assert forall|i: int| 0 <= i < d.len() implies is_digit(#[trigger] d[i]) by {}
    }
}

// ---------------------------------------------------------------------------
// Space
// ---------------------------------------------------------------------------

/// Trimming takes off white space only, and all of it at both ends.
pub proof fn trimming_takes_off_the_space_at_both_ends(s: Seq<char>) -> (ends: (int, int))
    ensures
        0 <= ends.0 <= ends.1 <= s.len(),
        trimmed(s) == s.subrange(ends.0, ends.1),
        forall|i: int| 0 <= i < ends.0 || ends.1 <= i < s.len() ==> is_space(#[trigger] s[i]),
        ends.0 < ends.1 ==> !is_space(s[ends.0]) && !is_space(s[ends.1 - 1]),
{
    let a = lemma_trimmed_start(s, 0);
    let t = s.skip(a);
    let b = lemma_trimmed_end(t, t.len() as int);
    assert(s.skip(0) =~= s);
    assert(t.take(t.len() as int) =~= t);
    assert(trimmed(s) == t.take(b));
    assert(t.take(b) =~= s.subrange(a, a + b));
    assert forall|i: int| 0 <= i < a || a + b <= i < s.len() implies is_space(#[trigger] s[i]) by {
        if i >= a + b {
            assert(t[i - a] == s[i]);
        }
    }
    if b > 0 {
        assert(t[0] == s[a]);
        assert(t[b - 1] == s[a + b - 1]);
    }
    (a, a + b)
}

proof fn lemma_trimmed_start(s: Seq<char>, from: int) -> (a: int)
    requires
        0 <= from <= s.len(),
    ensures
        from <= a <= s.len(),
        trimmed_start(s.skip(from)) == s.skip(a),
        forall|i: int| from <= i < a ==> is_space(#[trigger] s[i]),
        a < s.len() ==> !is_space(s[a]),
    decreases s.len() - from,
{
    if from < s.len() && is_space(s[from]) {
        assert(s.skip(from).skip(1) =~= s.skip(from + 1));
        assert(s.skip(from)[0] == s[from]);
        lemma_trimmed_start(s, from + 1)
    } else {
        if from < s.len() {
            assert(s.skip(from)[0] == s[from]);
        }
        from
    }
}

proof fn lemma_trimmed_end(s: Seq<char>, to: int) -> (b: int)
    requires
        0 <= to <= s.len(),
    ensures
        0 <= b <= to,
        trimmed_end(s.take(to)) == s.take(b),
        forall|i: int| b <= i < to ==> is_space(#[trigger] s[i]),
        b > 0 ==> !is_space(s[b - 1]),
    decreases to,
{
    if to > 0 && is_space(s[to - 1]) {
        assert(s.take(to).drop_last() =~= s.take(to - 1));
        lemma_trimmed_end(s, to - 1)
    } else {
        to
    }
}

/// Two texts are the same but for case if and only if they are of one length, and
/// each character is the same, or the two are a capital and its small letter.
pub proof fn case_is_all_that_differs(a: Seq<char>, b: Seq<char>)
    ensures
        same_but_case(a, b) <==> a.len() == b.len() && forall|i: int|
            0 <= i < a.len() ==> {
                ||| #[trigger] a[i] == b[i]
                ||| 'A' <= a[i] && a[i] <= 'Z' && b[i] as int == a[i] as int + 32
                ||| 'A' <= b[i] && b[i] <= 'Z' && a[i] as int == b[i] as int + 32
            },
{
    if a.len() == b.len() {
        if same_but_case(a, b) {
            assert forall|i: int| 0 <= i < a.len() implies {
                ||| #[trigger] a[i] == b[i]
                ||| 'A' <= a[i] && a[i] <= 'Z' && b[i] as int == a[i] as int + 32
                ||| 'A' <= b[i] && b[i] <= 'Z' && a[i] as int == b[i] as int + 32
            } by {
                assert(ascii_small(a[i]) == ascii_small(b[i]));
            }
        } else {
            let i = choose|i: int|
                0 <= i < a.len() && ascii_small(#[trigger] a[i]) != ascii_small(b[i]);
            assert(a[i] != b[i]);
        }
    }
}

/// Texts are brought up to a width with spaces, and longer ones are left alone.
pub proof fn padding_is_spaces(len: int, width: int)
    requires
        0 <= len,
    ensures
        len + padding(len, width).len() == if len < width {
            width
        } else {
            len
        },
        forall|i: int| 0 <= i < padding(len, width).len() ==> padding(len, width)[i] == ' ',
{
}

// ---------------------------------------------------------------------------
// Lines and words
// ---------------------------------------------------------------------------

/// A line ends at a line feed, with or without a carriage return before it; what
/// follows is split by itself. A text without a line feed is one line, and none if
/// it is empty.
pub proof fn lines_end_at_line_feeds(line: Seq<char>, rest: Seq<char>)
    requires
        forall|i: int| 0 <= i < line.len() ==> line[i] != '\n',
    ensures
        lines(line.push('\n') + rest) == seq![
            if line.len() > 0 && line[line.len() - 1] == '\r' {
                line.subrange(0, line.len() - 1)
            } else {
                line
            },
        ] + lines(rest),
        line.len() > 0 ==> lines(line) == seq![line],
        lines(Seq::empty()).len() == 0,
{
    let s = line.push('\n') + rest;
    let k = index_from(s, '\n', 0);
    lemma_index_from(s, '\n', 0);
    assert(s[line.len() as int] == '\n');
    if k < line.len() {
        assert(s[k] == line[k]);
    }
    assert(s.take(k) =~= line);
    assert(s.skip(k + 1) =~= rest);
    if line.len() > 0 && line.last() == '\r' {
        assert(without_cr(line) =~= line.subrange(0, line.len() - 1));
    }
    if line.len() > 0 {
        lemma_index_from(line, '\n', 0);
    }
}

/// Words are parted by white space: what stands before a white space and what
/// stands behind it are split by themselves. A text without white space is one
/// word, and none if it is empty.
pub proof fn words_are_parted_by_space(a: Seq<char>, c: char, b: Seq<char>)
    requires
        is_space(c),
    ensures
        words(a.push(c) + b) == words(a) + words(b),
        words(Seq::empty()).len() == 0,
        a.len() > 0 && (forall|i: int| 0 <= i < a.len() ==> !is_space(#[trigger] a[i])) ==> words(a)
            == seq![a],
    decreases a.len(),
{
    let s = a.push(c) + b;
    if a.len() == 0 {
        assert(s[0] == c);
        assert(s.skip(1) =~= b);
        assert(words(a) + words(b) =~= words(b));
    } else if is_space(a[0]) {
        words_are_parted_by_space(a.skip(1), c, b);
        assert(s[0] == a[0]);
        assert(s.skip(1) =~= a.skip(1).push(c) + b);
    } else {
        let k = space_from(a, 1);
        lemma_space_from(a, 1);
        lemma_space_from(s, 1);
        let m = space_from(s, 1);
        assert(s[0] == a[0]);
        assert(s[a.len() as int] == c);
        assert forall|i: int| 0 <= i < a.len() implies #[trigger] s[i] == a[i] by {}
        if m < k {
            assert(is_space(s[m]));
            assert(s[m] == a[m]);
        }
        if k < m {
            if k < a.len() {
                assert(is_space(s[k]));
            }
        }
        assert(m == k);
        assert(s.take(k) =~= a.take(k));
        assert(s.skip(k) =~= a.skip(k).push(c) + b);
        words_are_parted_by_space(a.skip(k), c, b);
        assert(words(s) =~= words(a) + words(b));
        if forall|i: int| 0 <= i < a.len() ==> !is_space(#[trigger] a[i]) {
            if k < a.len() {
                assert(is_space(a[k]));
            }
            assert(a.take(k) =~= a);
            assert(a.skip(k) =~= Seq::empty());
            assert(words(a) =~= seq![a]);
        }
    }
}

} // verus!
