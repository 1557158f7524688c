//! Text as sequences of characters: conversions between `&str`, `String` and
//! `Vec<char>`, decimal numerals, and the splitting of a text into lines.
use vstd::prelude::*;
use vstd::slice::{slice_subrange, slice_to_vec};

verus! {

/// `String::push` appends one character.
pub assume_specification[ String::push ](s: &mut String, c: char)
    ensures
        final(s)@ == old(s)@.push(c),
;

/// The contents of each vector of a sequence of vectors.
pub open spec fn views<T>(v: Seq<Vec<T>>) -> Seq<Seq<T>> {
    Seq::new(v.len(), |i: int| v[i]@)
}

/// The contents of each string of a sequence of strings.
pub open spec fn string_views(v: Seq<String>) -> Seq<Seq<char>> {
    Seq::new(v.len(), |i: int| v[i]@)
}

/// The characters of `s`, in order.
pub fn chars_of(s: &str) -> (out: Vec<char>)
    ensures
        out@ == s@,
{
    let mut out: Vec<char> = Vec::new();
    for c in it: s.chars()
        invariant
            it.seq() == s@,
            out@ == s@.take(it.index() as int),
    {
        proof {
            assert(s@.take(it.index() + 1) == s@.take(it.index() as int).push(s@[it.index() as int]));
        }
        out.push(c);
    }
    assert(s@.take(s@.len() as int) == s@);
    out
}

/// The string made of the characters of `chars`.
pub fn string_of(chars: &[char]) -> (out: String)
    ensures
        out@ == chars@,
{
    let mut out = String::new();
    let mut i: usize = 0;
    while i < chars.len()
        invariant
            i <= chars@.len(),
            out@ == chars@.take(i as int),
        decreases chars@.len() - i,
    {
        assert(chars@.take(i + 1) == chars@.take(i as int).push(chars@[i as int]));
        out.push(chars[i]);
        i += 1;
    }
    assert(chars@.take(i as int) == chars@);
    out
}

/// Whether two texts hold the same characters.
pub fn same_chars(a: &[char], b: &[char]) -> (r: bool)
    ensures
        r == (a@ == b@),
{
    if a.len() != b.len() {
        return false;
    }
    let mut i: usize = 0;
    while i < a.len()
        invariant
            i <= a@.len(),
            a@.len() == b@.len(),
            forall|k: int| 0 <= k < i ==> a@[k] == b@[k],
        decreases a@.len() - i,
    {
        if a[i] != b[i] {
            assert(a@[i as int] != b@[i as int]);
            return false;
        }
        i += 1;
    }
    assert(a@ =~= b@);
    true
}

/// Whether `s` holds exactly the characters of `word`.
pub fn equals(s: &str, word: &str) -> (r: bool)
    ensures
        r == (s@ == word@),
{
    let a = chars_of(s);
    let b = chars_of(word);
    same_chars(a.as_slice(), b.as_slice())
}

/// Whether `s` begins with `prefix`.
pub open spec fn begins_with(s: Seq<char>, prefix: Seq<char>) -> bool {
    prefix.len() <= s.len() && s.take(prefix.len() as int) == prefix
}

/// Whether `s` ends with `suffix`.
pub open spec fn finishes_with(s: Seq<char>, suffix: Seq<char>) -> bool {
    suffix.len() <= s.len() && s.skip(s.len() - suffix.len()) == suffix
}

/// Whether `s` begins with `prefix`.
pub fn starts_with(s: &[char], prefix: &[char]) -> (r: bool)
    ensures
        r == begins_with(s@, prefix@),
{
    if prefix.len() > s.len() {
        return false;
    }
    let head = slice_subrange(s, 0, prefix.len());
    assert(head@ =~= s@.take(prefix@.len() as int));
    same_chars(head, prefix)
}

/// Whether `s` ends with `suffix`.
pub fn ends_with(s: &[char], suffix: &[char]) -> (r: bool)
    ensures
        r == finishes_with(s@, suffix@),
{
    if suffix.len() > s.len() {
        return false;
    }
    let tail = slice_subrange(s, s.len() - suffix.len(), s.len());
    assert(tail@ =~= s@.skip(s@.len() - suffix@.len()));
    same_chars(tail, suffix)
}

/// A character with its ASCII capital made small.
pub open spec fn ascii_small(c: char) -> char {
    if 'A' <= c && c <= 'Z' {
        (c as u8 + 32) as u8 as char
    } else {
        c
    }
}

/// Whether two texts are the same but for ASCII capitals.
pub open spec fn same_but_case(a: Seq<char>, b: Seq<char>) -> bool {
    a.len() == b.len() && forall|i: int|
        0 <= i < a.len() ==> ascii_small(#[trigger] a[i]) == ascii_small(b[i])
}

fn small(c: char) -> (r: char)
    ensures
        r == ascii_small(c),
{
    if 'A' <= c && c <= 'Z' {
        (c as u8 + 32) as char
    } else {
        c
    }
}

/// Whether `s` is `word` but for ASCII capitals.
pub fn equals_ignoring_case(s: &[char], word: &str) -> (r: bool)
    ensures
        r == same_but_case(s@, word@),
{
    let w = chars_of(word);
    if s.len() != w.len() {
        return false;
    }
    let mut i: usize = 0;
    while i < s.len()
        invariant
            i <= s@.len(),
            s@.len() == w@.len(),
            w@ == word@,
            forall|k: int| 0 <= k < i ==> ascii_small(#[trigger] s@[k]) == ascii_small(w@[k]),
        decreases s@.len() - i,
    {
        if small(s[i]) != small(w[i]) {
            assert(ascii_small(s@[i as int]) != ascii_small(w@[i as int]));
            return false;
        }
        i += 1;
    }
    true
}

/// Whether `c` has the Unicode property White_Space.
pub open spec fn is_space(c: char) -> bool {
    ||| '\u{9}' <= c && c <= '\u{d}'
    ||| c == ' '
    ||| c == '\u{85}'
    ||| c == '\u{a0}'
    ||| c == '\u{1680}'
    ||| '\u{2000}' <= c && c <= '\u{200a}'
    ||| c == '\u{2028}'
    ||| c == '\u{2029}'
    ||| c == '\u{202f}'
    ||| c == '\u{205f}'
    ||| c == '\u{3000}'
}

fn space(c: char) -> (r: bool)
    ensures
        r == is_space(c),
{
    ('\u{9}' <= c && c <= '\u{d}') || c == ' ' || c == '\u{85}' || c == '\u{a0}' || c
        == '\u{1680}' || ('\u{2000}' <= c && c <= '\u{200a}') || c == '\u{2028}' || c == '\u{2029}'
        || c == '\u{202f}' || c == '\u{205f}' || c == '\u{3000}'
}

/// `s` without the white space at its start.
pub open spec fn trimmed_start(s: Seq<char>) -> Seq<char>
    decreases s.len(),
{
    if s.len() > 0 && is_space(s[0]) {
        trimmed_start(s.skip(1))
    } else {
        s
    }
}

/// `s` without the white space at its end.
pub open spec fn trimmed_end(s: Seq<char>) -> Seq<char>
    decreases s.len(),
{
    if s.len() > 0 && is_space(s.last()) {
        trimmed_end(s.drop_last())
    } else {
        s
    }
}

/// `s` without the white space at its start and end.
pub open spec fn trimmed(s: Seq<char>) -> Seq<char> {
    trimmed_end(trimmed_start(s))
}

/// `s` without the white space at its start and end.
pub fn trim(s: &[char]) -> (out: &[char])
    ensures
        out@ == trimmed(s@),
{
    let mut from: usize = 0;
    assert(s@.skip(0) =~= s@);
    while from < s.len() && space(s[from])
        invariant
            from <= s@.len(),
            trimmed_start(s@) == trimmed_start(s@.skip(from as int)),
        decreases s@.len() - from,
    {
        assert(s@.skip(from as int).skip(1) =~= s@.skip(from + 1));
        from += 1;
    }
    let ghost head = s@.skip(from as int);
    assert(trimmed_start(s@) == head);
    let mut to: usize = s.len();
    assert(s@.subrange(from as int, to as int) =~= head);
    while to > from && space(s[to - 1])
        invariant
            from <= to <= s@.len(),
            trimmed_end(head) == trimmed_end(s@.subrange(from as int, to as int)),
        decreases to,
    {
        assert(s@.subrange(from as int, to as int).drop_last() =~= s@.subrange(
            from as int,
            to - 1,
        ));
        to -= 1;
    }
    slice_subrange(s, from, to)
}

/// What `format!("{:?}")` makes of a text: the text in quotes, with escapes.
pub uninterp spec fn quoted(text: Seq<char>) -> Seq<char>;

/// The `Debug` form of a `str`, as `format!` writes it. It is a function of the
/// text.
#[verifier::external_body]
pub(crate) fn quote(text: &str) -> (s: String)
    ensures
        s@ == quoted(text@),
{
    format!("{:?}", text)
}

// ---------------------------------------------------------------------------
// Decimal numerals
// ---------------------------------------------------------------------------

/// The decimal digit `d` as a character.
pub open spec fn digit_char(d: nat) -> char {
    (48 + d) as u8 as char
}

/// The decimal numeral of `n`, without leading zeros.
pub open spec fn decimal(n: nat) -> Seq<char>
    decreases n,
{
    if n < 10 {
        seq![digit_char(n)]
    } else {
        decimal(n / 10).push(digit_char(n % 10))
    }
}

/// The decimal numeral of `n`, filled up with zeros on the left to `width`
/// characters.
pub open spec fn zero_padded(n: nat, width: nat) -> Seq<char> {
    let d = decimal(n);
    if d.len() < width {
        Seq::new((width - d.len()) as nat, |i: int| '0') + d
    } else {
        d
    }
}

/// Appends the decimal numeral of `n`.
pub fn push_wide_decimal(s: &mut String, n: u128)
    ensures
        final(s)@ == old(s)@ + decimal(n as nat),
    decreases n,
{
    let d: u8 = 48 + (n % 10) as u8;
    if n >= 10 {
        push_wide_decimal(s, n / 10);
    }
    s.push(d as char);
    assert(s@ == old(s)@ + decimal(n as nat));
}

/// Appends the decimal numeral of `n`.
pub fn push_decimal(s: &mut String, n: u64)
    ensures
        final(s)@ == old(s)@ + decimal(n as nat),
{
    push_wide_decimal(s, n as u128);
}

/// The decimal numeral of `n`.
pub fn decimal_string(n: u64) -> (s: String)
    ensures
        s@ == decimal(n as nat),
{
    let mut s = String::new();
    push_decimal(&mut s, n);
    assert(s@ == decimal(n as nat));
    s
}

/// The number of characters of the decimal numeral of `n`.
fn decimal_width(n: u64) -> (w: u64)
    ensures
        w == decimal(n as nat).len(),
        1 <= w <= n + 1,
    decreases n,
{
    if n < 10 {
        1
    } else {
        decimal_width(n / 10) + 1
    }
}

/// Appends the decimal numeral of `n`, filled up with zeros on the left to
/// `width` characters.
pub fn push_zero_padded(s: &mut String, n: u64, width: u64)
    ensures
        final(s)@ == old(s)@ + zero_padded(n as nat, width as nat),
{
    let w: u64 = decimal_width(n);
    let mut i: u64 = w;
    while i < width
        invariant
            w <= i,
            i <= width || w > width,
            i == w || i <= width,
            s@ == old(s)@ + Seq::new((i - w) as nat, |k: int| '0'),
        decreases width - i,
    {
        s.push('0');
        i += 1;
        assert(s@ == old(s)@ + Seq::new((i - w) as nat, |k: int| '0'));
    }
    push_decimal(s, n);
    assert(s@ == old(s)@ + zero_padded(n as nat, width as nat));
}

/// The decimal numeral of `n`, with a minus sign where it is negative.
pub open spec fn signed_decimal(n: int) -> Seq<char> {
    if n < 0 {
        seq!['-'] + decimal((-n) as nat)
    } else {
        decimal(n as nat)
    }
}

/// Appends the decimal numeral of `n`.
pub fn push_signed(s: &mut String, n: i64)
    ensures
        final(s)@ == old(s)@ + signed_decimal(n as int),
{
    if n < 0 {
        s.push('-');
        let m: u64 = (-(n + 1)) as u64 + 1;
        push_decimal(s, m);
        assert(s@ =~= old(s)@ + signed_decimal(n as int));
    } else {
        push_decimal(s, n as u64);
    }
}

/// Whether `c` is one of the ten decimal digits.
pub open spec fn is_digit(c: char) -> bool {
    '0' <= c && c <= '9'
}

/// Whether every character of `s` is a decimal digit.
pub open spec fn all_digits(s: Seq<char>) -> bool {
    forall|i: int| 0 <= i < s.len() ==> is_digit(#[trigger] s[i])
}

/// The number that a text of decimal digits stands for.
pub open spec fn digits_value(s: Seq<char>) -> nat
    decreases s.len(),
{
    if s.len() == 0 {
        0
    } else {
        (digits_value(s.drop_last()) * 10 + (s.last() as nat - 48)) as nat
    }
}

/// The unsigned number that `s` spells, if it is an optional `+` followed by
/// one or more decimal digits and no more than `max`.
pub open spec fn unsigned_value(s: Seq<char>, max: nat) -> Option<nat> {
    let d = if s.len() > 0 && s[0] == '+' {
        s.skip(1)
    } else {
        s
    };
    if d.len() > 0 && all_digits(d) && digits_value(d) <= max {
        Some(digits_value(d))
    } else {
        None
    }
}

/// A longer text of digits stands for no smaller a number.
proof fn lemma_digits_value_prefix(s: Seq<char>, k: int)
    requires
        all_digits(s),
        0 <= k <= s.len(),
    ensures
        digits_value(s.take(k)) <= digits_value(s),
    decreases s.len() - k,
{
    if k < s.len() {
        lemma_digits_value_prefix(s, k + 1);
        assert(s.take(k + 1).drop_last() == s.take(k));
        assert(s.take(k + 1).last() == s[k]);
    } else {
        assert(s.take(k) == s);
    }
}

/// Reads an unsigned number of at most `max`.
pub fn parse_unsigned(s: &[char], max: u64) -> (r: Option<u64>)
    ensures
        match r {
            Some(v) => unsigned_value(s@, max as nat) == Some(v as nat),
            None => unsigned_value(s@, max as nat) is None,
        },
{
    let start: usize = if s.len() > 0 && s[0] == '+' {
        1
    } else {
        0
    };
    let ghost d = s@.skip(start as int);
    assert(start == 0 ==> d == s@);
    if start == s.len() {
        return None;
    }
    let mut v: u64 = 0;
    let mut i: usize = start;
    while i < s.len()
        invariant
            start <= i <= s@.len(),
            start <= 1,
            d == s@.skip(start as int),
            all_digits(d.take(i - start)),
            v == digits_value(d.take(i - start)),
            v <= max,
            start == 1 <==> (s@.len() > 0 && s@[0] == '+'),
            start == 0 ==> d == s@,
        decreases s@.len() - i,
    {
        let c: char = s[i];
        proof {
            let k = i - start;
            assert(d[k] == s@[i as int]);
            assert(d.take(k + 1).drop_last() == d.take(k));
            assert(d.take(k + 1).last() == d[k]);
        }
        if c < '0' || c > '9' {
            assert(!is_digit(d[i - start]));
            return None;
        }
        let x: u64 = c as u64 - 48;
        assert forall|j: int| 0 <= j < i + 1 - start implies is_digit(
            #[trigger] d.take(i + 1 - start)[j],
        ) by {
            if j < i - start {
                assert(d.take(i + 1 - start)[j] == d.take(i - start)[j]);
            }
        }
        if v > max / 10 || x > max - v * 10 {
            proof {
                if all_digits(d) {
                    lemma_digits_value_prefix(d, i + 1 - start);
                }
            }
            return None;
        }
        v = v * 10 + x;
        i += 1;
    }
    assert(d.take(i - start) == d);
    Some(v)
}

/// The numeral of a number spells that number.
pub proof fn decimal_spells(n: nat, max: nat)
    requires
        n <= max,
    ensures
        unsigned_value(decimal(n), max) == Some(n),
{
    lemma_decimal_digits(n);
}

/// A numeral is a non-empty text of digits that stands for its number.
pub proof fn lemma_decimal_digits(n: nat)
    ensures
        decimal(n).len() > 0,
        all_digits(decimal(n)),
        digits_value(decimal(n)) == n,
    decreases n,
{
    if n < 10 {
        let s = decimal(n);
        assert(s.drop_last() == Seq::<char>::empty());
        assert(digits_value(s.drop_last()) == 0);
    } else {
        lemma_decimal_digits(n / 10);
        let s = decimal(n);
        assert(s.drop_last() == decimal(n / 10));
        assert(s.last() == digit_char(n % 10));
        assert(digits_value(s) == (n / 10) * 10 + n % 10);
        assert forall|i: int| 0 <= i < s.len() implies is_digit(#[trigger] s[i]) by {
            if i < s.len() - 1 {
                assert(s[i] == decimal(n / 10)[i]);
            }
        }
    }
}

// ---------------------------------------------------------------------------
// Searching and splitting
// ---------------------------------------------------------------------------

/// The first position at or after `from` that holds `c`, or the length of `s`.
pub open spec fn index_from(s: Seq<char>, c: char, from: int) -> int
    decreases s.len() - from,
{
    if from >= s.len() {
        s.len() as int
    } else if s[from] == c {
        from
    } else {
        index_from(s, c, from + 1)
    }
}

/// What `index_from` finds: nothing before it holds `c`, and it holds `c`
/// unless it is the end.
pub proof fn lemma_index_from(s: Seq<char>, c: char, from: int)
    requires
        0 <= from <= s.len(),
    ensures
        from <= index_from(s, c, from) <= s.len(),
        index_from(s, c, from) < s.len() ==> s[index_from(s, c, from)] == c,
        forall|k: int| from <= k < index_from(s, c, from) ==> s[k] != c,
    decreases s.len() - from,
{
    if from < s.len() && s[from] != c {
        lemma_index_from(s, c, from + 1);
    }
}

/// The first position at or after `from` that holds `c`, or the length of `s`.
pub fn find_char(s: &[char], c: char, from: usize) -> (r: usize)
    requires
        from <= s@.len(),
    ensures
        r == index_from(s@, c, from as int),
        from <= r <= s@.len(),
        r < s@.len() ==> s@[r as int] == c,
        forall|k: int| from <= k < r ==> s@[k] != c,
{
    let mut i: usize = from;
    while i < s.len() && s[i] != c
        invariant
            from <= i <= s@.len(),
            index_from(s@, c, from as int) == index_from(s@, c, i as int),
            forall|k: int| from <= k < i ==> s@[k] != c,
        decreases s@.len() - i,
    {
        i += 1;
    }
    i
}

/// A line without the carriage return that belongs to its line ending.
pub open spec fn without_cr(s: Seq<char>) -> Seq<char> {
    if s.len() > 0 && s.last() == '\r' {
        s.drop_last()
    } else {
        s
    }
}

/// The lines of a text. A line ends at `\n` or `\r\n`; the last line may go
/// without a line ending, and then keeps a carriage return.
pub open spec fn lines(s: Seq<char>) -> Seq<Seq<char>>
    decreases s.len(),
{
    if s.len() == 0 {
        Seq::empty()
    } else {
        let k = index_from(s, '\n', 0);
        if k >= s.len() || k < 0 {
            seq![s]
        } else {
            seq![without_cr(s.take(k))] + lines(s.skip(k + 1))
        }
    }
}

/// The first newline of the rest of a text, counted in the whole text.
proof fn lemma_index_from_skip(s: Seq<char>, c: char, at: int, from: int)
    requires
        0 <= at <= from <= s.len(),
    ensures
        index_from(s.skip(at), c, from - at) == index_from(s, c, from) - at,
    decreases s.len() - from,
{
    if from < s.len() && s[from] != c {
        lemma_index_from_skip(s, c, at, from + 1);
    }
}

/// Splits a text into its lines.
pub fn split_lines(s: &[char]) -> (out: Vec<Vec<char>>)
    ensures
        views(out@) == lines(s@),
{
    let mut out: Vec<Vec<char>> = Vec::new();
    let mut at: usize = 0;
    assert(s@.skip(0) == s@);
    assert(views(out@) + lines(s@.skip(0)) == lines(s@));
    while at < s.len()
        invariant
            at <= s@.len(),
            views(out@) + lines(s@.skip(at as int)) == lines(s@),
        decreases s@.len() - at,
    {
        let ghost before = views(out@);
        let ghost rest = s@.skip(at as int);
        let k: usize = find_char(s, '\n', at);
        proof {
            lemma_index_from_skip(s@, '\n', at as int, at as int);
        }
        if k == s.len() {
            let line = slice_to_vec(slice_subrange(s, at, k));
            assert(line@ == rest);
            out.push(line);
            assert(views(out@) == before + seq![rest]);
            at = k;
            assert(s@.skip(at as int) == Seq::<char>::empty());
            assert(views(out@) + lines(s@.skip(at as int)) == before + seq![rest]);
        } else {
            let end: usize = if k > at && s[k - 1] == '\r' {
                k - 1
            } else {
                k
            };
            let line = slice_to_vec(slice_subrange(s, at, end));
            assert(line@ == without_cr(rest.take(k - at)));
            out.push(line);
            assert(views(out@) == before + seq![without_cr(rest.take(k - at))]);
            at = k + 1;
            assert(s@.skip(at as int) == rest.skip(at - (s@.len() - rest.len())));
            assert(views(out@) + lines(s@.skip(at as int)) == before + lines(rest));
        }
    }
    assert(s@.skip(at as int) == Seq::<char>::empty());
    assert(views(out@) == views(out@) + lines(s@.skip(at as int)));
    out
}

/// The first position at or after `from` that holds white space, or the length
/// of `s`.
pub open spec fn space_from(s: Seq<char>, from: int) -> int
    decreases s.len() - from,
{
    if from >= s.len() {
        s.len() as int
    } else if is_space(s[from]) {
        from
    } else {
        space_from(s, from + 1)
    }
}

/// The words of a text: its longest stretches without white space.
pub open spec fn words(s: Seq<char>) -> Seq<Seq<char>>
    decreases s.len(),
{
    if s.len() == 0 {
        Seq::empty()
    } else if is_space(s[0]) {
        words(s.skip(1))
    } else {
        let k = space_from(s, 1);
        if 1 <= k <= s.len() {
            seq![s.take(k)] + words(s.skip(k))
        } else {
            Seq::empty()
        }
    }
}

/// What `space_from` finds: nothing before it is white space, and it is unless
/// it is the end.
pub proof fn lemma_space_from(s: Seq<char>, from: int)
    requires
        0 <= from <= s.len(),
    ensures
        from <= space_from(s, from) <= s.len(),
        space_from(s, from) < s.len() ==> is_space(s[space_from(s, from)]),
        forall|k: int| from <= k < space_from(s, from) ==> !is_space(#[trigger] s[k]),
    decreases s.len() - from,
{
    if from < s.len() && !is_space(s[from]) {
        lemma_space_from(s, from + 1);
    }
}

proof fn lemma_space_from_skip(s: Seq<char>, at: int, from: int)
    requires
        0 <= at <= from <= s.len(),
    ensures
        space_from(s.skip(at), from - at) == space_from(s, from) - at,
    decreases s.len() - from,
{
    if from < s.len() && !is_space(s[from]) {
        lemma_space_from_skip(s, at, from + 1);
    }
}

/// Splits a text into its words.
pub fn split_words(s: &[char]) -> (out: Vec<Vec<char>>)
    ensures
        views(out@) == words(s@),
{
    let mut out: Vec<Vec<char>> = Vec::new();
    let mut at: usize = 0;
    assert(s@.skip(0) =~= s@);
    assert(views(out@) + words(s@.skip(0)) =~= words(s@));
    while at < s.len()
        invariant
            at <= s@.len(),
            views(out@) + words(s@.skip(at as int)) == words(s@),
        decreases s@.len() - at,
    {
        let ghost before = views(out@);
        let ghost rest = s@.skip(at as int);
        if space(s[at]) {
            assert(rest.skip(1) =~= s@.skip(at + 1));
            at += 1;
        } else {
            let mut k: usize = at + 1;
            while k < s.len() && !space(s[k])
                invariant
                    at < k <= s@.len(),
                    space_from(s@, at + 1) == space_from(s@, k as int),
                decreases s@.len() - k,
            {
                k += 1;
            }
            proof {
                lemma_space_from_skip(s@, at as int, at + 1);
            }
            let word = slice_to_vec(slice_subrange(s, at, k));
            assert(word@ =~= rest.take(k - at));
            out.push(word);
            assert(views(out@) =~= before + seq![rest.take(k - at)]);
            assert(rest.skip(k - at) =~= s@.skip(k as int));
            assert(views(out@) + words(s@.skip(k as int)) =~= before + words(rest));
            at = k;
        }
    }
    assert(words(s@.skip(at as int)) =~= Seq::empty());
    assert(views(out@) =~= views(out@) + words(s@.skip(at as int)));
    out
}

/// Two words with a space between them.
pub proof fn lemma_two_words(a: Seq<char>, b: Seq<char>)
    requires
        a.len() > 0,
        b.len() > 0,
        forall|k: int| 0 <= k < a.len() ==> !is_space(#[trigger] a[k]),
        forall|k: int| 0 <= k < b.len() ==> !is_space(#[trigger] b[k]),
    ensures
        words(a + seq![' '] + b) == seq![a, b],
{
    let s = a + seq![' '] + b;
    lemma_space_from(s, 1);
    let k = space_from(s, 1);
    assert(s[a.len() as int] == ' ');
    assert(k <= a.len()) by {
        if k > a.len() {
            assert(!is_space(s[a.len() as int]));
        }
    }
    if k < a.len() {
        assert(s[k] == a[k]);
    }
    assert(k == a.len());
    assert(s.take(k) =~= a);
    let rest = s.skip(k);
    assert(rest =~= seq![' '] + b);
    assert(rest.skip(1) =~= b);
    assert(words(rest) == words(b));
    assert(!is_space(b[0]));
    lemma_space_from(b, 1);
    let e = space_from(b, 1);
    if e < b.len() {
        assert(is_space(b[e]));
    }
    assert(b.take(e) =~= b);
    assert(b.skip(e) =~= Seq::empty());
    assert(words(b.skip(e)) =~= Seq::empty());
    assert(words(b) =~= seq![b]);
    assert(words(s) =~= seq![a, b]);
}

// ---------------------------------------------------------------------------
// Columns
// ---------------------------------------------------------------------------

/// The spaces that bring a text of `len` characters up to `width`.
pub open spec fn padding(len: int, width: int) -> Seq<char> {
    if len >= width {
        Seq::empty()
    } else {
        Seq::new((width - len) as nat, |i: int| ' ')
    }
}

/// Appends the spaces that bring a text of `len` characters up to `width`.
fn push_padding(s: &mut String, len: usize, width: usize)
    ensures
        final(s)@ == old(s)@ + padding(len as int, width as int),
{
    let mut n: usize = len;
    assert(s@ =~= old(s)@ + Seq::new(0, |i: int| ' '));
    while n < width
        invariant
            len <= n,
            n <= width || n == len,
            s@ =~= old(s)@ + Seq::new((n - len) as nat, |i: int| ' '),
        decreases width - n,
    {
        s.push(' ');
        n += 1;
    }
    assert(s@ =~= old(s)@ + padding(len as int, width as int));
}

/// Appends a text at the left of a column.
pub fn push_left(s: &mut String, text: &str, width: usize)
    ensures
        final(s)@ == old(s)@ + text@ + padding(text@.len() as int, width as int),
{
    let n: usize = chars_of(text).len();
    s.append(text);
    push_padding(s, n, width);
}

/// Appends a text at the right of a column.
pub fn push_right(s: &mut String, text: &str, width: usize)
    ensures
        final(s)@ == old(s)@ + padding(text@.len() as int, width as int) + text@,
{
    let n: usize = chars_of(text).len();
    push_padding(s, n, width);
    s.append(text);
}

} // verus!
