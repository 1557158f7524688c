//! The text that is kept beside a model's weights.
use vstd::prelude::*;
use vstd::slice::{slice_subrange, slice_to_vec};

use crate::text::{
    all_digits, chars_of, decimal, decimal_spells, equals_ignoring_case, find_char, index_from,
    is_digit, is_space, lemma_decimal_digits, lemma_index_from, lemma_two_words, lines,
    parse_unsigned, push_decimal, quote, quoted, same_but_case, same_chars, split_lines,
    split_words, string_of, unsigned_value, views, without_cr, words,
};

verus! {

/// The file of the weights, in a checkpoint's directory.
pub const MODEL_FILE: &'static str = "model.safetensors";

/// The file of the text, in a checkpoint's directory.
pub const META_FILE: &'static str = "meta.txt";

/// The number of keys.
pub const NUM_KEYS: usize = 9;

/// What is kept beside a model's weights. The numbers with a fraction stand as
/// they are written.
#[derive(Debug, Clone, PartialEq, Eq)]
pub struct CheckpointMeta {
    pub vocab_size: usize,
    pub sequence_len: usize,
    pub n_layer: usize,
    pub n_head: usize,
    pub n_embd: usize,
    pub rope_base: String,
    pub norm_eps: String,
    pub step: usize,
    pub val_bpb: String,
}

/// The key at place `i`.
pub open spec fn meta_key(i: int) -> Seq<char> {
    if i == 0 {
        "vocab_size"@
    } else if i == 1 {
        "sequence_len"@
    } else if i == 2 {
        "n_layer"@
    } else if i == 3 {
        "n_head"@
    } else if i == 4 {
        "n_embd"@
    } else if i == 5 {
        "rope_base"@
    } else if i == 6 {
        "norm_eps"@
    } else if i == 7 {
        "step"@
    } else {
        "val_bpb"@
    }
}

/// The key at place `i`.
fn key_at(i: usize) -> (s: &'static str)
    requires
        i < NUM_KEYS,
    ensures
        s@ == meta_key(i as int),
{
    match i {
        0 => "vocab_size",
        1 => "sequence_len",
        2 => "n_layer",
        3 => "n_head",
        4 => "n_embd",
        5 => "rope_base",
        6 => "norm_eps",
        7 => "step",
        _ => "val_bpb",
    }
}

/// The first key at or after place `from` that is `key`.
pub open spec fn key_place(key: Seq<char>, from: int) -> Option<int>
    decreases NUM_KEYS - from,
{
    if from >= NUM_KEYS {
        None
    } else if meta_key(from) == key {
        Some(from)
    } else {
        key_place(key, from + 1)
    }
}

/// No two keys are the same, and each is one word.
pub proof fn keys_are_distinct_words(i: int, j: int)
    requires
        0 <= i < NUM_KEYS,
        0 <= j < NUM_KEYS,
    ensures
        meta_key(i) == meta_key(j) ==> i == j,
        meta_key(i).len() > 0,
        forall|k: int| 0 <= k < meta_key(i).len() ==> !is_space(#[trigger] meta_key(i)[k]),
{
    reveal_strlit("vocab_size");
    reveal_strlit("sequence_len");
    reveal_strlit("n_layer");
    reveal_strlit("n_head");
    reveal_strlit("n_embd");
    reveal_strlit("rope_base");
    reveal_strlit("norm_eps");
    reveal_strlit("step");
    reveal_strlit("val_bpb");
    let a = meta_key(i);
    let b = meta_key(j);
    if a == b {
        assert(a.len() == b.len());
        assert(a[0] == b[0]);
        assert(a[2] == b[2]);
    }
}

/// Whether the value of the key at place `i` may have a fraction.
pub open spec fn has_fraction(i: int) -> bool {
    i == 5 || i == 6 || i == 8
}

// ---------------------------------------------------------------------------
// Numbers with a fraction
// ---------------------------------------------------------------------------

/// A text without the sign at its start, if there is one.
pub open spec fn unsigned_part(s: Seq<char>) -> Seq<char> {
    if s.len() > 0 && (s[0] == '+' || s[0] == '-') {
        s.skip(1)
    } else {
        s
    }
}

/// The first `e` of either case, or the length of `s`.
pub open spec fn exponent_at(s: Seq<char>) -> int {
    let small = index_from(s, 'e', 0);
    let large = index_from(s, 'E', 0);
    if small <= large {
        small
    } else {
        large
    }
}

/// Digits with at most one point among them, and at least one digit.
pub open spec fn is_mantissa(s: Seq<char>) -> bool {
    let dot = index_from(s, '.', 0);
    if dot >= s.len() {
        s.len() > 0 && all_digits(s)
    } else {
        s.len() > 1 && all_digits(s.take(dot)) && all_digits(s.skip(dot + 1))
    }
}

/// One or more digits, after an optional sign.
pub open spec fn is_exponent(s: Seq<char>) -> bool {
    unsigned_part(s).len() > 0 && all_digits(unsigned_part(s))
}

/// Whether a text spells a floating-point number: an optional sign, and then
/// `inf`, `infinity` or `nan` in any case, or digits with an optional point and
/// an optional exponent.
pub open spec fn spells_float(s: Seq<char>) -> bool {
    let t = unsigned_part(s);
    let e = exponent_at(t);
    ||| same_but_case(t, "inf"@)
    ||| same_but_case(t, "infinity"@)
    ||| same_but_case(t, "nan"@)
    ||| is_mantissa(t.take(e)) && (e >= t.len() || is_exponent(t.skip(e + 1)))
}

fn digits_only(s: &[char]) -> (r: bool)
    ensures
        r == all_digits(s@),
{
    let mut i: usize = 0;
    while i < s.len()
        invariant
            i <= s@.len(),
            forall|k: int| 0 <= k < i ==> is_digit(#[trigger] s@[k]),
        decreases s@.len() - i,
    {
        if !('0' <= s[i] && s[i] <= '9') {
            assert(!is_digit(s@[i as int]));
            return false;
        }
        i += 1;
    }
    true
}

fn without_sign(s: &[char]) -> (r: &[char])
    ensures
        r@ == unsigned_part(s@),
{
    if s.len() > 0 && (s[0] == '+' || s[0] == '-') {
        let r = slice_subrange(s, 1, s.len());
        assert(r@ =~= s@.skip(1));
        r
    } else {
        s
    }
}

fn mantissa(s: &[char]) -> (r: bool)
    ensures
        r == is_mantissa(s@),
{
    let dot: usize = find_char(s, '.', 0);
    if dot == s.len() {
        return s.len() > 0 && digits_only(s);
    }
    let whole = slice_subrange(s, 0, dot);
    let part = slice_subrange(s, dot + 1, s.len());
    assert(whole@ =~= s@.take(dot as int));
    assert(part@ =~= s@.skip(dot + 1));
    s.len() > 1 && digits_only(whole) && digits_only(part)
}

/// Whether a text spells a floating-point number.
pub fn is_float(s: &[char]) -> (r: bool)
    ensures
        r == spells_float(s@),
{
    let t = without_sign(s);
    if equals_ignoring_case(t, "inf") || equals_ignoring_case(t, "infinity")
        || equals_ignoring_case(t, "nan") {
        return true;
    }
    let small: usize = find_char(t, 'e', 0);
    let large: usize = find_char(t, 'E', 0);
    let e: usize = if small <= large {
        small
    } else {
        large
    };
    let front = slice_subrange(t, 0, e);
    assert(front@ =~= t@.take(e as int));
    if !mantissa(front) {
        return false;
    }
    if e == t.len() {
        return true;
    }
    let back = slice_subrange(t, e + 1, t.len());
    assert(back@ =~= t@.skip(e + 1));
    let digits = without_sign(back);
    digits.len() > 0 && digits_only(digits)
}

// ---------------------------------------------------------------------------
// Reading
// ---------------------------------------------------------------------------

/// Why the text cannot be read. Lines are counted from 1.
#[derive(Debug, Clone, PartialEq, Eq)]
pub enum MetaError {
    /// A key stands alone.
    NoValue { line: usize, raw: String },
    /// More than a key and a value stand on a line.
    Extra { line: usize, raw: String },
    /// The value is no number of the kind that its key takes.
    BadValue { key: String, value: String },
    /// There is no such key.
    UnknownKey { line: usize, key: String },
    /// A key does not occur.
    Missing { key: String },
}

/// Why the text cannot be read, as a mathematical value.
pub enum MetaFault {
    NoValue(int, Seq<char>),
    Extra(int, Seq<char>),
    BadValue(Seq<char>, Seq<char>),
    UnknownKey(int, Seq<char>),
    Missing(Seq<char>),
}

impl MetaError {
    pub open spec fn view(self) -> MetaFault {
        match self {
            MetaError::NoValue { line, raw } => MetaFault::NoValue(line as int, raw@),
            MetaError::Extra { line, raw } => MetaFault::Extra(line as int, raw@),
            MetaError::BadValue { key, value } => MetaFault::BadValue(key@, value@),
            MetaError::UnknownKey { line, key } => MetaFault::UnknownKey(line as int, key@),
            MetaError::Missing { key } => MetaFault::Missing(key@),
        }
    }

    /// The error as a sentence. Of a bad value, what is wrong with it is to
    /// follow, in brackets.
    pub open spec fn sentence(self) -> Seq<char> {
        match self {
            MetaError::NoValue { line, raw } => "checkpoint meta line "@ + decimal(line as nat)
                + ": expected `key value`, got "@ + quoted(raw@),
            MetaError::Extra { line, raw } => "checkpoint meta line "@ + decimal(line as nat)
                + ": expected exactly `key value`, got "@ + quoted(raw@),
            MetaError::BadValue { key, value } => "checkpoint meta: bad value for `"@ + key@
                + "`: "@ + quoted(value@),
            MetaError::UnknownKey { line, key } => "checkpoint meta line "@ + decimal(line as nat)
                + ": unknown key "@ + quoted(key@),
            MetaError::Missing { key } => "checkpoint meta: missing key `"@ + key@ + "`"@,
        }
    }

    /// The error as a sentence. Of a bad value, what is wrong with it is to
    /// follow, in brackets.
    pub fn message(&self) -> (s: String)
        ensures
            s@ == self.sentence(),
    {
        match self {
            MetaError::NoValue { line, raw } => {
                let mut s = String::from_str("checkpoint meta line ");
                push_decimal(&mut s, *line as u64);
                s.append(": expected `key value`, got ");
                s.append(quote(raw.as_str()).as_str());
                s
            },
            MetaError::Extra { line, raw } => {
                let mut s = String::from_str("checkpoint meta line ");
                push_decimal(&mut s, *line as u64);
                s.append(": expected exactly `key value`, got ");
                s.append(quote(raw.as_str()).as_str());
                s
            },
            MetaError::BadValue { key, value } => {
                let mut s = String::from_str("checkpoint meta: bad value for `");
                s.append(key.as_str());
                s.append("`: ");
                s.append(quote(value.as_str()).as_str());
                s
            },
            MetaError::UnknownKey { line, key } => {
                let mut s = String::from_str("checkpoint meta line ");
                push_decimal(&mut s, *line as u64);
                s.append(": unknown key ");
                s.append(quote(key.as_str()).as_str());
                s
            },
            MetaError::Missing { key } => {
                let mut s = String::from_str("checkpoint meta: missing key `");
                s.append(key.as_str());
                s.append("`");
                s
            },
        }
    }
}

/// The values read so far, by the places of their keys.
pub type Values = Seq<Option<Seq<char>>>;

/// No values.
pub open spec fn no_values() -> Values {
    Seq::new(NUM_KEYS as nat, |i: int| None)
}

/// Whether a value is a number of the kind that the key at place `i` takes.
pub open spec fn acceptable(i: int, value: Seq<char>) -> bool {
    if has_fraction(i) {
        spells_float(value)
    } else {
        unsigned_value(value, usize::MAX as nat) is Some
    }
}

/// What one line does to the values: a blank line nothing; another sets the
/// value of a key, if it is a key and an acceptable value.
pub open spec fn after_line(values: Values, line: Seq<char>, number: int) -> Result<
    Values,
    MetaFault,
> {
    let w = words(line);
    if w.len() == 0 {
        Ok(values)
    } else if w.len() == 1 {
        Err(MetaFault::NoValue(number, line))
    } else if w.len() > 2 {
        Err(MetaFault::Extra(number, line))
    } else {
        match key_place(w[0], 0) {
            None => Err(MetaFault::UnknownKey(number, w[0])),
            Some(i) => if acceptable(i, w[1]) {
                Ok(values.update(i, Some(w[1])))
            } else {
                Err(MetaFault::BadValue(w[0], w[1]))
            },
        }
    }
}

/// What the lines from place `at` on do to the values: the first that cannot
/// be read ends it.
pub open spec fn after_lines(values: Values, all: Seq<Seq<char>>, at: int) -> Result<
    Values,
    MetaFault,
>
    decreases all.len() - at,
{
    if at >= all.len() {
        Ok(values)
    } else {
        match after_line(values, all[at], at + 1) {
            Ok(values) => after_lines(values, all, at + 1),
            Err(e) => Err(e),
        }
    }
}

/// The first key at or after place `from` without a value.
pub open spec fn first_missing(values: Values, from: int) -> Option<int>
    decreases NUM_KEYS - from,
{
    if from >= NUM_KEYS {
        None
    } else if values[from] is None {
        Some(from)
    } else {
        first_missing(values, from + 1)
    }
}

/// What a text says: a value for every key, or why it cannot be read. Of two
/// values for one key the later stands.
pub open spec fn meta_values(text: Seq<char>) -> Result<Values, MetaFault> {
    match after_lines(no_values(), lines(text), 0) {
        Err(e) => Err(e),
        Ok(values) => match first_missing(values, 0) {
            Some(i) => Err(MetaFault::Missing(meta_key(i))),
            None => Ok(values),
        },
    }
}

/// Whether `meta` is what the values say.
pub open spec fn says(values: Values, meta: CheckpointMeta) -> bool {
    &&& values.len() == NUM_KEYS
    &&& forall|i: int| 0 <= i < NUM_KEYS ==> (#[trigger] values[i]) is Some
    &&& unsigned_value(values[0]->0, usize::MAX as nat) == Some(meta.vocab_size as nat)
    &&& unsigned_value(values[1]->0, usize::MAX as nat) == Some(meta.sequence_len as nat)
    &&& unsigned_value(values[2]->0, usize::MAX as nat) == Some(meta.n_layer as nat)
    &&& unsigned_value(values[3]->0, usize::MAX as nat) == Some(meta.n_head as nat)
    &&& unsigned_value(values[4]->0, usize::MAX as nat) == Some(meta.n_embd as nat)
    &&& values[5]->0 == meta.rope_base@
    &&& values[6]->0 == meta.norm_eps@
    &&& unsigned_value(values[7]->0, usize::MAX as nat) == Some(meta.step as nat)
    &&& values[8]->0 == meta.val_bpb@
}

/// The values as they are held.
spec fn held(values: Seq<Option<Vec<char>>>) -> Values {
    Seq::new(
        values.len(),
        |i: int|
            match values[i] {
                Some(v) => Some(v@),
                None => None,
            },
    )
}

/// Every value that is held is acceptable.
spec fn all_acceptable(values: Values) -> bool {
    &&& values.len() == NUM_KEYS
    &&& forall|i: int|
        0 <= i < NUM_KEYS && (#[trigger] values[i]) is Some ==> acceptable(i, values[i]->0)
}

fn find_key(key: &[char]) -> (r: Option<usize>)
    ensures
        match r {
            Some(i) => i < NUM_KEYS && key_place(key@, 0) == Some(i as int),
            None => key_place(key@, 0) is None,
        },
{
    let mut i: usize = 0;
    while i < NUM_KEYS
        invariant
            i <= NUM_KEYS,
            key_place(key@, 0) == key_place(key@, i as int),
        decreases NUM_KEYS - i,
    {
        let name = chars_of(key_at(i));
        if same_chars(name.as_slice(), key) {
            return Some(i);
        }
        i += 1;
    }
    None
}

fn read_line(values: &mut Vec<Option<Vec<char>>>, line: &Vec<char>, number: usize) -> (r: Result<
    (),
    MetaError,
>)
    requires
        all_acceptable(held(old(values)@)),
    ensures
        match r {
            Ok(_) => {
                &&& after_line(held(old(values)@), line@, number as int)
                    == Ok::<Values, MetaFault>(held(final(values)@))
                &&& all_acceptable(held(final(values)@))
            },
            Err(e) => after_line(held(old(values)@), line@, number as int)
                == Err::<Values, MetaFault>(e@),
        },
{
    let w = split_words(line.as_slice());
    assert(views(w@).len() == w@.len());
    assert(w@.len() > 0 ==> views(w@)[0] == w@[0]@);
    assert(w@.len() > 1 ==> views(w@)[1] == w@[1]@);
    if w.len() == 0 {
        return Ok(());
    }
    if w.len() == 1 {
        return Err(MetaError::NoValue { line: number, raw: string_of(line.as_slice()) });
    }
    if w.len() > 2 {
        return Err(MetaError::Extra { line: number, raw: string_of(line.as_slice()) });
    }
    match find_key(w[0].as_slice()) {
        None => Err(MetaError::UnknownKey { line: number, key: string_of(w[0].as_slice()) }),
        Some(i) => {
            let fine = if i == 5 || i == 6 || i == 8 {
                is_float(w[1].as_slice())
            } else {
                parse_unsigned(w[1].as_slice(), usize::MAX as u64).is_some()
            };
            if !fine {
                return Err(
                    MetaError::BadValue {
                        key: string_of(w[0].as_slice()),
                        value: string_of(w[1].as_slice()),
                    },
                );
            }
            let value = slice_to_vec(w[1].as_slice());
            assert(held(values@).len() == values@.len());
            values[i] = Some(value);
            assert(held(values@) =~= held(old(values)@).update(i as int, Some(w@[1]@)));
            Ok(())
        },
    }
}

fn number(value: &Option<Vec<char>>) -> (n: usize)
    requires
        value is Some,
        unsigned_value(value->0@, usize::MAX as nat) is Some,
    ensures
        unsigned_value(value->0@, usize::MAX as nat) == Some(n as nat),
{
    match value {
        Some(v) => match parse_unsigned(v.as_slice(), usize::MAX as u64) {
            Some(n) => n as usize,
            None => 0,
        },
        None => 0,
    }
}

fn written(value: &Option<Vec<char>>) -> (s: String)
    requires
        value is Some,
    ensures
        s@ == value->0@,
{
    match value {
        Some(v) => string_of(v.as_slice()),
        None => String::new(),
    }
}

/// Reads the text that is kept beside a model's weights.
pub fn parse_meta(text: &str) -> (r: Result<CheckpointMeta, MetaError>)
    ensures
        match r {
            Ok(meta) => meta_values(text@) is Ok && says(meta_values(text@)->Ok_0, meta),
            Err(e) => meta_values(text@) == Err::<Values, MetaFault>(e@),
        },
{
    let chars = chars_of(text);
    let all = split_lines(chars.as_slice());
    assert(views(all@).len() == all@.len());
    let mut values: Vec<Option<Vec<char>>> = Vec::new();
    let mut i: usize = 0;
    while i < NUM_KEYS
        invariant
            i <= NUM_KEYS,
            values@.len() == i,
            forall|k: int| 0 <= k < i ==> (#[trigger] values@[k]) is None,
        decreases NUM_KEYS - i,
    {
        values.push(None);
        i += 1;
    }
    assert(held(values@) =~= no_values());
    let mut at: usize = 0;
    let n: usize = all.len();
    while at < n
        invariant
            at <= n,
            n == all@.len(),
            views(all@).len() == all@.len(),
            all_acceptable(held(values@)),
            after_lines(no_values(), views(all@), 0) == after_lines(
                held(values@),
                views(all@),
                at as int,
            ),
            views(all@) == lines(text@),
        decreases n - at,
    {
        assert(views(all@)[at as int] == all@[at as int]@);
        match read_line(&mut values, &all[at], at + 1) {
            Ok(_) => {},
            Err(e) => {
                return Err(e);
            },
        }
        at += 1;
    }
    assert(held(values@).len() == values@.len());
    let ghost got = held(values@);
    let mut i: usize = 0;
    while i < NUM_KEYS
        invariant
            i <= NUM_KEYS,
            values@.len() == NUM_KEYS,
            got == held(values@),
            first_missing(got, 0) == first_missing(got, i as int),
            forall|k: int| 0 <= k < i ==> (#[trigger] got[k]) is Some,
            after_lines(no_values(), lines(text@), 0) == Ok::<Values, MetaFault>(got),
        decreases NUM_KEYS - i,
    {
        if values[i].is_none() {
            assert(got[i as int] is None);
            return Err(MetaError::Missing { key: String::from_str(key_at(i)) });
        }
        assert(got[i as int] is Some);
        i += 1;
    }
    assert forall|k: int| 0 <= k < NUM_KEYS implies (#[trigger] values@[k]) is Some && got[k]
        == Some(values@[k]->0@) && acceptable(k, values@[k]->0@) by {
        assert(got[k] is Some);
    }
    Ok(
        CheckpointMeta {
            vocab_size: number(&values[0]),
            sequence_len: number(&values[1]),
            n_layer: number(&values[2]),
            n_head: number(&values[3]),
            n_embd: number(&values[4]),
            rope_base: written(&values[5]),
            norm_eps: written(&values[6]),
            step: number(&values[7]),
            val_bpb: written(&values[8]),
        },
    )
}

// ---------------------------------------------------------------------------
// Writing
// ---------------------------------------------------------------------------

impl CheckpointMeta {
    /// What is written for the key at place `i`.
    pub open spec fn value(self, i: int) -> Seq<char> {
        if i == 0 {
            decimal(self.vocab_size as nat)
        } else if i == 1 {
            decimal(self.sequence_len as nat)
        } else if i == 2 {
            decimal(self.n_layer as nat)
        } else if i == 3 {
            decimal(self.n_head as nat)
        } else if i == 4 {
            decimal(self.n_embd as nat)
        } else if i == 5 {
            self.rope_base@
        } else if i == 6 {
            self.norm_eps@
        } else if i == 7 {
            decimal(self.step as nat)
        } else {
            self.val_bpb@
        }
    }

    /// The numbers with a fraction are numbers.
    pub open spec fn wf(self) -> bool {
        &&& spells_float(self.rope_base@)
        &&& spells_float(self.norm_eps@)
        &&& spells_float(self.val_bpb@)
    }

    fn push_value(&self, s: &mut String, i: usize)
        requires
            i < NUM_KEYS,
        ensures
            final(s)@ == old(s)@ + self.value(i as int),
    {
        match i {
            0 => push_decimal(s, self.vocab_size as u64),
            1 => push_decimal(s, self.sequence_len as u64),
            2 => push_decimal(s, self.n_layer as u64),
            3 => push_decimal(s, self.n_head as u64),
            4 => push_decimal(s, self.n_embd as u64),
            5 => s.append(self.rope_base.as_str()),
            6 => s.append(self.norm_eps.as_str()),
            7 => push_decimal(s, self.step as u64),
            _ => s.append(self.val_bpb.as_str()),
        }
    }
}

/// A line for each key from place `from` on: the key, a space and the value.
pub open spec fn meta_text(meta: CheckpointMeta, from: int) -> Seq<char>
    decreases NUM_KEYS - from,
{
    if from >= NUM_KEYS {
        Seq::empty()
    } else {
        meta_key(from) + " "@ + meta.value(from) + "\n"@ + meta_text(meta, from + 1)
    }
}

/// Writes the text that is kept beside a model's weights.
pub fn write_meta(meta: &CheckpointMeta) -> (s: String)
    ensures
        s@ == meta_text(*meta, 0),
{
    let mut s = String::new();
    let mut i: usize = 0;
    assert(s@ + meta_text(*meta, 0) =~= meta_text(*meta, 0));
    while i < NUM_KEYS
        invariant
            i <= NUM_KEYS,
            s@ + meta_text(*meta, i as int) == meta_text(*meta, 0),
        decreases NUM_KEYS - i,
    {
        let ghost before = s@;
        s.append(key_at(i));
        s.append(" ");
        meta.push_value(&mut s, i);
        s.append("\n");
        assert(s@ + meta_text(*meta, i + 1) =~= before + meta_text(*meta, i as int));
        i += 1;
    }
    assert(s@ =~= s@ + meta_text(*meta, i as int));
    s
}

// ---------------------------------------------------------------------------
// What is written is read back
// ---------------------------------------------------------------------------

/// One word.
spec fn is_word(s: Seq<char>) -> bool {
    s.len() > 0 && forall|k: int| 0 <= k < s.len() ==> !is_space(#[trigger] s[k])
}

proof fn lemma_float_is_word(s: Seq<char>)
    requires
        spells_float(s),
    ensures
        is_word(s),
{
    reveal_strlit("inf");
    reveal_strlit("infinity");
    reveal_strlit("nan");
    let t = unsigned_part(s);
    let e = exponent_at(t);
    lemma_index_from(t, 'e', 0);
    lemma_index_from(t, 'E', 0);
    let front = t.take(e);
    lemma_index_from(front, '.', 0);
    let dot = index_from(front, '.', 0);
    if is_mantissa(front) {
        assert forall|k: int| 0 <= k < e implies !is_space(#[trigger] t[k]) by {
            assert(t[k] == front[k]);
            if dot < front.len() {
                if k < dot {
                    assert(front.take(dot)[k] == front[k]);
                } else if k > dot {
                    assert(front.skip(dot + 1)[k - dot - 1] == front[k]);
                }
            }
        }
    }
    assert forall|k: int| 0 <= k < t.len() implies !is_space(#[trigger] t[k]) by {
        if !same_but_case(t, "inf"@) && !same_but_case(t, "infinity"@) && !same_but_case(t, "nan"@)
            && k > e {
            let back = t.skip(e + 1);
            assert(back[k - e - 1] == t[k]);
            let digits = unsigned_part(back);
            if digits.len() < back.len() && k > e + 1 {
                assert(digits[k - e - 2] == t[k]);
            } else if digits.len() == back.len() {
                assert(digits[k - e - 1] == t[k]);
            }
        }
    }
    assert forall|k: int| 0 <= k < s.len() implies !is_space(#[trigger] s[k]) by {
        if t.len() < s.len() {
            if k > 0 {
                assert(t[k - 1] == s[k]);
            }
        } else {
            assert(t[k] == s[k]);
        }
    }
}

proof fn lemma_numeral_is_word(n: nat)
    ensures
        is_word(decimal(n)),
{
    lemma_decimal_digits(n);
    assert forall|k: int| 0 <= k < decimal(n).len() implies !is_space(#[trigger] decimal(n)[k]) by {
        assert(is_digit(decimal(n)[k]));
    }
}

proof fn lemma_value(meta: CheckpointMeta, i: int)
    requires
        meta.wf(),
        0 <= i < NUM_KEYS,
    ensures
        is_word(meta.value(i)),
        acceptable(i, meta.value(i)),
{
    if has_fraction(i) {
        lemma_float_is_word(meta.value(i));
    } else {
        let n = if i == 0 {
            meta.vocab_size
        } else if i == 1 {
            meta.sequence_len
        } else if i == 2 {
            meta.n_layer
        } else if i == 3 {
            meta.n_head
        } else if i == 4 {
            meta.n_embd
        } else {
            meta.step
        };
        lemma_numeral_is_word(n as nat);
        decimal_spells(n as nat, usize::MAX as nat);
    }
}

/// The line for the key at place `i`.
spec fn meta_line(meta: CheckpointMeta, i: int) -> Seq<char> {
    meta_key(i) + " "@ + meta.value(i)
}

proof fn lemma_line(meta: CheckpointMeta, i: int)
    requires
        meta.wf(),
        0 <= i < NUM_KEYS,
    ensures
        words(meta_line(meta, i)) == seq![meta_key(i), meta.value(i)],
        lines(meta_text(meta, i)) == seq![meta_line(meta, i)] + lines(meta_text(meta, i + 1)),
{
    reveal_strlit(" ");
    reveal_strlit("\n");
    lemma_value(meta, i);
    keys_are_distinct_words(i, i);
    let (key, value) = (meta_key(i), meta.value(i));
    let line = meta_line(meta, i);
    assert(" "@ =~= seq![' ']);
    lemma_two_words(key, value);
    let text = meta_text(meta, i);
    assert(text =~= line + seq!['\n'] + meta_text(meta, i + 1));
    lemma_index_from(text, '\n', 0);
    let k = index_from(text, '\n', 0);
    let n = line.len() as int;
    assert(text[n] == '\n');
    if k < n {
        assert(text[k] == line[k]);
        if k < key.len() {
            assert(line[k] == key[k]);
        } else if k > key.len() {
            assert(line[k] == value[k - key.len() - 1]);
        }
    }
    assert(k == n);
    assert(text.take(k) =~= line);
    assert(line.last() == value.last());
    assert(!is_space(value[value.len() - 1]));
    assert(text.skip(k + 1) =~= meta_text(meta, i + 1));
}

proof fn lemma_lines(meta: CheckpointMeta, from: int)
    requires
        meta.wf(),
        0 <= from <= NUM_KEYS,
    ensures
        lines(meta_text(meta, from)).len() == NUM_KEYS - from,
        forall|i: int|
            from <= i < NUM_KEYS ==> #[trigger] lines(meta_text(meta, from))[i - from]
                == meta_line(meta, i),
    decreases NUM_KEYS - from,
{
    if from < NUM_KEYS {
        lemma_line(meta, from);
        lemma_lines(meta, from + 1);
        let rest = lines(meta_text(meta, from + 1));
        assert forall|i: int| from <= i < NUM_KEYS implies #[trigger] lines(
            meta_text(meta, from),
        )[i - from] == meta_line(meta, i) by {
            if i > from {
                assert(rest[i - (from + 1)] == meta_line(meta, i));
            }
        }
    }
}

proof fn lemma_key_place(i: int, from: int)
    requires
        0 <= from <= i < NUM_KEYS,
    ensures
        key_place(meta_key(i), from) == Some(i),
    decreases i - from,
{
    keys_are_distinct_words(from, i);
    if from < i {
        lemma_key_place(i, from + 1);
    }
}

/// The values of the keys before place `n`.
spec fn values_before(meta: CheckpointMeta, n: int) -> Values {
    Seq::new(
        NUM_KEYS as nat,
        |i: int|
            if i < n {
                Some(meta.value(i))
            } else {
                None
            },
    )
}

proof fn lemma_read_back(meta: CheckpointMeta, all: Seq<Seq<char>>, at: int)
    requires
        meta.wf(),
        all.len() == NUM_KEYS,
        forall|i: int| 0 <= i < NUM_KEYS ==> #[trigger] all[i] == meta_line(meta, i),
        0 <= at <= NUM_KEYS,
    ensures
        after_lines(values_before(meta, at), all, at) == Ok::<Values, MetaFault>(
            values_before(meta, NUM_KEYS as int),
        ),
    decreases NUM_KEYS - at,
{
    if at < NUM_KEYS {
        lemma_line(meta, at);
        lemma_value(meta, at);
        lemma_key_place(at, 0);
        let w = words(all[at]);
        assert(w[0] == meta_key(at));
        assert(w[1] == meta.value(at));
        assert(values_before(meta, at).update(at, Some(meta.value(at))) =~= values_before(
            meta,
            at + 1,
        ));
        lemma_read_back(meta, all, at + 1);
    }
}

proof fn lemma_none_missing(values: Values, from: int)
    requires
        values.len() == NUM_KEYS,
        forall|i: int| 0 <= i < NUM_KEYS ==> (#[trigger] values[i]) is Some,
        0 <= from,
    ensures
        first_missing(values, from) is None,
    decreases NUM_KEYS - from,
{
    if from < NUM_KEYS {
        lemma_none_missing(values, from + 1);
    }
}

/// A blank line leaves the values as they are.
pub proof fn blank_lines_say_nothing(values: Values, line: Seq<char>, number: int)
    requires
        forall|k: int| 0 <= k < line.len() ==> is_space(#[trigger] line[k]),
    ensures
        after_line(values, line, number) == Ok::<Values, MetaFault>(values),
{
    lemma_no_words(line);
}

proof fn lemma_no_words(s: Seq<char>)
    requires
        forall|k: int| 0 <= k < s.len() ==> is_space(#[trigger] s[k]),
    ensures
        words(s).len() == 0,
    decreases s.len(),
{
    if s.len() > 0 {
        assert forall|k: int| 0 <= k < s.skip(1).len() implies is_space(
            #[trigger] s.skip(1)[k],
        ) by {
            assert(s.skip(1)[k] == s[k + 1]);
        }
        lemma_no_words(s.skip(1));
    }
}

/// Whether a text is a number of blank lines: all of it is white space, and it
/// ends with a line end, unless it is empty.
pub open spec fn is_blank(s: Seq<char>) -> bool {
    &&& forall|k: int| 0 <= k < s.len() ==> is_space(#[trigger] s[k])
    &&& s.len() > 0 ==> s.last() == '\n'
}

/// Blank lines before a text come before its lines.
proof fn lemma_blank_lines(blank: Seq<char>, text: Seq<char>) -> (before: Seq<Seq<char>>)
    requires
        is_blank(blank),
    ensures
        lines(blank + text) == before + lines(text),
        forall|i: int| 0 <= i < before.len() ==> words(#[trigger] before[i]).len() == 0,
    decreases blank.len(),
{
    let s = blank + text;
    if blank.len() == 0 {
        assert(s =~= text);
        assert(Seq::<Seq<char>>::empty() + lines(text) =~= lines(text));
        Seq::empty()
    } else {
        let k = index_from(s, '\n', 0);
        lemma_index_from(s, '\n', 0);
        assert(s[blank.len() - 1] == '\n');
        assert(0 <= k < blank.len());
        let line = without_cr(s.take(k));
        assert forall|j: int| 0 <= j < line.len() implies is_space(#[trigger] line[j]) by {
            assert(line[j] == blank[j]);
        }
        lemma_no_words(line);
        let rest = blank.skip(k + 1);
        assert forall|j: int| 0 <= j < rest.len() implies is_space(#[trigger] rest[j]) by {
            assert(rest[j] == blank[j + k + 1]);
        }
        let before = lemma_blank_lines(rest, text);
        assert(s.skip(k + 1) =~= rest + text);
        let all = seq![line] + before;
        assert(all + lines(text) =~= seq![line] + (before + lines(text)));
        all
    }
}

/// Lines without words before lines that can be read change nothing.
proof fn lemma_after_blank(
    values: Values,
    before: Seq<Seq<char>>,
    rest: Seq<Seq<char>>,
    at: int,
)
    requires
        0 <= at <= before.len() + rest.len(),
        at <= before.len() ==> after_lines(values, rest, 0) is Ok,
        at > before.len() ==> after_lines(values, rest, at - before.len()) is Ok,
        forall|i: int| 0 <= i < before.len() ==> words(#[trigger] before[i]).len() == 0,
    ensures
        after_lines(values, before + rest, at) == after_lines(
            values,
            rest,
            if at <= before.len() {
                0
            } else {
                at - before.len()
            },
        ),
    decreases before.len() + rest.len() - at,
{
    let all = before + rest;
    if at < before.len() {
        assert(all[at] == before[at]);
        lemma_after_blank(values, before, rest, at + 1);
    } else if at < all.len() {
        let j = at - before.len();
        assert(all[at] == rest[j]);
        let next = after_line(values, rest[j], j + 1)->Ok_0;
        assert(after_line(values, rest[j], at + 1) == Ok::<Values, MetaFault>(next));
        lemma_after_blank(next, before, rest, at + 1);
    }
}

/// The text that is written for a checkpoint is read back as the same
/// checkpoint, also with blank lines before it.
pub proof fn meta_round_trips(meta: CheckpointMeta, blank: Seq<char>)
    requires
        meta.wf(),
        is_blank(blank),
    ensures
        meta_values(blank + meta_text(meta, 0)) is Ok,
        says(meta_values(blank + meta_text(meta, 0))->Ok_0, meta),
{
    let all = lines(meta_text(meta, 0));
    lemma_lines(meta, 0);
    assert forall|i: int| 0 <= i < NUM_KEYS implies #[trigger] all[i] == meta_line(meta, i) by {
        assert(all[i - 0] == meta_line(meta, i));
    }
    assert(values_before(meta, 0) =~= no_values());
    lemma_read_back(meta, all, 0);
    let values = values_before(meta, NUM_KEYS as int);
    lemma_none_missing(values, 0);
    let before = lemma_blank_lines(blank, meta_text(meta, 0));
    lemma_after_blank(no_values(), before, all, 0);
    decimal_spells(meta.vocab_size as nat, usize::MAX as nat);
    decimal_spells(meta.sequence_len as nat, usize::MAX as nat);
    decimal_spells(meta.n_layer as nat, usize::MAX as nat);
    decimal_spells(meta.n_head as nat, usize::MAX as nat);
    decimal_spells(meta.n_embd as nat, usize::MAX as nat);
    decimal_spells(meta.step as nat, usize::MAX as nat);
}

} // verus!
