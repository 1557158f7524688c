//! What a checkpoint's text may say.
use vstd::prelude::*;

use crate::checkpoint::{
    after_line, after_lines, exponent_at, first_missing, is_exponent, is_mantissa, key_place,
    meta_key, meta_text, meta_values, no_values, says, spells_float, unsigned_part, CheckpointMeta,
    MetaFault, Values, NUM_KEYS,
};
use crate::text::{
    all_digits, decimal, index_from, is_digit, is_space, lemma_index_from, lemma_two_words, lines,
    same_but_case, unsigned_value, words,
};

verus! {

/// A sign, or none.
pub open spec fn is_sign(s: Seq<char>) -> bool {
    s.len() == 0 || s == seq!['+'] || s == seq!['-']
}

/// The first place of a character that a text does not hold before it.
proof fn lemma_first_at(s: Seq<char>, c: char, k: int)
    requires
        0 <= k <= s.len(),
        k < s.len() ==> s[k] == c,
        forall|i: int| 0 <= i < k ==> s[i] != c,
    ensures
        index_from(s, c, 0) == k,
{
    lemma_index_from(s, c, 0);
    let j = index_from(s, c, 0);
    if j < k {
        assert(s[j] != c);
    }
}

proof fn lemma_signed(sign: Seq<char>, t: Seq<char>)
    requires
        is_sign(sign),
        t.len() > 0,
        t[0] != '+',
        t[0] != '-',
    ensures
        unsigned_part(sign + t) == t,
{
    if sign.len() > 0 {
        assert((sign + t).skip(1) =~= t);
    } else {
        assert(sign + t =~= t);
    }
}

proof fn lemma_number(m: Seq<char>, tail: Seq<char>)
    requires
        is_mantissa(m),
        forall|i: int| 0 <= i < m.len() ==> #[trigger] m[i] != 'e' && m[i] != 'E',
        tail.len() == 0 || ((tail[0] == 'e' || tail[0] == 'E') && is_exponent(tail.skip(1))),
    ensures
        ({
            let t = m + tail;
            let e = exponent_at(t);
            is_mantissa(t.take(e)) && (e >= t.len() || is_exponent(t.skip(e + 1)))
        }),
{
    let t = m + tail;
    let n = m.len() as int;
    lemma_index_from(t, 'e', 0);
    lemma_index_from(t, 'E', 0);
    let a = index_from(t, 'e', 0);
    let b = index_from(t, 'E', 0);
    if a < n {
        assert(t[a] == m[a]);
    }
    if b < n {
        assert(t[b] == m[b]);
    }
    if tail.len() == 0 {
        assert(t =~= m);
        assert(t.take(n) =~= m);
    } else {
        assert(t[n] == tail[0]);
        assert(exponent_at(t) == n);
        assert(t.take(n) =~= m);
        assert(t.skip(n + 1) =~= tail.skip(1));
    }
}

/// A number may have a sign, a point among or around its digits, and an exponent with a
/// sign of its own, in any combination, as long as there are digits.
pub proof fn numbers_may_have_points_and_exponents(
    sign: Seq<char>,
    whole: Seq<char>,
    part: Seq<char>,
    e: char,
    exp_sign: Seq<char>,
    exp: Seq<char>,
)
    requires
        is_sign(sign),
        is_sign(exp_sign),
        all_digits(whole),
        all_digits(part),
        all_digits(exp),
        whole.len() + part.len() > 0,
        exp.len() > 0,
        e == 'e' || e == 'E',
    ensures
        ({
            let pointed = whole + seq!['.'] + part;
            let tail = seq![e] + exp_sign + exp;
            &&& whole.len() > 0 ==> spells_float(sign + whole)
            &&& whole.len() > 0 ==> spells_float(sign + (whole + tail))
            &&& spells_float(sign + pointed)
            &&& spells_float(sign + (pointed + tail))
        }),
{
    let pointed = whole + seq!['.'] + part;
    let none = Seq::<char>::empty();
    let tail = seq![e] + exp_sign + exp;
    assert forall|i: int| 0 <= i < whole.len() implies #[trigger] whole[i] != '.' && whole[i] != 'e'
        && whole[i] != 'E' && whole[i] != '+' && whole[i] != '-' by {
        assert(is_digit(whole[i]));
    }
    assert forall|i: int| 0 <= i < part.len() implies #[trigger] part[i] != 'e' && part[i] != 'E' by {
        assert(is_digit(part[i]));
    }
    assert(is_digit(exp[0]));
    lemma_signed(exp_sign, exp);
    assert(tail.skip(1) =~= exp_sign + exp);
    assert(tail[0] == e);
    assert(is_exponent(tail.skip(1)));
    lemma_first_at(pointed, '.', whole.len() as int);
    assert(pointed.take(whole.len() as int) =~= whole);
    assert(pointed.skip(whole.len() as int + 1) =~= part);
    assert(is_mantissa(pointed));
    assert forall|i: int| 0 <= i < pointed.len() implies #[trigger] pointed[i] != 'e' && pointed[i]
        != 'E' by {
        if i < whole.len() {
            assert(pointed[i] == whole[i]);
        } else if i > whole.len() {
            assert(pointed[i] == part[i - whole.len() - 1]);
        }
    }
    assert(pointed[0] != '+' && pointed[0] != '-') by {
        if whole.len() > 0 {
            assert(pointed[0] == whole[0]);
        }
    }
    lemma_number(pointed, none);
    lemma_number(pointed, tail);
    assert(pointed + none =~= pointed);
    lemma_signed(sign, pointed);
    assert((pointed + tail)[0] == pointed[0]);
    lemma_signed(sign, pointed + tail);
    if whole.len() > 0 {
        lemma_first_at(whole, '.', whole.len() as int);
        assert(is_mantissa(whole));
        lemma_number(whole, none);
        lemma_number(whole, tail);
        assert(whole + none =~= whole);
        lemma_signed(sign, whole);
        assert((whole + tail)[0] == whole[0]);
        lemma_signed(sign, whole + tail);
    }
}

/// A number has a digit, and nothing but digits, signs, points and the letter of an
/// exponent, unless it is one of the words for what is no finite number.
pub proof fn numbers_are_made_of_digits(s: Seq<char>, i: int)
    requires
        spells_float(s),
        !same_but_case(unsigned_part(s), "inf"@),
        !same_but_case(unsigned_part(s), "infinity"@),
        !same_but_case(unsigned_part(s), "nan"@),
        0 <= i < s.len(),
    ensures
        s.len() > 0,
        is_digit(s[i]) || s[i] == '+' || s[i] == '-' || s[i] == '.' || s[i] == 'e' || s[i] == 'E',
{
    let t = unsigned_part(s);
    let e = exponent_at(t);
    lemma_index_from(t, 'e', 0);
    lemma_index_from(t, 'E', 0);
    let m = t.take(e);
    let off = s.len() - t.len();
    if i >= off {
        let j = i - off;
        assert(t[j] == s[i]);
        if j < e {
            lemma_index_from(m, '.', 0);
            let dot = index_from(m, '.', 0);
            assert(m[j] == t[j]);
            if dot >= m.len() {
                assert(is_digit(m[j]));
            } else if j < dot {
                assert(m.take(dot)[j] == m[j]);
                assert(is_digit(m.take(dot)[j]));
            } else if j > dot {
                assert(m.skip(dot + 1)[j - dot - 1] == m[j]);
                assert(is_digit(m.skip(dot + 1)[j - dot - 1]));
            }
        } else if j > e {
            let x = t.skip(e + 1);
            let d = unsigned_part(x);
            let k = j - e - 1;
            assert(x[k] == t[j]);
            if k >= x.len() - d.len() {
                assert(d[k - (x.len() - d.len())] == x[k]);
                assert(is_digit(d[k - (x.len() - d.len())]));
            }
        }
    }
}

/// A line of a key and a value sets the value of that key and of no other, if the value
/// is a number of the kind that the key takes, and is an error otherwise; and so is a
/// line with a word that is no key.
pub proof fn lines_set_one_key(values: Values, key: Seq<char>, value: Seq<char>, number: int, i: int)
    requires
        values.len() == NUM_KEYS,
        key.len() > 0,
        value.len() > 0,
        forall|k: int| 0 <= k < key.len() ==> !is_space(#[trigger] key[k]),
        forall|k: int| 0 <= k < value.len() ==> !is_space(#[trigger] value[k]),
        0 <= i < NUM_KEYS,
    ensures
        ({
            let line = key + seq![' '] + value;
            let after = after_line(values, line, number);
            let fraction = i == 5 || i == 6 || i == 8;
            let fine = if fraction {
                spells_float(value)
            } else {
                unsigned_value(value, usize::MAX as nat) is Some
            };
            &&& key == meta_key(i) && fine ==> {
                &&& after is Ok
                &&& after->Ok_0.len() == NUM_KEYS
                &&& after->Ok_0[i] == Some(value)
                &&& forall|j: int|
                    0 <= j < NUM_KEYS && j != i ==> #[trigger] after->Ok_0[j] == values[j]
            }
            &&& key == meta_key(i) && !fine ==> after == Err::<Values, MetaFault>(
                MetaFault::BadValue(key, value),
            )
            &&& (forall|j: int| 0 <= j < NUM_KEYS ==> #[trigger] meta_key(j) != key) ==> after == Err::<
                Values,
                MetaFault,
            >(MetaFault::UnknownKey(number, key))
        }),
{
    let line = key + seq![' '] + value;
    lemma_two_words(key, value);
    reveal_strlit(" ");
    assert(key + " "@ + value =~= line);
    let w = words(line);
    assert(w.len() == 2 && w[0] == key && w[1] == value);
    lemma_place(key, 0);
    if key == meta_key(i) {
        match key_place(key, 0) {
            Some(k) => {
                crate::checkpoint::keys_are_distinct_words(k, i);
            },
            None => {},
        }
    }
}

proof fn lemma_place(key: Seq<char>, from: int)
    requires
        0 <= from,
    ensures
        match key_place(key, from) {
            Some(k) => from <= k < NUM_KEYS && meta_key(k) == key,
            None => forall|j: int| from <= j < NUM_KEYS ==> #[trigger] meta_key(j) != key,
        },
    decreases NUM_KEYS - from,
{
    if from < NUM_KEYS && meta_key(from) != key {
        lemma_place(key, from + 1);
    }
}

/// A line with one word, or with more than two, is an error.
pub proof fn lines_have_two_words(values: Values, line: Seq<char>, number: int)
    ensures
        words(line).len() == 1 ==> after_line(values, line, number) == Err::<Values, MetaFault>(
            MetaFault::NoValue(number, line),
        ),
        words(line).len() > 2 ==> after_line(values, line, number) == Err::<Values, MetaFault>(
            MetaFault::Extra(number, line),
        ),
        words(line).len() == 0 ==> after_line(values, line, number) == Ok::<Values, MetaFault>(
            values,
        ),
{
}

/// Each number is written under its own key, and read back from it.
pub proof fn numbers_stand_under_their_keys(meta: CheckpointMeta, values: Values)
    ensures
        meta_key(0) == "vocab_size"@ && meta.value(0) == decimal(meta.vocab_size as nat),
        meta_key(1) == "sequence_len"@ && meta.value(1) == decimal(meta.sequence_len as nat),
        meta_key(2) == "n_layer"@ && meta.value(2) == decimal(meta.n_layer as nat),
        meta_key(3) == "n_head"@ && meta.value(3) == decimal(meta.n_head as nat),
        meta_key(4) == "n_embd"@ && meta.value(4) == decimal(meta.n_embd as nat),
        meta_key(5) == "rope_base"@ && meta.value(5) == meta.rope_base@,
        meta_key(6) == "norm_eps"@ && meta.value(6) == meta.norm_eps@,
        meta_key(7) == "step"@ && meta.value(7) == decimal(meta.step as nat),
        meta_key(8) == "val_bpb"@ && meta.value(8) == meta.val_bpb@,
        says(values, meta) ==> {
            &&& unsigned_value(values[0]->0, usize::MAX as nat) == Some(meta.vocab_size as nat)
            &&& unsigned_value(values[1]->0, usize::MAX as nat) == Some(meta.sequence_len as nat)
            &&& unsigned_value(values[2]->0, usize::MAX as nat) == Some(meta.n_layer as nat)
            &&& unsigned_value(values[3]->0, usize::MAX as nat) == Some(meta.n_head as nat)
            &&& unsigned_value(values[4]->0, usize::MAX as nat) == Some(meta.n_embd as nat)
            &&& values[5]->0 == meta.rope_base@
            &&& values[6]->0 == meta.norm_eps@
            &&& unsigned_value(values[7]->0, usize::MAX as nat) == Some(meta.step as nat)
            &&& values[8]->0 == meta.val_bpb@
        },
{
}

/// The text is a line for each key in order, of the key, a space and the number.
pub proof fn texts_have_a_line_for_each_key(meta: CheckpointMeta, from: int)
    requires
        0 <= from < 9,
    ensures
        meta_text(meta, from) == meta_key(from) + seq![' '] + meta.value(from) + seq!['\n']
            + meta_text(meta, from + 1),
        meta_text(meta, 9).len() == 0,
{
    reveal_strlit(" ");
    reveal_strlit("\n");
    assert(" "@ =~= seq![' ']);
    assert("\n"@ =~= seq!['\n']);
}

/// A text is read if and only if none of its lines is an error and each key has got a
/// value; and it says the last value of each.
pub proof fn texts_say_all_keys(text: Seq<char>, i: int)
    requires
        0 <= i < 9,
    ensures
        match meta_values(text) {
            Ok(values) => {
                &&& after_lines(no_values(), lines(text), 0) == Ok::<Values, MetaFault>(values)
                &&& values[i] is Some
            },
            Err(MetaFault::Missing(key)) => exists|k: int|
                0 <= k < 9 && #[trigger] meta_key(k) == key,
            Err(e) => after_lines(no_values(), lines(text), 0) == Err::<Values, MetaFault>(e),
        },
{
    match after_lines(no_values(), lines(text), 0) {
        Ok(values) => {
            lemma_missing(values, 0, i);
        },
        Err(e) => {
            lemma_lines_miss_nothing(no_values(), lines(text), 0);
        },
    }
}

proof fn lemma_missing(values: Values, from: int, i: int)
    requires
        0 <= from,
        from <= i < 9,
    ensures
        match first_missing(values, from) {
            Some(k) => from <= k < 9 && values[k] is None,
            None => values[i] is Some,
        },
    decreases 9 - from,
{
    if values[from] is Some && from < i {
        lemma_missing(values, from + 1, i);
    } else if values[from] is Some && from + 1 < 9 {
        lemma_missing(values, from + 1, from + 1);
    }
}

proof fn lemma_lines_miss_nothing(values: Values, all: Seq<Seq<char>>, at: int)
    ensures
        after_lines(values, all, at) matches Err(e) ==> !(e is Missing),
    decreases all.len() - at,
{
    if at < all.len() {
        match after_line(values, all[at], at + 1) {
            Ok(next) => lemma_lines_miss_nothing(next, all, at + 1),
            Err(_) => {},
        }
    }
}

/// Lines are read one behind the other, and the first that is an error ends it.
pub proof fn lines_are_read_one_by_one(values: Values, all: Seq<Seq<char>>, at: int)
    requires
        0 <= at < all.len(),
    ensures
        match after_line(values, all[at], at + 1) {
            Ok(next) => after_lines(values, all, at) == after_lines(next, all, at + 1),
            Err(e) => after_lines(values, all, at) == Err::<Values, MetaFault>(e),
        },
        after_lines(values, all, all.len() as int) == Ok::<Values, MetaFault>(values),
{
}

} // verus!
