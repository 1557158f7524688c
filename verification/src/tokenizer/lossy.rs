//! What is shown of bytes that are not all text.
use vstd::prelude::*;
use vstd::utf8::{
    decode_first_scalar, encode_utf8, is_continuation_byte, length_of_first_scalar,
    pop_first_scalar, valid_first_scalar,
};

use super::stream::{begins_character, fragment, is_character, shown};

verus! {

/// Text at the front of bytes is shown as it is, whatever follows.
pub proof fn text_is_shown_as_it_is(text: Seq<char>, rest: Seq<u8>)
    ensures
        shown(encode_utf8(text) + rest) == text + shown(rest),
    decreases text.len(),
{
    let bytes = encode_utf8(text);
    if text.len() == 0 {
        assert(bytes + rest =~= rest);
        assert(text + shown(rest) =~= shown(rest));
    } else {
        vstd::utf8::encode_utf8_first_scalar(text);
        let all = bytes + rest;
        let n = length_of_first_scalar(bytes);
        assert(valid_first_scalar(bytes));
        assert(valid_first_scalar(all));
        assert(decode_first_scalar(all) == decode_first_scalar(bytes));
        assert(fragment(all) == n);
        vstd::utf8::char_u32_cast(text[0], decode_first_scalar(bytes));
        assert(decode_first_scalar(all) as char == text[0]);
        let tail = text.drop_first();
        assert(pop_first_scalar(bytes) == encode_utf8(tail));
        assert(all.skip(n) =~= encode_utf8(tail) + rest);
        text_is_shown_as_it_is(tail, rest);
        assert(seq![text[0]] + (tail + shown(rest)) =~= text + shown(rest));
    }
}

/// A byte that no character begins with is shown as one replacement character, and what
/// follows it is shown by itself.
pub proof fn stray_bytes_are_replaced_one_by_one(b: u8, rest: Seq<u8>)
    requires
        0x80 <= b < 0xc0 || b >= 0xf8,
    ensures
        shown(seq![b] + rest) == seq!['\u{FFFD}'] + shown(rest),
{
    let all = seq![b] + rest;
    assert(all[0] == b);
    assert(!valid_first_scalar(all));
    assert forall|n: int| 0 < n <= all.len() implies !begins_character(#[trigger] all.take(n)) by {
        let t = all.take(n);
        assert(t[0] == b);
        if begins_character(t) {
            let more = choose|more: Seq<u8>| more.len() > 0 && #[trigger] is_character(t + more);
            assert((t + more)[0] == b);
        }
    }
    assert(fragment(all) == 1) by {
        if all.len() >= 3 {
            assert(!begins_character(all.take(3)));
        }
        if all.len() >= 2 {
            assert(!begins_character(all.take(2)));
        }
    }
    assert(all.skip(1) =~= rest);
}

/// A character that breaks off is shown as one replacement character where the next
/// character begins, and that one is shown by itself.
pub proof fn broken_characters_are_replaced_as_one(start: Seq<u8>, b: u8, rest: Seq<u8>)
    requires
        begins_character(start),
        !is_continuation_byte(b),
    ensures
        shown(start + (seq![b] + rest)) == seq!['\u{FFFD}'] + shown(seq![b] + rest),
{
    let tail = seq![b] + rest;
    let all = start + tail;
    let n = start.len() as int;
    let more = choose|more: Seq<u8>| more.len() > 0 && #[trigger] is_character(start + more);
    let whole = start + more;
    super::stream::starts_are_shown_as_one(start);
    assert(all[n] == b);
    assert(forall|i: int| 0 <= i < n ==> #[trigger] all[i] == start[i]);
    assert(forall|i: int| 0 <= i < n ==> #[trigger] whole[i] == start[i]);
    // A character goes on with continuation bytes only.
    assert(valid_first_scalar(whole));
    assert(!valid_first_scalar(all)) by {
        if valid_first_scalar(all) {
            assert(all[0] == whole[0]);
            assert(length_of_first_scalar(all) == length_of_first_scalar(whole));
            assert(length_of_first_scalar(all) > n);
            assert(is_continuation_byte(all[n]));
        }
    }
    assert(all.take(n) =~= start);
    assert forall|m: int| n < m <= all.len() implies !begins_character(#[trigger] all.take(m)) by {
        let t = all.take(m);
        if begins_character(t) {
            let x = choose|x: Seq<u8>| x.len() > 0 && #[trigger] is_character(t + x);
            assert((t + x)[n] == b);
            assert((t + x)[0] == whole[0]);
            assert(n >= 1);
        }
    }
    assert(fragment(all) == n) by {
        if n < 3 && all.len() >= 3 {
            assert(!begins_character(all.take(3)));
        }
        if n < 2 && all.len() >= 2 {
            assert(!begins_character(all.take(2)));
        }
    }
    assert(all.skip(n) =~= tail);
}

} // verus!
