//! Decoding ids as they come: the start of a character waits for its rest, and
//! what cannot become a character is shown as the replacement character.
use vstd::prelude::*;
use vstd::slice::{slice_subrange, slice_to_vec};
use vstd::utf8::{
    codepoint_width_2, codepoint_width_3, codepoint_width_4, decode_first_scalar, decode_utf8,
    is_continuation_byte, length_of_first_scalar, pop_first_scalar, valid_first_scalar, valid_utf8,
};

use super::bpe::{string_from_utf8, BpeTokenizer};
use super::shared::TokenId;
use crate::seqs::concat;

verus! {

// ---------------------------------------------------------------------------
// What bytes show
// ---------------------------------------------------------------------------

/// The character that is shown in place of bytes that make none.
pub const REPLACEMENT: char = '\u{FFFD}';

/// Whether the bytes are one character.
pub open spec fn is_character(bytes: Seq<u8>) -> bool {
    valid_first_scalar(bytes) && length_of_first_scalar(bytes) == bytes.len()
}

/// Whether the bytes are the start of a character, but not all of it.
pub open spec fn begins_character(bytes: Seq<u8>) -> bool {
    &&& bytes.len() > 0
    &&& exists|rest: Seq<u8>| rest.len() > 0 && #[trigger] is_character(bytes + rest)
}

/// How many bytes at the front are shown as one character: those of the
/// character that they begin with; or else the longest start of a character, and
/// at least one byte.
pub open spec fn fragment(bytes: Seq<u8>) -> int {
    if valid_first_scalar(bytes) {
        length_of_first_scalar(bytes)
    } else if bytes.len() >= 3 && begins_character(bytes.take(3)) {
        3
    } else if bytes.len() >= 2 && begins_character(bytes.take(2)) {
        2
    } else {
        1
    }
}

/// The text that is shown for bytes: each character as it is, and the replacement
/// character for each fragment that is none.
pub open spec fn shown(bytes: Seq<u8>) -> Seq<char>
    decreases bytes.len(),
{
    if bytes.len() == 0 {
        Seq::empty()
    } else {
        let first = if valid_first_scalar(bytes) {
            decode_first_scalar(bytes) as char
        } else {
            REPLACEMENT
        };
        seq![first] + shown(bytes.skip(fragment(bytes)))
    }
}

/// Valid UTF-8 is shown as the text that it encodes.
pub proof fn valid_bytes_are_shown_as_they_are(bytes: Seq<u8>)
    requires
        valid_utf8(bytes),
    ensures
        shown(bytes) == decode_utf8(bytes),
    decreases bytes.len(),
{
    if bytes.len() > 0 {
        assert(pop_first_scalar(bytes) =~= bytes.skip(fragment(bytes)));
        valid_bytes_are_shown_as_they_are(pop_first_scalar(bytes));
    }
}

/// What a sequence begins with stays the same with more bytes behind it, once it
/// is neither nothing nor the start of a character.
proof fn lemma_more_bytes(bytes: Seq<u8>, more: Seq<u8>)
    requires
        bytes.len() > 0,
        !begins_character(bytes),
    ensures
        valid_first_scalar(bytes + more) == valid_first_scalar(bytes),
        valid_first_scalar(bytes) ==> decode_first_scalar(bytes + more) == decode_first_scalar(
            bytes,
        ),
        fragment(bytes + more) == fragment(bytes),
        0 < fragment(bytes) <= bytes.len(),
{
    let all = bytes + more;
    if valid_first_scalar(bytes) {
    } else {
        if valid_first_scalar(all) {
            let n = length_of_first_scalar(all);
            if n > bytes.len() {
                let rest = more.take(n - bytes.len());
                assert(bytes + rest =~= all.take(n));
                assert(is_character(bytes + rest));
            }
        }
        lemma_longer_start(bytes, more, 2);
        lemma_longer_start(bytes, more, 3);
    }
}

/// A start of a character within more bytes lies within the bytes.
proof fn lemma_longer_start(bytes: Seq<u8>, more: Seq<u8>, n: int)
    requires
        bytes.len() > 0,
        !begins_character(bytes),
        n > 0,
    ensures
        (bytes + more).len() >= n && begins_character((bytes + more).take(n)) <==> bytes.len() >= n
            && begins_character(bytes.take(n)),
{
    let all = bytes + more;
    if n <= bytes.len() {
        assert(all.take(n) =~= bytes.take(n));
    } else if n <= all.len() && begins_character(all.take(n)) {
        let rest = choose|rest: Seq<u8>| rest.len() > 0 && #[trigger] is_character(all.take(n) + rest);
        let longer = more.take(n - bytes.len()) + rest;
        assert(bytes + longer =~= all.take(n) + rest);
        assert(is_character(bytes + longer));
    }
}

/// The start of a character is shown as one replacement character, if nothing
/// follows, and is at most three bytes long.
pub proof fn starts_are_shown_as_one(bytes: Seq<u8>)
    requires
        begins_character(bytes),
    ensures
        bytes.len() <= 3,
        shown(bytes) == seq![REPLACEMENT],
{
    let rest = choose|rest: Seq<u8>| rest.len() > 0 && #[trigger] is_character(bytes + rest);
    assert((bytes + rest).len() <= 4);
    if valid_first_scalar(bytes) {
        assert(length_of_first_scalar(bytes + rest) == length_of_first_scalar(bytes));
    }
    assert(bytes.take(bytes.len() as int) =~= bytes);
    assert(fragment(bytes) == bytes.len());
    assert(bytes.skip(fragment(bytes)) =~= Seq::empty());
    assert(shown(bytes.skip(fragment(bytes))) =~= Seq::empty());
}

// ---------------------------------------------------------------------------
// Characters by their bytes
// ---------------------------------------------------------------------------

/// Whether the second byte of a character of three or four bytes may follow its
/// first.
spec fn second_fits(first: u8, second: u8) -> bool {
    &&& is_continuation_byte(second)
    &&& first == 0xe0 ==> second >= 0xa0
    &&& first == 0xed ==> second <= 0x9f
    &&& first == 0xf0 ==> second >= 0x90
    &&& first == 0xf4 ==> second <= 0x8f
}

/// Whether the bytes begin with a character, by the ranges of its bytes.
spec fn front_fits(bytes: Seq<u8>) -> bool {
    &&& bytes.len() > 0
    &&& {
        ||| bytes[0] <= 0x7f
        ||| 0xc2 <= bytes[0] <= 0xdf && bytes.len() >= 2 && is_continuation_byte(bytes[1])
        ||| 0xe0 <= bytes[0] <= 0xef && bytes.len() >= 3 && second_fits(bytes[0], bytes[1])
            && is_continuation_byte(bytes[2])
        ||| 0xf0 <= bytes[0] <= 0xf4 && bytes.len() >= 4 && second_fits(bytes[0], bytes[1])
            && is_continuation_byte(bytes[2]) && is_continuation_byte(bytes[3])
    }
}

/// Whether the bytes are the start of a character, by the ranges of its bytes.
spec fn start_fits(bytes: Seq<u8>) -> bool {
    ||| bytes.len() == 1 && 0xc2 <= bytes[0] <= 0xf4
    ||| bytes.len() == 2 && 0xe0 <= bytes[0] <= 0xf4 && second_fits(bytes[0], bytes[1])
    ||| bytes.len() == 3 && 0xf0 <= bytes[0] <= 0xf4 && second_fits(bytes[0], bytes[1])
        && is_continuation_byte(bytes[2])
}

proof fn lemma_two(a: u8, b: u8)
    requires
        0xc0 <= a <= 0xdf,
        is_continuation_byte(b),
    ensures
        codepoint_width_2(a, b) < 0x800,
        codepoint_width_2(a, b) >= 0x80 <==> a >= 0xc2,
{
    assert((((a & 0x1f) as u32) << 6 | ((b & 0x3f) as u32)) < 0x800 && ((((a & 0x1f) as u32) << 6
        | ((b & 0x3f) as u32)) >= 0x80 <==> a >= 0xc2)) by (bit_vector)
        requires
            0xc0 <= a <= 0xdf,
            0x80 <= b <= 0xbf,
    ;
}

proof fn lemma_three(a: u8, b: u8, c: u8)
    requires
        0xe0 <= a <= 0xef,
        is_continuation_byte(b),
        is_continuation_byte(c),
    ensures
        codepoint_width_3(a, b, c) < 0x10000,
        codepoint_width_3(a, b, c) >= 0x800 && !(0xd800 <= codepoint_width_3(a, b, c) <= 0xdfff)
            <==> second_fits(a, b),
{
    let x = codepoint_width_3(a, b, c);
    assert(x == (((a & 0x0f) as u32) << 12 | ((b & 0x3f) as u32) << 6 | ((c & 0x3f) as u32)));
    assert(x < 0x10000 && (x >= 0x800 <==> (a != 0xe0 || b >= 0xa0)) && (0xd800 <= x <= 0xdfff
        <==> (a == 0xed && b > 0x9f))) by (bit_vector)
        requires
            0xe0 <= a <= 0xef,
            0x80 <= b <= 0xbf,
            0x80 <= c <= 0xbf,
            x == (((a & 0x0f) as u32) << 12 | ((b & 0x3f) as u32) << 6 | ((c & 0x3f) as u32)),
    ;
}

proof fn lemma_four(a: u8, b: u8, c: u8, d: u8)
    requires
        0xf0 <= a <= 0xf7,
        is_continuation_byte(b),
        is_continuation_byte(c),
        is_continuation_byte(d),
    ensures
        0x10000 <= codepoint_width_4(a, b, c, d) <= 0x10ffff <==> a <= 0xf4 && second_fits(a, b),
{
    let x = codepoint_width_4(a, b, c, d);
    assert(x == (((a & 0x07) as u32) << 18 | ((b & 0x3f) as u32) << 12 | ((c & 0x3f) as u32) << 6
        | ((d & 0x3f) as u32)));
    assert((0x10000 <= x <= 0x10ffff) <==> (a <= 0xf4 && (a != 0xf0 || b >= 0x90) && (a != 0xf4 || b
        <= 0x8f))) by (bit_vector)
        requires
            0xf0 <= a <= 0xf7,
            0x80 <= b <= 0xbf,
            0x80 <= c <= 0xbf,
            0x80 <= d <= 0xbf,
            x == (((a & 0x07) as u32) << 18 | ((b & 0x3f) as u32) << 12 | ((c & 0x3f) as u32) << 6
                | ((d & 0x3f) as u32)),
    ;
}

proof fn lemma_front(bytes: Seq<u8>)
    ensures
        front_fits(bytes) <==> valid_first_scalar(bytes),
{
    if bytes.len() > 0 {
        let a = bytes[0];
        if a <= 0x7f {
            assert(((a & 0x7f) as u32) <= 0x7f) by (bit_vector);
        } else if 0xc0 <= a <= 0xdf {
            if bytes.len() >= 2 && is_continuation_byte(bytes[1]) {
                lemma_two(a, bytes[1]);
            }
        } else if 0xe0 <= a <= 0xef {
            if bytes.len() >= 3 && is_continuation_byte(bytes[1]) && is_continuation_byte(
                bytes[2],
            ) {
                lemma_three(a, bytes[1], bytes[2]);
            }
        } else if 0xf0 <= a <= 0xf7 {
            if bytes.len() >= 4 && is_continuation_byte(bytes[1]) && is_continuation_byte(bytes[2])
                && is_continuation_byte(bytes[3]) {
                lemma_four(a, bytes[1], bytes[2], bytes[3]);
            }
        }
    }
}

proof fn lemma_start(bytes: Seq<u8>)
    ensures
        start_fits(bytes) <==> begins_character(bytes),
{
    if begins_character(bytes) {
        let rest = choose|rest: Seq<u8>| rest.len() > 0 && #[trigger] is_character(bytes + rest);
        lemma_front(bytes + rest);
        assert(forall|i: int| 0 <= i < bytes.len() ==> (bytes + rest)[i] == bytes[i]);
    }
    if start_fits(bytes) {
        let a = bytes[0];
        let last = seq![0x80u8];
        let second = if a == 0xe0 {
            seq![0xa0u8]
        } else if a == 0xf0 {
            seq![0x90u8]
        } else {
            last
        };
        let rest = if a <= 0xdf {
            last
        } else if a <= 0xef {
            if bytes.len() == 1 {
                second + last
            } else {
                last
            }
        } else if bytes.len() == 1 {
            second + last + last
        } else if bytes.len() == 2 {
            last + last
        } else {
            last
        };
        let whole = bytes + rest;
        assert(whole[0] == a);
        assert(front_fits(whole));
        lemma_front(whole);
        assert(is_character(bytes + rest));
    }
}

// ---------------------------------------------------------------------------
// Decoding
// ---------------------------------------------------------------------------

fn continues(b: u8) -> (r: bool)
    ensures
        r == is_continuation_byte(b),
{
    0x80 <= b && b <= 0xbf
}

fn second_goes(first: u8, second: u8) -> (r: bool)
    ensures
        r == second_fits(first, second),
{
    continues(second) && (first != 0xe0 || second >= 0xa0) && (first != 0xed || second <= 0x9f) && (
    first != 0xf0 || second >= 0x90) && (first != 0xf4 || second <= 0x8f)
}

/// What bytes begin with.
enum Front {
    /// A character of so many bytes.
    Character(usize),
    /// All of them are the start of a character.
    Start,
    /// A fragment of so many bytes that makes no character.
    Fragment(usize),
}

/// What the bytes begin with.
fn front(s: &[u8]) -> (r: Front)
    requires
        s@.len() > 0,
    ensures
        match r {
            Front::Character(n) => valid_first_scalar(s@) && n == length_of_first_scalar(s@),
            Front::Start => begins_character(s@),
            Front::Fragment(n) => {
                &&& !valid_first_scalar(s@)
                &&& !begins_character(s@)
                &&& n == fragment(s@)
            },
        },
{
    let n: usize = s.len();
    proof {
        lemma_front(s@);
        lemma_start(s@);
        if n >= 2 {
            lemma_start(s@.take(2));
        }
        if n >= 3 {
            lemma_start(s@.take(3));
        }
    }
    let a: u8 = s[0];
    if a <= 0x7f {
        return Front::Character(1);
    }
    if a < 0xc2 || a > 0xf4 {
        return Front::Fragment(1);
    }
    if n == 1 {
        return Front::Start;
    }
    if a <= 0xdf {
        if continues(s[1]) {
            return Front::Character(2);
        }
        return Front::Fragment(1);
    }
    if !second_goes(a, s[1]) {
        return Front::Fragment(1);
    }
    if n == 2 {
        return Front::Start;
    }
    if a <= 0xef {
        if continues(s[2]) {
            return Front::Character(3);
        }
        return Front::Fragment(2);
    }
    if !continues(s[2]) {
        return Front::Fragment(2);
    }
    if n == 3 {
        return Front::Start;
    }
    if continues(s[3]) {
        return Front::Character(4);
    }
    Front::Fragment(3)
}

/// Whether `said` is what is shown of `all` up to `left`, whatever follows.
pub open spec fn shows(all: Seq<u8>, said: Seq<char>, left: Seq<u8>) -> bool {
    forall|more: Seq<u8>| #[trigger] shown(all + more) == said + shown(left + more)
}

/// Decodes ids as they come.
pub struct TokenDecoder {
    /// The start of a character that waits for its rest.
    pub pending: Vec<u8>,
    /// All bytes that were pushed.
    pub pushed: Ghost<Seq<u8>>,
    /// All text that was returned.
    pub said: Ghost<Seq<char>>,
}

impl TokenDecoder {
    /// What was returned is what the bytes show, but for a start of a character
    /// that is held back.
    pub open spec fn wf(self) -> bool {
        &&& self.pending@.len() == 0 || begins_character(self.pending@)
        &&& shows(self.pushed@, self.said@, self.pending@)
    }

    pub fn new() -> (r: TokenDecoder)
        ensures
            r.wf(),
            r.pending@.len() == 0,
            r.pushed@.len() == 0,
            r.said@.len() == 0,
    {
        let r = TokenDecoder {
            pending: Vec::new(),
            pushed: Ghost(Seq::empty()),
            said: Ghost(Seq::empty()),
        };
        assert forall|more: Seq<u8>| #[trigger] shown(r.pushed@ + more) == r.said@ + shown(
            r.pending@ + more,
        ) by {
            assert(r.pushed@ + more =~= r.pending@ + more);
            assert(r.said@ + shown(r.pending@ + more) =~= shown(r.pending@ + more));
        }
        r
    }

    /// Takes the next id, and returns the text that has become certain.
    pub fn push(&mut self, tok: &BpeTokenizer, id: TokenId) -> (s: String)
        requires
            old(self).wf(),
            id < tok.size(),
        ensures
            final(self).wf(),
            final(self).pushed@ == old(self).pushed@ + tok.id_bytes(id),
            final(self).said@ == old(self).said@ + s@,
            final(self).pending@.len() <= 3,
    {
        let mut bytes: Vec<u8> = Vec::new();
        bytes.append(&mut self.pending);
        let mut next = slice_to_vec(tok.bytes_of(id));
        bytes.append(&mut next);
        let ghost before = self.said@;
        let ghost all = old(self).pushed@ + tok.id_bytes(id);
        let mut s = String::new();
        let mut at: usize = 0;
        let mut more: bool = true;
        proof {
            assert(bytes@ =~= old(self).pending@ + tok.id_bytes(id));
            assert(bytes@.skip(0) =~= bytes@);
            assert forall|x: Seq<u8>| #[trigger] shown(all + x) == before + s@ + shown(
                bytes@.skip(0) + x,
            ) by {
                let x2 = tok.id_bytes(id) + x;
                assert(all + x =~= old(self).pushed@ + x2);
                assert(bytes@.skip(0) + x =~= old(self).pending@ + x2);
                assert(before + s@ =~= before);
            }
        }
        while more && at < bytes.len()
            invariant
                at <= bytes@.len(),
                shows(all, before + s@, bytes@.skip(at as int)),
                !more ==> begins_character(bytes@.skip(at as int)),
            decreases bytes@.len() - at, (if more { 1int } else { 0int }),
        {
            let rest = slice_subrange(bytes.as_slice(), at, bytes.len());
            assert(rest@ =~= bytes@.skip(at as int));
            let ghost left = rest@;
            let ghost said = s@;
            match front(rest) {
                Front::Start => {
                    more = false;
                },
                Front::Character(n) => {
                    proof {
                        lemma_whole(left);
                    }
                    let text = string_from_utf8(slice_to_vec(slice_subrange(rest, 0, n)));
                    match text {
                        Some(c) => {
                            s.append(c.as_str());
                            assert(s@ =~= said + seq![decode_first_scalar(left) as char]);
                        },
                        None => {},
                    }
                    at += n;
                },
                Front::Fragment(n) => {
                    proof {
                        lemma_more_bytes(left, Seq::empty());
                    }
                    s.push(REPLACEMENT);
                    assert(s@ =~= said + seq![REPLACEMENT]);
                    at += n;
                },
            }
            proof {
                if more {
                    lemma_shows_next(all, before + said, left);
                    let c = if valid_first_scalar(left) {
                        decode_first_scalar(left) as char
                    } else {
                        REPLACEMENT
                    };
                    assert(before + s@ =~= before + said + seq![c]);
                    assert(bytes@.skip(at as int) =~= left.skip(fragment(left)));
                }
            }
        }
        self.pending = slice_to_vec(slice_subrange(bytes.as_slice(), at, bytes.len()));
        assert(self.pending@ =~= bytes@.skip(at as int));
        proof {
            if self.pending@.len() > 0 {
                starts_are_shown_as_one(self.pending@);
            }
        }
        self.pushed = Ghost(all);
        self.said = Ghost(before + s@);
        s
    }

    /// The rest of the text. All text that was returned, and this, is what all
    /// bytes show.
    pub fn finish(self) -> (s: String)
        requires
            self.wf(),
        ensures
            self.said@ + s@ == shown(self.pushed@),
            s@.len() <= 1,
    {
        let mut s = String::new();
        if self.pending.len() > 0 {
            proof {
                starts_are_shown_as_one(self.pending@);
            }
            s.push(REPLACEMENT);
        }
        proof {
            assert(s@ =~= shown(self.pending@));
            let none = Seq::<u8>::empty();
            assert(self.pushed@ + none =~= self.pushed@);
            assert(self.pending@ + none =~= self.pending@);
            assert(shown(self.pushed@ + none) == self.said@ + shown(self.pending@ + none));
        }
        s
    }
}

impl BpeTokenizer {
    /// A decoder for ids as they come.
    pub fn decode_stream(&self) -> (r: TokenDecoder)
        ensures
            r.wf(),
            r.pending@.len() == 0,
            r.pushed@.len() == 0,
            r.said@.len() == 0,
    {
        TokenDecoder::new()
    }
}

/// Whether a decoder goes through these states when it takes the ids one by one,
/// and returns these texts.
pub open spec fn is_stream(
    tok: BpeTokenizer,
    ids: Seq<u32>,
    states: Seq<TokenDecoder>,
    texts: Seq<Seq<char>>,
) -> bool {
    &&& states.len() == ids.len() + 1
    &&& texts.len() == ids.len()
    &&& states[0].pushed@.len() == 0
    &&& states[0].said@.len() == 0
    &&& forall|i: int|
        0 <= i < ids.len() ==> {
            &&& states[i + 1].pushed@ == (#[trigger] states[i]).pushed@ + tok.id_bytes(ids[i])
            &&& states[i + 1].said@ == states[i].said@ + texts[i]
        }
}

proof fn lemma_stream(
    tok: BpeTokenizer,
    ids: Seq<u32>,
    states: Seq<TokenDecoder>,
    texts: Seq<Seq<char>>,
    n: int,
)
    requires
        is_stream(tok, ids, states, texts),
        0 <= n <= ids.len(),
    ensures
        states[n].pushed@ == tok.ids_bytes(ids.take(n)),
        states[n].said@ == concat(texts.take(n)),
    decreases n,
{
    let parts = |s: Seq<u32>| Seq::new(s.len(), |i: int| tok.id_bytes(s[i]));
    if n == 0 {
        assert(states[0].pushed@ =~= concat(parts(ids.take(0))));
        assert(states[0].said@ =~= concat(texts.take(0)));
    } else {
        lemma_stream(tok, ids, states, texts, n - 1);
        assert(states[n - 1 + 1] == states[n]);
        assert(parts(ids.take(n)).drop_last() =~= parts(ids.take(n - 1)));
        assert(parts(ids.take(n)).last() == tok.id_bytes(ids[n - 1]));
        assert(texts.take(n).drop_last() =~= texts.take(n - 1));
    }
}

/// Ids that are decoded as they come give the text that they give at once: what
/// is returned for each, and at the end, is the lossy decoding of all ids.
pub proof fn streaming_decodes_as_at_once(
    tok: BpeTokenizer,
    ids: Seq<u32>,
    states: Seq<TokenDecoder>,
    texts: Seq<Seq<char>>,
    end: Seq<char>,
)
    requires
        is_stream(tok, ids, states, texts),
        states.last().said@ + end == shown(states.last().pushed@),
    ensures
        concat(texts) + end == shown(tok.ids_bytes(ids)),
{
    lemma_stream(tok, ids, states, texts, ids.len() as int);
    assert(ids.take(ids.len() as int) =~= ids);
    assert(texts.take(ids.len() as int) =~= texts);
}

/// The bytes of the first character by themselves encode it.
proof fn lemma_whole(bytes: Seq<u8>)
    requires
        valid_first_scalar(bytes),
    ensures
        0 < length_of_first_scalar(bytes) <= bytes.len(),
        !begins_character(bytes),
        valid_utf8(bytes.subrange(0, length_of_first_scalar(bytes))),
        decode_utf8(bytes.subrange(0, length_of_first_scalar(bytes))) == seq![
            decode_first_scalar(bytes) as char,
        ],
{
    let one = bytes.subrange(0, length_of_first_scalar(bytes));
    if begins_character(bytes) {
        let rest = choose|rest: Seq<u8>| rest.len() > 0 && #[trigger] is_character(bytes + rest);
        assert(length_of_first_scalar(bytes + rest) == length_of_first_scalar(bytes));
    }
    assert(valid_first_scalar(one));
    assert(pop_first_scalar(one) =~= Seq::empty());
    assert(valid_utf8(pop_first_scalar(one)));
    assert(decode_utf8(pop_first_scalar(one)) =~= Seq::empty());
    assert(decode_first_scalar(one) == decode_first_scalar(bytes));
    assert(decode_utf8(one) =~= seq![decode_first_scalar(bytes) as char]);
}

/// What is left goes on with what it begins with.
proof fn lemma_shows_next(all: Seq<u8>, said: Seq<char>, left: Seq<u8>)
    requires
        left.len() > 0,
        !begins_character(left),
        shows(all, said, left),
    ensures
        shows(
            all,
            said + seq![
                if valid_first_scalar(left) {
                    decode_first_scalar(left) as char
                } else {
                    REPLACEMENT
                },
            ],
            left.skip(fragment(left)),
        ),
{
    let c = if valid_first_scalar(left) {
        decode_first_scalar(left) as char
    } else {
        REPLACEMENT
    };
    let rest = left.skip(fragment(left));
    assert forall|more: Seq<u8>| #[trigger] shown(all + more) == said + seq![c] + shown(
        rest + more,
    ) by {
        lemma_more_bytes(left, more);
        assert(shown(all + more) == said + shown(left + more));
        assert((left + more).skip(fragment(left)) =~= rest + more);
        assert(said + (seq![c] + shown(rest + more)) =~= said + seq![c] + shown(rest + more));
    }
}

} // verus!
