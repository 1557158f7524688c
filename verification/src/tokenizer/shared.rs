//! What encoding and decoding share: token ids, the special tokens, the table
//! of learned tokens, and the pattern that splits a text before it is encoded.
use fancy_regex::Regex;
use vstd::prelude::*;
use vstd::utf8::{encode_utf8, is_char_boundary};

use super::merge::has_single_bytes;
use crate::text::views;

verus! {

pub type TokenId = u32;

/// The number of special tokens.
pub const NUM_SPECIAL_TOKENS: usize = 9;

/// The text of the special token at place `i` of the block above the learned
/// tokens.
pub open spec fn special_name(i: int) -> Seq<char> {
    if i == 0 {
        "<|bos|>"@
    } else if i == 1 {
        "<|user_start|>"@
    } else if i == 2 {
        "<|user_end|>"@
    } else if i == 3 {
        "<|assistant_start|>"@
    } else if i == 4 {
        "<|assistant_end|>"@
    } else if i == 5 {
        "<|python_start|>"@
    } else if i == 6 {
        "<|python_end|>"@
    } else if i == 7 {
        "<|output_start|>"@
    } else {
        "<|output_end|>"@
    }
}

/// The place of the special token that is named `name`.
pub open spec fn special_place(name: Seq<char>) -> Option<int> {
    if exists|i: int| 0 <= i < NUM_SPECIAL_TOKENS && special_name(i) == name {
        Some(choose|i: int| 0 <= i < NUM_SPECIAL_TOKENS && special_name(i) == name)
    } else {
        None
    }
}

/// No two special tokens have the same text.
pub proof fn special_names_differ(i: int, j: int)
    requires
        0 <= i < NUM_SPECIAL_TOKENS,
        0 <= j < NUM_SPECIAL_TOKENS,
        special_name(i) == special_name(j),
    ensures
        i == j,
{
    reveal_strlit("<|bos|>");
    reveal_strlit("<|user_start|>");
    reveal_strlit("<|user_end|>");
    reveal_strlit("<|assistant_start|>");
    reveal_strlit("<|assistant_end|>");
    reveal_strlit("<|python_start|>");
    reveal_strlit("<|python_end|>");
    reveal_strlit("<|output_start|>");
    reveal_strlit("<|output_end|>");
    let a = special_name(i);
    let b = special_name(j);
    assert(a.len() == b.len());
    assert(a[2] == b[2]);
}

/// The place of the special token that stands at `i`.
pub proof fn special_place_of_name(i: int)
    requires
        0 <= i < NUM_SPECIAL_TOKENS,
    ensures
        special_place(special_name(i)) == Some(i),
{
    let name = special_name(i);
    let j = choose|j: int| 0 <= j < NUM_SPECIAL_TOKENS && special_name(j) == name;
    assert(special_name(i) == name);
    special_names_differ(i, j);
}

/// The text of the special token at place `i`.
pub fn special_token(i: usize) -> (s: &'static str)
    requires
        i < NUM_SPECIAL_TOKENS,
    ensures
        s@ == special_name(i as int),
{
    match i {
        0 => "<|bos|>",
        1 => "<|user_start|>",
        2 => "<|user_end|>",
        3 => "<|assistant_start|>",
        4 => "<|assistant_end|>",
        5 => "<|python_start|>",
        6 => "<|python_end|>",
        7 => "<|output_start|>",
        _ => "<|output_end|>",
    }
}

// ---------------------------------------------------------------------------
// Splitting a text into pieces
// ---------------------------------------------------------------------------

/// The pattern of one piece: a word with an optional leading mark and
/// contraction, up to three digits, a run of marks, line ends, or other space.
pub const TOKEN_PATTERN: &'static str =
    r"[^\r\n\p{L}\p{N}]?[\p{Lu}\p{Lt}\p{Lm}\p{Lo}\p{M}]*[\p{Ll}\p{Lm}\p{Lo}\p{M}]+(?i:'s|'t|'re|'ve|'m|'ll|'d)?|[^\r\n\p{L}\p{N}]?[\p{Lu}\p{Lt}\p{Lm}\p{Lo}\p{M}]+[\p{Ll}\p{Lm}\p{Lo}\p{M}]*(?i:'s|'t|'re|'ve|'m|'ll|'d)?|\p{N}{1,3}| ?[^\s\p{L}\p{N}]+[\r\n/]*|\s*[\r\n]+|\s+(?!\S)|\s+";

/// A compiled pattern of the `fancy_regex` crate.
#[verifier::external_type_specification]
#[verifier::external_body]
pub struct ExRegex(fancy_regex::Regex);

/// What `fancy_regex::Regex::new` makes of a pattern, or `None` where it
/// rejects the pattern.
pub uninterp spec fn compiled_regex(pattern: Seq<char>) -> Option<Regex>;

/// What `fancy_regex::Regex::find_from_pos` finds in a text from a byte
/// position on, for the regex that a pattern compiles to: the first match by
/// its byte offsets, if there is one, or `None` where the engine gives up.
pub uninterp spec fn regex_find(pattern: Seq<char>, text: Seq<char>, start: int) -> Option<
    Option<(int, int)>,
>;

/// `fancy_regex::Regex::new`: compiles a pattern with the default options. The
/// outcome is a function of the pattern.
#[verifier::external_body]
fn compile_regex(pattern: &str) -> (r: Option<Regex>)
    ensures
        r == compiled_regex(pattern@),
{
    Regex::new(pattern).ok()
}

/// `fancy_regex::Regex::find_from_pos`: searches `text` from the byte position
/// `start` on. The outcome is a function of the pattern, the text and the
/// position; `None` stands for an engine error, such as the backtracking limit.
///
/// Of [`TOKEN_PATTERN`] it claims more: a search that ends without an error
/// before the end of the text has found a match that begins at `start` and is
/// not empty. Every character is white space, a letter, a number or none of
/// these; the pattern has an alternative for each, none of its alternatives
/// matches the empty text, and a search takes the leftmost match.
#[verifier::external_body]
fn find_from_pos(regex: &Regex, text: &str, start: usize) -> (r: Option<Option<(usize, usize)>>)
    requires
        start <= encode_utf8(text@).len(),
        is_char_boundary(encode_utf8(text@), start as int),
    ensures
        forall|pattern: Seq<char>|
            #![trigger compiled_regex(pattern)]
            compiled_regex(pattern) == Some(*regex) ==> regex_find(pattern, text@, start as int)
                == match r {
                Some(Some(m)) => Some(Some((m.0 as int, m.1 as int))),
                Some(None) => Some(None),
                None => None,
            },
        compiled_regex(TOKEN_PATTERN@) == Some(*regex) ==> match r {
            Some(Some(m)) => {
                &&& m.0 == start
                &&& start < m.1 <= encode_utf8(text@).len()
                &&& is_char_boundary(encode_utf8(text@), m.1 as int)
            },
            Some(None) => start == encode_utf8(text@).len(),
            None => true,
        },
{
    match regex.find_from_pos(text, start) {
        Ok(Some(m)) => Some(Some((m.start(), m.end()))),
        Ok(None) => Some(None),
        Err(_) => None,
    }
}

/// The regex of [`TOKEN_PATTERN`], or `None` if the pattern does not compile.
pub fn build_pattern() -> (r: Option<Regex>)
    ensures
        r == compiled_regex(TOKEN_PATTERN@),
{
    compile_regex(TOKEN_PATTERN)
}

/// The pieces of the rest of a text: one match of
/// [`TOKEN_PATTERN`] after the other, by byte offsets. `None` if a search ends
/// in an error, or finds a match that leaves the scan where it is.
pub open spec fn scan(text: Seq<char>, start: int) -> Option<Seq<(int, int)>>
    decreases encode_utf8(text).len() - start,
{
    match regex_find(TOKEN_PATTERN@, text, start) {
        None => None,
        Some(None) => Some(Seq::empty()),
        Some(Some(m)) => if start < m.1 <= encode_utf8(text).len() {
            match scan(text, m.1) {
                None => None,
                Some(rest) => Some(seq![m] + rest),
            }
        } else {
            None
        },
    }
}

/// The spans as pairs of integers.
pub open spec fn span_views(spans: Seq<(usize, usize)>) -> Seq<(int, int)> {
    Seq::new(spans.len(), |i: int| (spans[i].0 as int, spans[i].1 as int))
}

/// Whether the spans follow one another without a gap, from `start` to `end`.
pub open spec fn tiles(spans: Seq<(usize, usize)>, start: int, end: int) -> bool
    decreases spans.len(),
{
    if spans.len() == 0 {
        start == end
    } else {
        &&& spans.last().1 == end
        &&& spans.last().0 < end
        &&& tiles(spans.drop_last(), start, spans.last().0 as int)
    }
}

/// Spans that tile a range lie within it.
pub proof fn lemma_tiles_within(spans: Seq<(usize, usize)>, start: int, end: int)
    requires
        tiles(spans, start, end),
    ensures
        start <= end,
        forall|i: int|
            0 <= i < spans.len() ==> start <= (#[trigger] spans[i]).0 < spans[i].1 <= end,
    decreases spans.len(),
{
    if spans.len() > 0 {
        lemma_tiles_within(spans.drop_last(), start, spans.last().0 as int);
        assert forall|i: int| 0 <= i < spans.len() implies start <= (#[trigger] spans[i]).0
            < spans[i].1 <= end by {
            if i < spans.len() - 1 {
                assert(spans[i] == spans.drop_last()[i]);
            }
        }
    }
}

/// Splits a text into pieces, by byte offsets: matches of [`TOKEN_PATTERN`]
/// that tile the text. `None` if the regex engine gives up on it.
pub fn pre_tokenize(regex: &Regex, text: &str) -> (r: Option<Vec<(usize, usize)>>)
    requires
        compiled_regex(TOKEN_PATTERN@) == Some(*regex),
    ensures
        match r {
            Some(spans) => {
                &&& scan(text@, 0) == Some(span_views(spans@))
                &&& tiles(spans@, 0, encode_utf8(text@).len() as int)
            },
            None => scan(text@, 0) is None,
        },
{
    broadcast use vstd::utf8::is_char_boundary_start_end_of_seq;

    let mut spans: Vec<(usize, usize)> = Vec::new();
    let mut start: usize = 0;
    let ghost len = encode_utf8(text@).len() as int;
    assert(is_char_boundary(encode_utf8(text@), 0)) by {
        vstd::utf8::encode_utf8_valid_utf8(text@);
    }
    assert(scan(text@, 0) == joined(span_views(spans@), scan(text@, 0))) by {
        if scan(text@, 0) is Some {
            assert(span_views(spans@) + scan(text@, 0)->0 == scan(text@, 0)->0);
        }
    }
    loop
        invariant
            compiled_regex(TOKEN_PATTERN@) == Some(*regex),
            len == encode_utf8(text@).len(),
            start <= len,
            is_char_boundary(encode_utf8(text@), start as int),
            tiles(spans@, 0, start as int),
            scan(text@, 0) == joined(span_views(spans@), scan(text@, start as int)),
        decreases len - start,
    {
        match find_from_pos(regex, text, start) {
            None => {
                return None;
            },
            Some(None) => {
                assert(span_views(spans@) + Seq::<(int, int)>::empty() == span_views(spans@));
                return Some(spans);
            },
            Some(Some(m)) => {
                let ghost before = spans@;
                spans.push(m);
                proof {
                    assert(spans@.drop_last() == before);
                    let view = (m.0 as int, m.1 as int);
                    assert(span_views(spans@) == span_views(before).push(view));
                    let rest = scan(text@, m.1 as int);
                    if rest is Some {
                        assert(span_views(before) + (seq![view] + rest->0) == span_views(spans@)
                            + rest->0);
                    }
                }
                start = m.1;
            },
        }
    }
}

/// What was found so far, followed by the rest.
spec fn joined(done: Seq<(int, int)>, rest: Option<Seq<(int, int)>>) -> Option<Seq<(int, int)>> {
    match rest {
        Some(more) => Some(done + more),
        None => None,
    }
}

// ---------------------------------------------------------------------------
// The table of learned tokens
// ---------------------------------------------------------------------------

/// The bytes of every token but the specials: the 256 single bytes, then the
/// learned merges.
pub struct Vocab {
    entries: Vec<Vec<u8>>,
}

impl Vocab {
    /// The table begins with the single bytes.
    pub open spec fn wf(self) -> bool {
        has_single_bytes(self@)
    }

    /// The bytes of each token.
    pub closed spec fn view(self) -> Seq<Seq<u8>> {
        views(self.entries@)
    }

    /// The single bytes, with no merge yet.
    pub fn new() -> (r: Vocab)
        ensures
            r@.len() == 256,
            r.wf(),
    {
        let mut entries: Vec<Vec<u8>> = Vec::new();
        let mut b: u16 = 0;
        while b < 256
            invariant
                b <= 256,
                entries@.len() == b,
                forall|i: int| 0 <= i < b ==> #[trigger] views(entries@)[i] == seq![i as u8],
            decreases 256 - b,
        {
            let ghost before = entries@;
            let mut one: Vec<u8> = Vec::new();
            one.push(b as u8);
            entries.push(one);
            assert forall|i: int| 0 <= i < b + 1 implies #[trigger] views(entries@)[i]
                == seq![i as u8] by {
                if i < b {
                    assert(views(before)[i] == seq![i as u8]);
                }
            }
            b += 1;
        }
        Vocab { entries }
    }

    /// The vocabulary of these tokens.
    pub fn from_table(table: Vec<Vec<u8>>) -> (r: Vocab)
        ensures
            r@ == views(table@),
    {
        Vocab { entries: table }
    }

    /// The bytes of all tokens.
    pub fn table(&self) -> (t: &Vec<Vec<u8>>)
        ensures
            views(t@) == self@,
    {
        &self.entries
    }

    /// The number of tokens.
    pub fn len(&self) -> (n: usize)
        ensures
            n == self@.len(),
    {
        self.entries.len()
    }

    /// The bytes of a token.
    pub fn bytes_of(&self, id: TokenId) -> (b: &[u8])
        requires
            id < self@.len(),
        ensures
            b@ == self@[id as int],
    {
        self.entries[id as usize].as_slice()
    }

    /// Appends a learned merge, and returns its id.
    pub fn push_merge(&mut self, bytes: Vec<u8>) -> (id: TokenId)
        requires
            old(self)@.len() <= u32::MAX,
        ensures
            id == old(self)@.len(),
            final(self)@ == old(self)@.push(bytes@),
            old(self).wf() ==> final(self).wf(),
    {
        let ghost before = self.entries@;
        let id: TokenId = self.entries.len() as TokenId;
        let ghost all = views(before);
        self.entries.push(bytes);
        assert(views(self.entries@) == all.push(bytes@));
        id
    }
}

} // verus!
