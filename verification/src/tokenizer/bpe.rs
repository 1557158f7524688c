//! The byte-pair tokenizer: reading a vocabulary, encoding and decoding.
use base64::engine::general_purpose::STANDARD;
use base64::Engine;
use fancy_regex::Regex;
use vstd::prelude::*;
use vstd::slice::{slice_subrange, slice_to_vec};
use vstd::utf8::{decode_utf8, encode_utf8, valid_utf8};

use super::greedy::no_neighbours_merge_further;
use super::merge::{
    encode_piece, has_single_bytes, lemma_piece_tokens, lemma_token_bytes_add, piece_tokens,
    token_bytes, TokenIndex,
};
use super::shared::{
    build_pattern, compiled_regex, lemma_tiles_within, pre_tokenize, scan, span_views, special_name,
    special_place, special_place_of_name, special_token, tiles, TokenId, Vocab, NUM_SPECIAL_TOKENS,
    TOKEN_PATTERN,
};
use super::stream::{shown, valid_bytes_are_shown_as_they_are};
use crate::order::{sort, sorted_order, sorts};
use crate::seqs::{concat, lemma_concat_add};
use crate::text::{
    chars_of, decimal, digit_char, equals, find_char, index_from, lines, parse_unsigned,
    push_decimal, quote, quoted, split_lines, string_of, unsigned_value, views,
};

verus! {

// ---------------------------------------------------------------------------
// Outside calls
// ---------------------------------------------------------------------------

/// What the standard engine of the `base64` crate decodes a text to, or the
/// text of its error.
pub uninterp spec fn base64_decoded(text: Seq<char>) -> Result<Seq<u8>, Seq<char>>;

/// `base64::Engine::decode` of the engine `STANDARD`: the decoded bytes, or the
/// text of the error. The outcome is a function of the text.
#[verifier::external_body]
fn decode_base64(text: &str) -> (r: Result<Vec<u8>, String>)
    ensures
        match r {
            Ok(bytes) => base64_decoded(text@) == Ok::<Seq<u8>, Seq<char>>(bytes@),
            Err(reason) => base64_decoded(text@) == Err::<Seq<u8>, Seq<char>>(reason@),
        },
{
    STANDARD.decode(text).map_err(|e| e.to_string())
}

/// `String::from_utf8`: the text of valid UTF-8, `None` for anything else.
#[verifier::external_body]
pub(crate) fn string_from_utf8(bytes: Vec<u8>) -> (r: Option<String>)
    ensures
        match r {
            Some(s) => valid_utf8(bytes@) && s@ == decode_utf8(bytes@),
            None => !valid_utf8(bytes@),
        },
{
    String::from_utf8(bytes).ok()
}

/// `String::from_utf8_lossy`: the text of the bytes, with one replacement
/// character in place of each longest stretch that is the start of a character
/// without its rest, and of each byte that no character has there.
#[verifier::external_body]
fn string_from_utf8_lossy(bytes: &[u8]) -> (s: String)
    ensures
        s@ == shown(bytes@),
{
    String::from_utf8_lossy(bytes).into_owned()
}

// ---------------------------------------------------------------------------
// The vocabulary text
// ---------------------------------------------------------------------------

/// What is wrong with one line of a vocabulary.
#[derive(Debug, Clone, Copy, PartialEq, Eq, Structural)]
pub enum LineFault {
    /// There is no space between a token and its rank.
    MissingRank,
    /// The token is not base64.
    BadBase64,
    /// The rank is not a 32-bit number.
    BadRank,
}

/// Why a text is not a vocabulary.
#[derive(Debug, Clone, PartialEq, Eq)]
pub enum VocabError {
    /// A line cannot be read; lines count from one. `detail` is the line, the
    /// decoder's complaint, or the rank, in the order of the faults.
    Line { line_no: usize, fault: LineFault, detail: String },
    /// In ascending order of the ranks, another rank stands at this position.
    NotContiguous { position: usize, rank: u32 },
    /// There are fewer than 256 entries.
    TooFewEntries { count: usize },
    /// One of the first 256 entries is not the single byte of its rank.
    NotSingleByte { place: u8, bytes: Vec<u8> },
    /// The pattern that splits a text was not accepted.
    BadPattern,
}

/// The first thing that is wrong with a vocabulary.
pub enum VocabFault {
    Line(int, LineFault, Seq<char>),
    NotContiguous(int, int),
    TooFewEntries(int),
    NotSingleByte(int, Seq<u8>),
}

/// The rank and the bytes that a line gives.
pub open spec fn line_entry(line: Seq<char>) -> Result<(u32, Seq<u8>), LineFault> {
    let k = index_from(line, ' ', 0);
    if k >= line.len() {
        Err(LineFault::MissingRank)
    } else {
        match base64_decoded(line.take(k)) {
            Err(_) => Err(LineFault::BadBase64),
            Ok(bytes) => match unsigned_value(line.skip(k + 1), u32::MAX as nat) {
                None => Err(LineFault::BadRank),
                Some(rank) => Ok((rank as u32, bytes)),
            },
        }
    }
}

/// What is said of a line that cannot be read: the line, the decoder's
/// complaint, or the rank.
pub open spec fn line_detail(line: Seq<char>) -> Seq<char> {
    let k = index_from(line, ' ', 0);
    if k >= line.len() {
        line
    } else {
        match base64_decoded(line.take(k)) {
            Err(reason) => reason,
            Ok(_) => line.skip(k + 1),
        }
    }
}

/// The first line at or after `from` that cannot be read, if there is one.
pub open spec fn bad_line(all: Seq<Seq<char>>, from: int) -> Option<int>
    decreases all.len() - from,
{
    if from >= all.len() {
        None
    } else if line_entry(all[from]) is Err {
        Some(from)
    } else {
        bad_line(all, from + 1)
    }
}

/// The ranks in the order of the lines.
pub open spec fn line_ranks(all: Seq<Seq<char>>) -> Seq<u32> {
    Seq::new(all.len(), |i: int| line_entry(all[i])->Ok_0.0)
}

/// The ranks in ascending order.
pub open spec fn ascending_ranks(ranks: Seq<u32>) -> Seq<u32> {
    let order = sorted_order(ranks);
    Seq::new(ranks.len(), |i: int| ranks[order[i] as int])
}

/// The first position at or after `from` that does not hold its own number.
pub open spec fn misplaced(ranks: Seq<u32>, from: int) -> Option<int>
    decreases ranks.len() - from,
{
    if from >= ranks.len() {
        None
    } else if ranks[from] != from {
        Some(from)
    } else {
        misplaced(ranks, from + 1)
    }
}

/// The bytes of the tokens in ascending order of their ranks.
pub open spec fn vocab_table(contents: Seq<char>) -> Seq<Seq<u8>> {
    let all = lines(contents);
    let order = sorted_order(line_ranks(all));
    Seq::new(all.len(), |i: int| line_entry(all[order[i] as int])->Ok_0.1)
}

/// The first of the entries from `from` up to 256 that is not its single byte.
pub open spec fn not_single(table: Seq<Seq<u8>>, from: int) -> Option<int>
    decreases 256 - from,
{
    if from >= 256 {
        None
    } else if table[from] != seq![from as u8] {
        Some(from)
    } else {
        not_single(table, from + 1)
    }
}

/// The first thing that is wrong with a vocabulary: a line that cannot be read,
/// a gap or a repeat among the ranks, too few entries, or a single byte that is
/// not in its place.
pub open spec fn vocab_fault(contents: Seq<char>) -> Option<VocabFault> {
    let all = lines(contents);
    match bad_line(all, 0) {
        Some(i) => Some(
            VocabFault::Line(i + 1, line_entry(all[i])->Err_0, line_detail(all[i])),
        ),
        None => {
            let ranks = ascending_ranks(line_ranks(all));
            match misplaced(ranks, 0) {
                Some(i) => Some(VocabFault::NotContiguous(i, ranks[i] as int)),
                None => if all.len() < 256 {
                    Some(VocabFault::TooFewEntries(all.len() as int))
                } else {
                    match not_single(vocab_table(contents), 0) {
                        Some(i) => Some(VocabFault::NotSingleByte(i, vocab_table(contents)[i])),
                        None => None,
                    }
                },
            }
        },
    }
}

impl VocabError {
    /// The fault that an error reports; `None` for the pattern, which is no
    /// fault of the vocabulary.
    pub open spec fn fault(self) -> Option<VocabFault> {
        match self {
            VocabError::Line { line_no, fault, detail } => Some(
                VocabFault::Line(line_no as int, fault, detail@),
            ),
            VocabError::NotContiguous { position, rank } => Some(
                VocabFault::NotContiguous(position as int, rank as int),
            ),
            VocabError::TooFewEntries { count } => Some(VocabFault::TooFewEntries(count as int)),
            VocabError::NotSingleByte { place, bytes } => Some(
                VocabFault::NotSingleByte(place as int, bytes@),
            ),
            VocabError::BadPattern => None,
        }
    }

    /// The error as a sentence. Of a bad rank, what is wrong with it is to
    /// follow.
    pub open spec fn sentence(self) -> Seq<char> {
        match self {
            VocabError::Line { line_no, fault, detail } => "vocab line "@ + decimal(line_no as nat)
                + match fault {
                LineFault::MissingRank => " missing rank: "@ + quoted(detail@),
                LineFault::BadBase64 => " bad base64: "@ + detail@,
                LineFault::BadRank => " bad rank: "@,
            },
            VocabError::NotContiguous { position, rank } => "expected rank "@ + decimal(
                position as nat,
            ) + " at position "@ + decimal(position as nat) + ", got "@ + decimal(rank as nat),
            VocabError::TooFewEntries { count } =>
                "vocab must contain at least 256 single-byte entries, got "@ + decimal(
                count as nat,
            ),
            VocabError::NotSingleByte { place, bytes } => "rank "@ + decimal((place + 1) as nat)
                + " must encode single byte 0x"@ + hex(place as nat) + ", got ["@ + byte_list(
                bytes@,
            ) + "]"@,
            VocabError::BadPattern => "the pattern of the pieces was not accepted"@,
        }
    }

    /// The error as a sentence. Of a bad rank, what is wrong with it is to
    /// follow.
    pub fn message(&self) -> (s: String)
        ensures
            s@ == self.sentence(),
    {
        match self {
            VocabError::Line { line_no, fault, detail } => {
                let mut s = String::from_str("vocab line ");
                push_decimal(&mut s, *line_no as u64);
                match fault {
                    LineFault::MissingRank => {
                        s.append(" missing rank: ");
                        s.append(quote(detail.as_str()).as_str());
                    },
                    LineFault::BadBase64 => {
                        s.append(" bad base64: ");
                        s.append(detail.as_str());
                    },
                    LineFault::BadRank => {
                        s.append(" bad rank: ");
                    },
                }
                assert(s@ =~= self.sentence());
                s
            },
            VocabError::NotContiguous { position, rank } => {
                let mut s = String::from_str("expected rank ");
                push_decimal(&mut s, *position as u64);
                s.append(" at position ");
                push_decimal(&mut s, *position as u64);
                s.append(", got ");
                push_decimal(&mut s, *rank as u64);
                s
            },
            VocabError::TooFewEntries { count } => {
                let mut s = String::from_str(
                    "vocab must contain at least 256 single-byte entries, got ",
                );
                push_decimal(&mut s, *count as u64);
                s
            },
            VocabError::NotSingleByte { place, bytes } => {
                let mut s = String::from_str("rank ");
                push_decimal(&mut s, *place as u64 + 1);
                s.append(" must encode single byte 0x");
                push_hex(&mut s, *place);
                s.append(", got [");
                push_byte_list(&mut s, bytes);
                s.append("]");
                s
            },
            VocabError::BadPattern => String::from_str(
                "the pattern of the pieces was not accepted",
            ),
        }
    }
}

/// A hexadecimal digit.
pub open spec fn hex_digit(d: nat) -> char {
    if d < 10 {
        digit_char(d)
    } else {
        (87 + d) as u8 as char
    }
}

/// The hexadecimal numeral of a byte.
pub open spec fn hex(n: nat) -> Seq<char> {
    if n < 16 {
        seq![hex_digit(n)]
    } else {
        seq![hex_digit(n / 16), hex_digit(n % 16)]
    }
}

fn push_hex_digit(s: &mut String, d: u8)
    requires
        d < 16,
    ensures
        final(s)@ == old(s)@.push(hex_digit(d as nat)),
{
    if d < 10 {
        s.push((48 + d) as char);
    } else {
        s.push((87 + d) as char);
    }
}

fn push_hex(s: &mut String, n: u8)
    ensures
        final(s)@ == old(s)@ + hex(n as nat),
{
    if n >= 16 {
        push_hex_digit(s, n / 16);
    }
    push_hex_digit(s, n % 16);
    assert(s@ =~= old(s)@ + hex(n as nat));
}

/// Bytes as numbers, with commas between them.
pub open spec fn byte_list(bytes: Seq<u8>) -> Seq<char>
    decreases bytes.len(),
{
    if bytes.len() == 0 {
        Seq::empty()
    } else if bytes.len() == 1 {
        decimal(bytes[0] as nat)
    } else {
        byte_list(bytes.drop_last()) + ", "@ + decimal(bytes.last() as nat)
    }
}

fn push_byte_list(s: &mut String, bytes: &Vec<u8>)
    ensures
        final(s)@ == old(s)@ + byte_list(bytes@),
{
    let mut i: usize = 0;
    assert(bytes@.take(0) =~= Seq::empty());
    assert(s@ =~= old(s)@ + byte_list(bytes@.take(0)));
    while i < bytes.len()
        invariant
            i <= bytes@.len(),
            s@ == old(s)@ + byte_list(bytes@.take(i as int)),
        decreases bytes@.len() - i,
    {
        proof {
            assert(bytes@.take(i + 1).drop_last() =~= bytes@.take(i as int));
            assert(bytes@.take(i + 1).last() == bytes@[i as int]);
        }
        if i > 0 {
            s.append(", ");
        }
        push_decimal(s, bytes[i] as u64);
        assert(s@ =~= old(s)@ + byte_list(bytes@.take(i + 1)));
        i += 1;
    }
    assert(bytes@.take(i as int) =~= bytes@);
}

/// Reads one line.
fn parse_line(line: &Vec<char>) -> (r: Result<(u32, Vec<u8>), (LineFault, String)>)
    ensures
        match r {
            Ok(e) => line_entry(line@) == Ok::<(u32, Seq<u8>), LineFault>((e.0, e.1@)),
            Err(e) => {
                &&& line_entry(line@) == Err::<(u32, Seq<u8>), LineFault>(e.0)
                &&& e.1@ == line_detail(line@)
            },
        },
{
    let k: usize = find_char(line.as_slice(), ' ', 0);
    if k == line.len() {
        return Err((LineFault::MissingRank, string_of(line.as_slice())));
    }
    let token = string_of(slice_subrange(line.as_slice(), 0, k));
    assert(token@ == line@.take(k as int));
    match decode_base64(token.as_str()) {
        Err(reason) => Err((LineFault::BadBase64, reason)),
        Ok(bytes) => {
            let rank_text = slice_subrange(line.as_slice(), k + 1, line.len());
            assert(rank_text@ == line@.skip(k + 1));
            match parse_unsigned(rank_text, u32::MAX as u64) {
                None => Err((LineFault::BadRank, string_of(rank_text))),
                Some(rank) => Ok((rank as u32, bytes)),
            }
        },
    }
}

/// The ranks and the bytes of all lines, or the first fault.
fn parse_lines(all: &Vec<Vec<char>>) -> (r: Result<(Vec<u32>, Vec<Vec<u8>>), VocabError>)
    ensures
        match r {
            Ok(e) => {
                &&& bad_line(views(all@), 0) is None
                &&& e.0@ == line_ranks(views(all@))
                &&& e.1@.len() == all@.len()
                &&& forall|i: int|
                    0 <= i < all@.len() ==> (#[trigger] e.1@[i])@ == line_entry(
                        views(all@)[i],
                    )->Ok_0.1
            },
            Err(e) => {
                &&& bad_line(views(all@), 0) is Some
                &&& e.fault() == Some(
                    VocabFault::Line(
                        bad_line(views(all@), 0)->0 + 1,
                        line_entry(views(all@)[bad_line(views(all@), 0)->0])->Err_0,
                        line_detail(views(all@)[bad_line(views(all@), 0)->0]),
                    ),
                )
            },
        },
{
    let ghost texts = views(all@);
    let mut ranks: Vec<u32> = Vec::new();
    let mut rows: Vec<Vec<u8>> = Vec::new();
    let mut i: usize = 0;
    while i < all.len()
        invariant
            i <= all@.len(),
            texts == views(all@),
            bad_line(texts, 0) == bad_line(texts, i as int),
            ranks@.len() == i,
            rows@.len() == i,
            forall|k: int| 0 <= k < i ==> #[trigger] ranks@[k] == line_entry(texts[k])->Ok_0.0,
            forall|k: int|
                0 <= k < i ==> (#[trigger] rows@[k])@ == line_entry(texts[k])->Ok_0.1,
        decreases all@.len() - i,
    {
        let ghost before = rows@;
        match parse_line(&all[i]) {
            Err(e) => {
                return Err(VocabError::Line { line_no: i + 1, fault: e.0, detail: e.1 });
            },
            Ok(e) => {
                ranks.push(e.0);
                rows.push(e.1);
                assert forall|k: int| 0 <= k < i + 1 implies (#[trigger] rows@[k])@ == line_entry(
                    texts[k],
                )->Ok_0.1 by {
                    if k < i {
                        assert(rows@[k] == before[k]);
                    }
                }
            },
        }
        i += 1;
    }
    assert(ranks@ == line_ranks(texts));
    Ok((ranks, rows))
}

/// The rows in ascending order of their ranks, if these are contiguous.
fn arrange(ranks: &Vec<u32>, rows: &Vec<Vec<u8>>) -> (r: Result<Vec<Vec<u8>>, VocabError>)
    requires
        ranks@.len() == rows@.len(),
        ranks@.len() <= u32::MAX,
    ensures
        match r {
            Ok(table) => {
                &&& misplaced(ascending_ranks(ranks@), 0) is None
                &&& sorts(ranks@, sorted_order(ranks@))
                &&& table@.len() == rows@.len()
                &&& forall|i: int|
                    0 <= i < rows@.len() ==> (#[trigger] table@[i])@ == rows@[sorted_order(
                        ranks@,
                    )[i] as int]@
            },
            Err(e) => {
                let sorted = ascending_ranks(ranks@);
                &&& misplaced(sorted, 0) is Some
                &&& e.fault() == Some(
                    VocabFault::NotContiguous(
                        misplaced(sorted, 0)->0,
                        sorted[misplaced(sorted, 0)->0] as int,
                    ),
                )
            },
        },
{
    let order = sort(ranks);
    let ghost sorted = ascending_ranks(ranks@);
    let mut i: usize = 0;
    while i < order.len()
        invariant
            i <= order@.len(),
            order@.len() == ranks@.len(),
            ranks@.len() <= u32::MAX,
            sorts(ranks@, order@),
            order@ == sorted_order(ranks@),
            sorted == ascending_ranks(ranks@),
            misplaced(sorted, 0) == misplaced(sorted, i as int),
        decreases order@.len() - i,
    {
        let rank: u32 = ranks[order[i]];
        assert(sorted[i as int] == rank);
        if rank != i as u32 {
            return Err(VocabError::NotContiguous { position: i, rank });
        }
        i += 1;
    }
    let mut table: Vec<Vec<u8>> = Vec::new();
    let mut i: usize = 0;
    while i < order.len()
        invariant
            i <= order@.len(),
            order@.len() == ranks@.len(),
            ranks@.len() == rows@.len(),
            sorts(ranks@, order@),
            order@ == sorted_order(ranks@),
            table@.len() == i,
            forall|k: int|
                0 <= k < i ==> (#[trigger] table@[k])@ == rows@[sorted_order(
                    ranks@,
                )[k] as int]@,
        decreases order@.len() - i,
    {
        let ghost before = table@;
        table.push(slice_to_vec(rows[order[i]].as_slice()));
        assert forall|k: int| 0 <= k < i + 1 implies (#[trigger] table@[k])@ == rows@[sorted_order(
            ranks@,
        )[k] as int]@ by {
            if k < i {
                assert(table@[k] == before[k]);
            }
        }
        i += 1;
    }
    Ok(table)
}

/// The first of the first 256 entries that is not its single byte.
fn find_not_single(table: &Vec<Vec<u8>>) -> (r: Option<usize>)
    requires
        table@.len() >= 256,
    ensures
        match r {
            Some(i) => i < 256 && not_single(views(table@), 0) == Some(i as int),
            None => not_single(views(table@), 0) is None && has_single_bytes(views(table@)),
        },
{
    let ghost all = views(table@);
    let mut i: usize = 0;
    while i < 256
        invariant
            i <= 256,
            table@.len() >= 256,
            all == views(table@),
            not_single(all, 0) == not_single(all, i as int),
            forall|k: int| 0 <= k < i ==> #[trigger] all[k] == seq![k as u8],
        decreases 256 - i,
    {
        let row = &table[i];
        assert(row@ == all[i as int]);
        if row.len() != 1 {
            return Some(i);
        }
        if row[0] != i as u8 {
            assert(all[i as int][0] != seq![i as u8][0]);
            return Some(i);
        }
        assert(all[i as int] =~= seq![i as u8]);
        i += 1;
    }
    None
}

// ---------------------------------------------------------------------------
// The tokenizer
// ---------------------------------------------------------------------------

/// A byte-pair tokenizer. The ids of the tokens read from the vocabulary come
/// first; the special tokens stand in a block above them.
pub struct BpeTokenizer {
    vocab: Vocab,
    index: TokenIndex,
    pattern: Regex,
}

/// The tokens of the pieces of a text, one piece after the other.
pub open spec fn span_tokens(
    entries: Seq<Seq<u8>>,
    text: Seq<u8>,
    spans: Seq<(int, int)>,
) -> Seq<u32>
    decreases spans.len(),
{
    if spans.len() == 0 {
        Seq::empty()
    } else {
        span_tokens(entries, text, spans.drop_last()) + piece_tokens(
            entries,
            text.subrange(spans.last().0, spans.last().1),
        )
    }
}

impl BpeTokenizer {
    /// The first 256 tokens are the single bytes, every id fits, the lookup
    /// table covers every token, and the regex is that of the piece pattern.
    #[verifier::type_invariant]
    pub closed spec fn wf(self) -> bool {
        &&& has_single_bytes(self.entries())
        &&& self.entries().len() + NUM_SPECIAL_TOKENS <= u32::MAX
        &&& self.index.indexes(self.entries())
        &&& compiled_regex(TOKEN_PATTERN@) == Some(self.pattern)
    }

    /// The bytes of each token but the specials.
    pub closed spec fn entries(self) -> Seq<Seq<u8>> {
        self.vocab@
    }

    /// The id of the first special token.
    pub open spec fn first_special(self) -> int {
        self.entries().len() as int
    }

    /// The number of ids.
    pub open spec fn size(self) -> int {
        self.entries().len() + NUM_SPECIAL_TOKENS
    }

    /// The bytes that an id stands for; a special token stands for its text.
    pub open spec fn id_bytes(self, id: u32) -> Seq<u8> {
        if id < self.first_special() {
            self.entries()[id as int]
        } else {
            encode_utf8(special_name(id - self.first_special()))
        }
    }

    /// The bytes that a sequence of ids stands for.
    pub open spec fn ids_bytes(self, ids: Seq<u32>) -> Seq<u8> {
        concat(Seq::new(ids.len(), |i: int| self.id_bytes(ids[i])))
    }

    /// Whether all ids are ids of this tokenizer.
    pub open spec fn all_in_range(self, ids: Seq<u32>) -> bool {
        forall|i: int| 0 <= i < ids.len() ==> (#[trigger] ids[i]) < self.size()
    }

    /// Whether the regex engine splits `text` into pieces without giving up.
    pub open spec fn can_split(text: Seq<char>) -> bool {
        scan(text, 0) is Some
    }

    /// The ids of a text.
    pub open spec fn text_ids(self, text: Seq<char>) -> Seq<u32> {
        span_tokens(self.entries(), encode_utf8(text), scan(text, 0)->0)
    }

    /// Reads a vocabulary: a line for each token, of its bytes in base64, a
    /// space, and its rank.
    pub fn from_vocab(contents: &str) -> (r: Result<BpeTokenizer, VocabError>)
        requires
            lines(contents@).len() + NUM_SPECIAL_TOKENS <= u32::MAX,
        ensures
            match r {
                Ok(tok) => {
                    &&& vocab_fault(contents@) is None
                    &&& compiled_regex(TOKEN_PATTERN@) is Some
                    &&& tok.entries() == vocab_table(contents@)
                    &&& tok.wf()
                },
                Err(VocabError::BadPattern) => {
                    &&& vocab_fault(contents@) is None
                    &&& compiled_regex(TOKEN_PATTERN@) is None
                },
                Err(e) => vocab_fault(contents@) is Some && vocab_fault(contents@) == e.fault(),
            },
    {
        let all = split_lines(chars_of(contents).as_slice());
        assert(views(all@) == lines(contents@));
        let parsed = match parse_lines(&all) {
            Err(e) => {
                return Err(e);
            },
            Ok(parsed) => parsed,
        };
        let ghost ranks = parsed.0@;
        let table = match arrange(&parsed.0, &parsed.1) {
            Err(e) => {
                return Err(e);
            },
            Ok(table) => table,
        };
        if table.len() < 256 {
            return Err(VocabError::TooFewEntries { count: table.len() });
        }
        proof {
            let order = sorted_order(ranks);
            assert(all@.len() == ranks.len());
            assert(views(table@) =~= vocab_table(contents@)) by {
                assert forall|i: int| 0 <= i < table@.len() implies views(table@)[i]
                    == vocab_table(contents@)[i] by {
                    assert(table@[i]@ == parsed.1@[order[i] as int]@);
                }
            }
        }
        if let Some(i) = find_not_single(&table) {
            return Err(
                VocabError::NotSingleByte {
                    place: i as u8,
                    bytes: slice_to_vec(table[i].as_slice()),
                },
            );
        }
        let index = TokenIndex::build(&table);
        match build_pattern() {
            None => Err(VocabError::BadPattern),
            Some(pattern) => Ok(BpeTokenizer { vocab: Vocab::from_table(table), index, pattern }),
        }
    }

    /// The id of the token that begins a document.
    pub fn bos_id(&self) -> (id: TokenId)
        ensures
            id == self.first_special(),
            id < self.size(),
    {
        proof {
            use_type_invariant(self);
        }
        self.vocab.len() as TokenId
    }

    /// The id of the special token that is named `name`, if there is one.
    pub fn special_id(&self, name: &str) -> (r: Option<TokenId>)
        ensures
            match r {
                Some(id) => special_place(name@) == Some(id - self.first_special()),
                None => special_place(name@) is None,
            },
    {
        proof {
            use_type_invariant(self);
        }
        let first: TokenId = self.bos_id();
        let mut i: usize = 0;
        while i < NUM_SPECIAL_TOKENS
            invariant
                i <= NUM_SPECIAL_TOKENS,
                first == self.first_special(),
                first + NUM_SPECIAL_TOKENS <= u32::MAX,
                forall|k: int| 0 <= k < i ==> #[trigger] special_name(k) != name@,
            decreases NUM_SPECIAL_TOKENS - i,
        {
            if equals(special_token(i), name) {
                proof {
                    special_place_of_name(i as int);
                }
                return Some(first + i as TokenId);
            }
            i += 1;
        }
        None
    }

    /// The number of ids: the single bytes, the learned merges and the special
    /// tokens.
    pub fn vocab_size(&self) -> (n: usize)
        ensures
            n == self.size(),
    {
        proof {
            use_type_invariant(self);
        }
        self.vocab.len() + NUM_SPECIAL_TOKENS
    }

    /// The number of bytes of each token, with 0 for the special tokens.
    pub fn token_byte_lengths(&self) -> (lengths: Vec<u32>)
        ensures
            lengths@.len() == self.size(),
            forall|i: int|
                0 <= i < self.size() ==> #[trigger] lengths@[i] == if i < self.first_special() {
                    self.entries()[i].len() as u32
                } else {
                    0
                },
    {
        proof {
            use_type_invariant(self);
        }
        let mut lengths: Vec<u32> = Vec::new();
        let n: usize = self.vocab_size();
        let first: usize = self.vocab.len();
        let mut id: usize = 0;
        while id < n
            invariant
                id <= n,
                n == self.size(),
                first == self.first_special(),
                n <= u32::MAX,
                lengths@.len() == id,
                forall|i: int|
                    0 <= i < id ==> #[trigger] lengths@[i] == if i < self.first_special() {
                        self.entries()[i].len() as u32
                    } else {
                        0
                    },
            decreases n - id,
        {
            if id < first {
                let bytes = self.vocab.bytes_of(id as TokenId);
                lengths.push(bytes.len() as u32);
            } else {
                lengths.push(0);
            }
            id += 1;
        }
        lengths
    }

    /// The bytes that an id stands for.
    pub fn bytes_of(&self, id: TokenId) -> (b: &[u8])
        requires
            id < self.size(),
        ensures
            b@ == self.id_bytes(id),
    {
        proof {
            use_type_invariant(self);
        }
        let first: TokenId = self.bos_id();
        if id < first {
            self.vocab.bytes_of(id)
        } else {
            special_token((id - first) as usize).as_bytes()
        }
    }

    /// The bytes that a sequence of ids stands for.
    pub fn decode_bytes(&self, ids: &[TokenId]) -> (out: Vec<u8>)
        requires
            self.all_in_range(ids@),
        ensures
            out@ == self.ids_bytes(ids@),
    {
        let mut out: Vec<u8> = Vec::new();
        let mut i: usize = 0;
        let ghost rows = Seq::new(ids@.len(), |k: int| self.id_bytes(ids@[k]));
        assert(rows.take(0) == Seq::<Seq<u8>>::empty());
        while i < ids.len()
            invariant
                i <= ids@.len(),
                self.all_in_range(ids@),
                rows == Seq::new(ids@.len(), |k: int| self.id_bytes(ids@[k])),
                out@ == concat(rows.take(i as int)),
            decreases ids@.len() - i,
        {
            let bytes = self.bytes_of(ids[i]);
            out.extend_from_slice(bytes);
            proof {
                assert(rows.take(i + 1).drop_last() == rows.take(i as int));
                assert(rows.take(i + 1).last() == bytes@);
                assert(out@ == concat(rows.take(i + 1)));
            }
            i += 1;
        }
        assert(rows.take(i as int) == rows);
        out
    }

    /// The text that a sequence of ids stands for.
    pub fn decode(&self, ids: &[TokenId]) -> (s: String)
        requires
            self.all_in_range(ids@),
            valid_utf8(self.ids_bytes(ids@)),
        ensures
            s@ == decode_utf8(self.ids_bytes(ids@)),
    {
        match string_from_utf8(self.decode_bytes(ids)) {
            Some(s) => s,
            None => {
                assert(false);
                String::new()
            },
        }
    }

    /// The text that a sequence of ids stands for, with the replacement
    /// character in place of what is not valid UTF-8.
    pub fn decode_lossy(&self, ids: &[TokenId]) -> (s: String)
        requires
            self.all_in_range(ids@),
        ensures
            s@ == shown(self.ids_bytes(ids@)),
            valid_utf8(self.ids_bytes(ids@)) ==> s@ == decode_utf8(self.ids_bytes(ids@)),
    {
        proof {
            if valid_utf8(self.ids_bytes(ids@)) {
                valid_bytes_are_shown_as_they_are(self.ids_bytes(ids@));
            }
        }
        string_from_utf8_lossy(self.decode_bytes(ids).as_slice())
    }

    /// Encodes the bytes of one piece: neighbouring parts merge, the pair with
    /// the lowest id first, for as long as a pair is a token. The ids stand for
    /// the piece, and none of them is special.
    pub fn bpe_encode_piece(&self, piece: &[u8]) -> (ids: Vec<TokenId>)
        ensures
            ids@ == piece_tokens(self.entries(), piece@),
            self.ids_bytes(ids@) == piece@,
            forall|i: int| 0 <= i < ids@.len() ==> (#[trigger] ids@[i]) < self.first_special(),
            forall|i: int, e: int|
                0 <= i < ids@.len() - 1 && 0 <= e < self.entries().len()
                    ==> #[trigger] self.entries()[e] != self.entries()[(
                #[trigger] ids@[i]) as int] + self.entries()[ids@[i + 1] as int],
    {
        proof {
            use_type_invariant(self);
            no_neighbours_merge_further(self.entries(), piece@);
            lemma_piece_tokens(self.entries(), piece@);
            self.lemma_plain_bytes(piece_tokens(self.entries(), piece@));
        }
        encode_piece(&self.index, self.vocab.table(), piece)
    }

    /// Encodes the pieces of a text that the spans mark.
    pub fn encode_spans(&self, text: &[u8], spans: &Vec<(usize, usize)>) -> (ids: Vec<TokenId>)
        requires
            forall|i: int|
                0 <= i < spans@.len() ==> (#[trigger] spans@[i]).0 <= spans@[i].1 <= text@.len(),
        ensures
            ids@ == span_tokens(self.entries(), text@, span_views(spans@)),
            forall|i: int| 0 <= i < ids@.len() ==> (#[trigger] ids@[i]) < self.first_special(),
    {
        let mut ids: Vec<TokenId> = Vec::new();
        let mut i: usize = 0;
        let ghost views = span_views(spans@);
        assert(views.take(0) == Seq::<(int, int)>::empty());
        while i < spans.len()
            invariant
                i <= spans@.len(),
                views == span_views(spans@),
                forall|i: int|
                    0 <= i < spans@.len() ==> (#[trigger] spans@[i]).0 <= spans@[i].1
                        <= text@.len(),
                ids@ == span_tokens(self.entries(), text@, views.take(i as int)),
                forall|i: int| 0 <= i < ids@.len() ==> (#[trigger] ids@[i]) < self.first_special(),
            decreases spans@.len() - i,
        {
            let (from, to) = spans[i];
            assert(spans@[i as int].0 <= spans@[i as int].1 <= text@.len());
            let mut more = self.bpe_encode_piece(slice_subrange(text, from, to));
            proof {
                assert(views.take(i + 1).drop_last() == views.take(i as int));
                assert(views.take(i + 1).last() == views[i as int]);
            }
            ids.append(&mut more);
            i += 1;
        }
        assert(views.take(i as int) == views);
        ids
    }

    /// The ids of a text, or `None` if the regex engine gives up on the text.
    pub(crate) fn encode_if_split(&self, text: &str) -> (r: Option<Vec<TokenId>>)
        ensures
            match r {
                Some(ids) => {
                    &&& Self::can_split(text@)
                    &&& ids@ == self.text_ids(text@)
                    &&& self.ids_bytes(ids@) == encode_utf8(text@)
                    &&& forall|i: int|
                        0 <= i < ids@.len() ==> (#[trigger] ids@[i]) < self.first_special()
                },
                None => !Self::can_split(text@),
            },
    {
        proof {
            use_type_invariant(self);
        }
        match pre_tokenize(&self.pattern, text) {
            None => None,
            Some(spans) => {
                let ghost n = encode_utf8(text@).len() as int;
                proof {
                    lemma_tiles_within(spans@, 0, n);
                }
                let ids = self.encode_spans(text.as_bytes(), &spans);
                proof {
                    lemma_span_tokens(self.entries(), encode_utf8(text@), spans@, n);
                    self.lemma_plain_bytes(ids@);
                    assert(encode_utf8(text@).take(n) == encode_utf8(text@));
                }
                Some(ids)
            },
        }
    }

    /// The ids of a text. They stand for the text, and none of them is special.
    pub fn encode(&self, text: &str) -> (ids: Vec<TokenId>)
        requires
            Self::can_split(text@),
        ensures
            ids@ == self.text_ids(text@),
            self.ids_bytes(ids@) == encode_utf8(text@),
            forall|i: int| 0 <= i < ids@.len() ==> (#[trigger] ids@[i]) < self.first_special(),
    {
        match self.encode_if_split(text) {
            Some(ids) => ids,
            None => {
                assert(false);
                Vec::new()
            },
        }
    }

    /// Whether the regex engine splits `text` into pieces without giving up.
    pub fn can_encode(&self, text: &str) -> (r: bool)
        ensures
            r == Self::can_split(text@),
    {
        proof {
            use_type_invariant(self);
        }
        pre_tokenize(&self.pattern, text).is_some()
    }

    /// The ids of a text, or `None` if the regex engine gives up on the text.
    pub fn try_encode(&self, text: &str) -> (r: Option<Vec<TokenId>>)
        ensures
            match r {
                Some(ids) => {
                    &&& Self::can_split(text@)
                    &&& ids@ == self.text_ids(text@)
                    &&& self.ids_bytes(ids@) == encode_utf8(text@)
                    &&& forall|i: int|
                        0 <= i < ids@.len() ==> (#[trigger] ids@[i]) < self.first_special()
                },
                None => !Self::can_split(text@),
            },
    {
        if self.can_encode(text) {
            Some(self.encode(text))
        } else {
            None
        }
    }

    /// Ids below the specials stand for the bytes of their entries.
    proof fn lemma_plain_bytes(self, ids: Seq<u32>)
        requires
            forall|i: int| 0 <= i < ids.len() ==> (#[trigger] ids[i]) < self.first_special(),
        ensures
            self.ids_bytes(ids) == token_bytes(self.entries(), ids),
    {
        assert(Seq::new(ids.len(), |i: int| self.id_bytes(ids[i])) =~= Seq::new(
            ids.len(),
            |i: int| self.entries()[ids[i] as int],
        ));
    }

    /// Decoding undoes encoding: ids that stand for a text decode to it, and so
    /// they do with invalid bytes replaced.
    pub proof fn decoding_undoes_encoding(self, text: Seq<char>, ids: Seq<u32>)
        requires
            self.ids_bytes(ids) == encode_utf8(text),
        ensures
            valid_utf8(self.ids_bytes(ids)),
            decode_utf8(self.ids_bytes(ids)) == text,
            shown(self.ids_bytes(ids)) == text,
    {
        vstd::utf8::encode_utf8_valid_utf8(text);
        vstd::utf8::encode_utf8_decode_utf8(text);
        valid_bytes_are_shown_as_they_are(self.ids_bytes(ids));
    }

    /// Decoding goes id by id: the bytes of two sequences of ids, one after the
    /// other, are their bytes one after the other.
    pub proof fn decoding_splits(self, a: Seq<u32>, b: Seq<u32>)
        ensures
            self.ids_bytes(a + b) == self.ids_bytes(a) + self.ids_bytes(b),
    {
        let f = |ids: Seq<u32>| Seq::new(ids.len(), |i: int| self.id_bytes(ids[i]));
        assert(f(a + b) == f(a) + f(b));
        lemma_concat_add(f(a), f(b));
    }
}

/// The tokens of pieces that tile a text stand for it.
proof fn lemma_span_tokens(
    entries: Seq<Seq<u8>>,
    text: Seq<u8>,
    spans: Seq<(usize, usize)>,
    end: int,
)
    requires
        has_single_bytes(entries),
        entries.len() <= u32::MAX,
        tiles(spans, 0, end),
        0 <= end <= text.len(),
    ensures
        token_bytes(entries, span_tokens(entries, text, span_views(spans))) == text.take(end),
        forall|i: int|
            0 <= i < span_tokens(entries, text, span_views(spans)).len() ==> (#[trigger] span_tokens(
                entries,
                text,
                span_views(spans),
            )[i]) < entries.len(),
    decreases spans.len(),
{
    let ids = span_tokens(entries, text, span_views(spans));
    if spans.len() == 0 {
        assert(text.take(end) == Seq::<u8>::empty());
        assert(token_bytes(entries, ids) == Seq::<u8>::empty());
    } else {
        lemma_tiles_within(spans, 0, end);
        let mid = spans.last().0 as int;
        let before = span_tokens(entries, text, span_views(spans.drop_last()));
        let piece = text.subrange(mid, end);
        assert(span_views(spans).drop_last() == span_views(spans.drop_last()));
        lemma_span_tokens(entries, text, spans.drop_last(), mid);
        lemma_piece_tokens(entries, piece);
        lemma_token_bytes_add(entries, before, piece_tokens(entries, piece));
        assert(text.take(mid) + piece == text.take(end));
        assert(ids == before + piece_tokens(entries, piece));
        assert forall|i: int| 0 <= i < ids.len() implies (#[trigger] ids[i]) < entries.len() by {
            if i < before.len() {
                assert(ids[i] == before[i]);
            } else {
                assert(ids[i] == piece_tokens(entries, piece)[i - before.len()]);
            }
        }
    }
}

} // verus!
