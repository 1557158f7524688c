//! What encoding and reading a vocabulary come to.
use vstd::prelude::*;
use vstd::utf8::encode_utf8;

use super::bpe::{
    ascending_ranks, bad_line, base64_decoded, line_entry, line_ranks, misplaced, not_single,
    span_tokens, vocab_fault, vocab_table, BpeTokenizer, VocabFault,
};
use super::merge::piece_tokens;
use super::shared::{regex_find, scan, special_name, TOKEN_PATTERN};
use crate::order::{lemma_sorted_order, sorted_order};
use crate::seqs::concat;
use crate::text::{index_from, lemma_index_from, lines, unsigned_value};

verus! {

// ---------------------------------------------------------------------------
// Pieces
// ---------------------------------------------------------------------------

/// Whether `spans` are the matches of the piece pattern in a text from `start` on:
/// each is what is found from the end of the one before it, and behind the last
/// there is nothing.
pub open spec fn are_matches(text: Seq<char>, spans: Seq<(int, int)>, start: int) -> bool {
    &&& forall|i: int|
        0 <= i < spans.len() ==> regex_find(
            TOKEN_PATTERN@,
            text,
            if i == 0 {
                start
            } else {
                spans[i - 1].1
            },
        ) == Some(Some(#[trigger] spans[i]))
    &&& regex_find(
        TOKEN_PATTERN@,
        text,
        if spans.len() == 0 {
            start
        } else {
            spans.last().1
        },
    ) == Some(None::<(int, int)>)
}

proof fn lemma_matches(text: Seq<char>, start: int)
    requires
        scan(text, start) is Some,
    ensures
        are_matches(text, scan(text, start)->0, start),
    decreases encode_utf8(text).len() - start,
{
    let spans = scan(text, start)->0;
    match regex_find(TOKEN_PATTERN@, text, start) {
        Some(Some(m)) => {
            lemma_matches(text, m.1);
            let rest = scan(text, m.1)->0;
            assert(spans == seq![m] + rest);
            assert forall|i: int| 0 <= i < spans.len() implies regex_find(
                TOKEN_PATTERN@,
                text,
                if i == 0 {
                    start
                } else {
                    spans[i - 1].1
                },
            ) == Some(Some(#[trigger] spans[i])) by {
                if i > 0 {
                    assert(rest[i - 1] == spans[i]);
                    if i > 1 {
                        assert(rest[i - 2] == spans[i - 1]);
                    }
                }
            }
            if rest.len() > 0 {
                assert(spans.last() == rest.last());
            }
        },
        _ => {},
    }
}

proof fn lemma_span_tokens_concat(
    entries: Seq<Seq<u8>>,
    text: Seq<u8>,
    spans: Seq<(int, int)>,
)
    ensures
        span_tokens(entries, text, spans) == concat(
            Seq::new(
                spans.len(),
                |i: int| piece_tokens(entries, text.subrange(spans[i].0, spans[i].1)),
            ),
        ),
    decreases spans.len(),
{
    let f = |spans: Seq<(int, int)>|
        Seq::new(
            spans.len(),
            |i: int| piece_tokens(entries, text.subrange(spans[i].0, spans[i].1)),
        );
    if spans.len() > 0 {
        lemma_span_tokens_concat(entries, text, spans.drop_last());
        assert(f(spans).drop_last() =~= f(spans.drop_last()));
    }
}

/// A text is encoded piece by piece: its pieces are the matches of the pattern, one
/// behind the other, and its ids are the ids of each piece by itself, in order.
pub proof fn texts_are_encoded_piece_by_piece(tok: BpeTokenizer, text: Seq<char>) -> (spans: Seq<
    (int, int),
>)
    requires
        BpeTokenizer::can_split(text),
    ensures
        are_matches(text, spans, 0),
        tok.text_ids(text) == concat(
            Seq::new(
                spans.len(),
                |i: int|
                    piece_tokens(tok.entries(), encode_utf8(text).subrange(spans[i].0, spans[i].1)),
            ),
        ),
{
    let spans = scan(text, 0)->0;
    lemma_matches(text, 0);
    lemma_span_tokens_concat(tok.entries(), encode_utf8(text), spans);
    spans
}

/// An id stands for the bytes of its entry, or for the name of its special token;
/// and a single id decodes to what it stands for.
pub proof fn ids_stand_for_their_tokens(tok: BpeTokenizer, id: u32)
    requires
        id < tok.size(),
    ensures
        id < tok.entries().len() ==> tok.ids_bytes(seq![id]) == tok.entries()[id as int],
        id >= tok.entries().len() ==> tok.ids_bytes(seq![id]) == encode_utf8(
            special_name(id - tok.entries().len()),
        ),
        tok.size() == tok.entries().len() + 9,
        tok.ids_bytes(Seq::empty()) =~= Seq::<u8>::empty(),
{
    let one = Seq::new(1, |i: int| tok.id_bytes(seq![id][i]));
    assert(one.drop_last() =~= Seq::empty());
    assert(concat(one.drop_last()) =~= Seq::<u8>::empty());
    assert(Seq::new(seq![id].len(), |i: int| tok.id_bytes(seq![id][i])) =~= one);
    assert(tok.ids_bytes(seq![id]) =~= tok.id_bytes(id));
}

// ---------------------------------------------------------------------------
// Vocabularies
// ---------------------------------------------------------------------------

/// Whether a line gives a rank and the bytes of a token: base64 up to the first
/// space, and a number behind it.
pub open spec fn line_gives(line: Seq<char>, rank: int, bytes: Seq<u8>) -> bool {
    exists|k: int|
        0 <= k < line.len() && #[trigger] line[k] == ' ' && (forall|j: int|
            0 <= j < k ==> line[j] != ' ') && base64_decoded(line.take(k)) == Ok::<
            Seq<u8>,
            Seq<char>,
        >(bytes) && unsigned_value(line.skip(k + 1), u32::MAX as nat) == Some(rank as nat) && rank
            >= 0
}

/// Whether a line gives a token with a rank.
pub open spec fn gives_rank(line: Seq<char>, rank: int) -> bool {
    exists|bytes: Seq<u8>| line_gives(line, rank, bytes)
}

/// Whether a line gives a token.
pub open spec fn gives_token(line: Seq<char>) -> bool {
    exists|rank: int| gives_rank(line, rank)
}

proof fn lemma_line_gives(line: Seq<char>)
    ensures
        match line_entry(line) {
            Ok(e) => {
                &&& line_gives(line, e.0 as int, e.1)
                &&& gives_rank(line, e.0 as int)
                &&& gives_token(line)
            },
            Err(_) => !gives_token(line),
        },
{
    lemma_index_from(line, ' ', 0);
    let k = index_from(line, ' ', 0);
    if line_entry(line) is Ok {
        let e = line_entry(line)->Ok_0;
        assert(line[k] == ' ');
        assert(line_gives(line, e.0 as int, e.1));
        assert(gives_rank(line, e.0 as int));
    } else {
        assert forall|rank: int| !gives_rank(line, rank) by {
            if gives_rank(line, rank) {
                let bytes = choose|bytes: Seq<u8>| line_gives(line, rank, bytes);
                let m = choose|m: int|
                    0 <= m < line.len() && #[trigger] line[m] == ' ' && (forall|j: int|
                        0 <= j < m ==> line[j] != ' ') && base64_decoded(line.take(m)) == Ok::<
                        Seq<u8>,
                        Seq<char>,
                    >(bytes) && unsigned_value(line.skip(m + 1), u32::MAX as nat) == Some(
                        rank as nat,
                    ) && rank >= 0;
                assert(m == k);
            }
        }
    }
}

proof fn lemma_bad_line(all: Seq<Seq<char>>, from: int)
    requires
        0 <= from,
    ensures
        match bad_line(all, from) {
            Some(i) => {
                &&& from <= i < all.len()
                &&& line_entry(all[i]) is Err
                &&& forall|k: int| from <= k < i ==> line_entry(#[trigger] all[k]) is Ok
            },
            None => forall|k: int| from <= k < all.len() ==> line_entry(#[trigger] all[k]) is Ok,
        },
    decreases all.len() - from,
{
    if from < all.len() && line_entry(all[from]) is Ok {
        lemma_bad_line(all, from + 1);
    }
}

proof fn lemma_misplaced(ranks: Seq<u32>, from: int)
    requires
        0 <= from,
    ensures
        match misplaced(ranks, from) {
            Some(i) => {
                &&& from <= i < ranks.len()
                &&& ranks[i] != i
                &&& forall|k: int| from <= k < i ==> #[trigger] ranks[k] == k
            },
            None => forall|k: int| from <= k < ranks.len() ==> #[trigger] ranks[k] == k,
        },
    decreases ranks.len() - from,
{
    if from < ranks.len() && ranks[from] == from {
        lemma_misplaced(ranks, from + 1);
    }
}

proof fn lemma_not_single(table: Seq<Seq<u8>>, from: int)
    requires
        0 <= from <= 256,
    ensures
        match not_single(table, from) {
            Some(i) => from <= i < 256 && table[i] != seq![i as u8],
            None => forall|k: int| from <= k < 256 ==> #[trigger] table[k] == seq![k as u8],
        },
    decreases 256 - from,
{
    if from < 256 && table[from] == seq![from as u8] {
        lemma_not_single(table, from + 1);
    }
}

/// Whether one of the lines gives a token with a rank.
pub open spec fn some_line_gives(all: Seq<Seq<char>>, rank: int) -> bool {
    exists|i: int| 0 <= i < all.len() && gives_rank(#[trigger] all[i], rank)
}

proof fn lemma_rank_is_id(contents: Seq<char>, i: int)
    requires
        vocab_fault(contents) is None,
        lines(contents).len() <= usize::MAX,
        0 <= i < lines(contents).len(),
    ensures
        ({
            let e = line_entry(lines(contents)[i])->Ok_0;
            &&& line_entry(lines(contents)[i]) is Ok
            &&& e.0 < vocab_table(contents).len()
            &&& vocab_table(contents)[e.0 as int] == e.1
        }),
{
    let all = lines(contents);
    let ranks = line_ranks(all);
    let order = sorted_order(ranks);
    lemma_sorted_order(ranks);
    lemma_bad_line(all, 0);
    lemma_misplaced(ascending_ranks(ranks), 0);
    assert(order.contains(i as usize));
    let p = choose|p: int| 0 <= p < order.len() && order[p] == i as usize;
    assert(ascending_ranks(ranks)[p] == p);
}

/// A vocabulary without a fault gives every token its rank as its id: every line
/// gives a token, whose bytes stand in the table at its rank.
pub proof fn ranks_are_ids(contents: Seq<char>, i: int, rank: int, bytes: Seq<u8>)
    requires
        vocab_fault(contents) is None,
        lines(contents).len() <= usize::MAX,
        0 <= i < lines(contents).len(),
    ensures
        gives_token(lines(contents)[i]),
        line_gives(lines(contents)[i], rank, bytes) ==> 0 <= rank < vocab_table(contents).len()
            && vocab_table(contents)[rank] == bytes,
{
    let line = lines(contents)[i];
    lemma_rank_is_id(contents, i);
    lemma_line_gives(line);
    if line_gives(line, rank, bytes) {
        lemma_gives_once(line);
        assert(gives_rank(line, rank));
        lemma_index_from(line, ' ', 0);
        let m = choose|m: int|
            0 <= m < line.len() && #[trigger] line[m] == ' ' && (forall|j: int|
                0 <= j < m ==> line[j] != ' ') && base64_decoded(line.take(m)) == Ok::<
                Seq<u8>,
                Seq<char>,
            >(bytes) && unsigned_value(line.skip(m + 1), u32::MAX as nat) == Some(rank as nat)
                && rank >= 0;
        assert(m == index_from(line, ' ', 0));
    }
}

/// The table of a vocabulary without a fault has a token for each line, each id is
/// the rank of a line, and the first 256 tokens are the single bytes.
pub proof fn tables_are_complete(contents: Seq<char>, id: int)
    requires
        vocab_fault(contents) is None,
        lines(contents).len() <= usize::MAX,
        0 <= id < vocab_table(contents).len(),
    ensures
        vocab_table(contents).len() == lines(contents).len(),
        vocab_table(contents).len() >= 256,
        some_line_gives(lines(contents), id),
        id < 256 ==> vocab_table(contents)[id] == seq![id as u8],
{
    let all = lines(contents);
    let ranks = line_ranks(all);
    let order = sorted_order(ranks);
    lemma_sorted_order(ranks);
    lemma_bad_line(all, 0);
    lemma_misplaced(ascending_ranks(ranks), 0);
    lemma_not_single(vocab_table(contents), 0);
    let i = order[id] as int;
    assert(ascending_ranks(ranks)[id] == id);
    assert(line_entry(all[i]) is Ok);
    lemma_line_gives(all[i]);
    assert(gives_rank(all[i], id));
}

/// A vocabulary is refused only for cause: a line that gives no token, where all
/// lines before it do; a rank that no line has, or that two have; too few lines; or
/// a single byte that is not the token of its rank.
pub proof fn refused_vocabularies_are_broken(contents: Seq<char>)
    requires
        lines(contents).len() <= usize::MAX,
    ensures
        match vocab_fault(contents) {
            None => true,
            Some(VocabFault::Line(number, _, _)) => {
                &&& 1 <= number <= lines(contents).len()
                &&& !gives_token(lines(contents)[number - 1])
                &&& forall|k: int|
                    0 <= k < number - 1 ==> gives_token(#[trigger] lines(contents)[k])
            },
            Some(VocabFault::NotContiguous(place, rank)) => {
                &&& 0 <= place < lines(contents).len()
                &&& rank > place ==> forall|i: int|
                    0 <= i < lines(contents).len() ==> !gives_rank(
                        #[trigger] lines(contents)[i],
                        place,
                    )
                &&& rank <= place ==> exists|i: int, j: int|
                    0 <= i < lines(contents).len() && 0 <= j < lines(contents).len() && i != j
                        && gives_rank(#[trigger] lines(contents)[i], rank) && gives_rank(
                        #[trigger] lines(contents)[j],
                        rank,
                    )
            },
            Some(VocabFault::TooFewEntries(n)) => n == lines(contents).len() && n < 256,
            Some(VocabFault::NotSingleByte(place, bytes)) => {
                &&& 0 <= place < 256
                &&& bytes != seq![place as u8]
                &&& exists|i: int|
                    0 <= i < lines(contents).len() && line_gives(
                        #[trigger] lines(contents)[i],
                        place,
                        bytes,
                    )
            },
        },
{
    let all = lines(contents);
    let ranks = line_ranks(all);
    let order = sorted_order(ranks);
    let sorted = ascending_ranks(ranks);
    let table = vocab_table(contents);
    lemma_sorted_order(ranks);
    lemma_bad_line(all, 0);
    lemma_misplaced(sorted, 0);
    lemma_not_single(table, 0);
    match vocab_fault(contents) {
        None => {},
        Some(VocabFault::Line(number, _, _)) => {
            lemma_line_gives(all[number - 1]);
            assert forall|k: int| 0 <= k < number - 1 implies gives_token(#[trigger] all[k]) by {
                lemma_line_gives(all[k]);
            }
        },
        Some(VocabFault::NotContiguous(place, rank)) => {
            if rank > place {
                assert forall|i: int| 0 <= i < all.len() implies !gives_rank(
                    #[trigger] all[i],
                    place,
                ) by {
                    lemma_gives_once(all[i]);
                    assert(order.contains(i as usize));
                    let p = choose|p: int| 0 <= p < order.len() && order[p] == i as usize;
                    if p < place {
                        assert(sorted[p] == p);
                    } else if p > place {
                        assert(crate::order::goes_before(ranks, order[place] as int, order[p] as int));
                    }
                }
            } else {
                assert(place > 0);
                assert(sorted[place - 1] == place - 1);
                assert(crate::order::goes_before(
                    ranks,
                    order[place - 1] as int,
                    order[place] as int,
                ));
                let (i, j) = (order[place - 1] as int, order[place] as int);
                assert(rank == place - 1);
                lemma_line_gives(all[i]);
                lemma_line_gives(all[j]);
                assert(gives_rank(all[i], rank) && gives_rank(all[j], rank));
                if i == j {
                    assert(crate::order::goes_before(ranks, i, j));
                }
            }
        },
        Some(VocabFault::TooFewEntries(_)) => {},
        Some(VocabFault::NotSingleByte(place, bytes)) => {
            let i = order[place] as int;
            assert(sorted[place] == place);
            lemma_line_gives(all[i]);
            assert(line_gives(all[i], place, bytes));
        },
    }
}

/// A line gives one rank.
proof fn lemma_gives_once(line: Seq<char>)
    ensures
        forall|rank: int| #[trigger]
            gives_rank(line, rank) ==> line_entry(line) is Ok && line_entry(line)->Ok_0.0 == rank,
{
    lemma_index_from(line, ' ', 0);
    assert forall|rank: int| #[trigger] gives_rank(line, rank) implies line_entry(line) is Ok
        && line_entry(line)->Ok_0.0 == rank by {
        let bytes = choose|bytes: Seq<u8>| line_gives(line, rank, bytes);
        let m = choose|m: int|
            0 <= m < line.len() && #[trigger] line[m] == ' ' && (forall|j: int|
                0 <= j < m ==> line[j] != ' ') && base64_decoded(line.take(m)) == Ok::<
                Seq<u8>,
                Seq<char>,
            >(bytes) && unsigned_value(line.skip(m + 1), u32::MAX as nat) == Some(rank as nat)
                && rank >= 0;
        assert(m == index_from(line, ' ', 0));
    }
}

// ---------------------------------------------------------------------------
// Which texts can be encoded
// ---------------------------------------------------------------------------

proof fn lemma_scan_of_matches(text: Seq<char>, spans: Seq<(int, int)>, start: int)
    requires
        are_matches(text, spans, start),
        forall|i: int|
            0 <= i < spans.len() ==> (if i == 0 {
                start
            } else {
                spans[i - 1].1
            }) < (#[trigger] spans[i]).1 <= encode_utf8(text).len(),
    ensures
        scan(text, start) == Some(spans),
    decreases spans.len(),
{
    if spans.len() > 0 {
        let m = spans[0];
        let rest = spans.skip(1);
        assert(regex_find(TOKEN_PATTERN@, text, start) == Some(Some(spans[0])));
        assert forall|i: int| 0 <= i < rest.len() implies regex_find(
            TOKEN_PATTERN@,
            text,
            if i == 0 {
                m.1
            } else {
                rest[i - 1].1
            },
        ) == Some(Some(#[trigger] rest[i])) by {
            assert(rest[i] == spans[i + 1]);
            if i > 0 {
                assert(rest[i - 1] == spans[i]);
            }
        }
        assert forall|i: int| 0 <= i < rest.len() implies (if i == 0 {
            m.1
        } else {
            rest[i - 1].1
        }) < (#[trigger] rest[i]).1 <= encode_utf8(text).len() by {
            assert(rest[i] == spans[i + 1]);
            if i > 0 {
                assert(rest[i - 1] == spans[i]);
            }
        }
        if rest.len() > 0 {
            assert(rest.last() == spans.last());
        }
        lemma_scan_of_matches(text, rest, m.1);
        assert(spans =~= seq![m] + rest);
    } else {
        assert(spans =~= Seq::empty());
    }
}

/// Every text can be encoded on which the engine does not give up: where it finds one
/// match behind the other, each reaching further, up to where there is none.
pub proof fn texts_split_unless_the_engine_gives_up(text: Seq<char>, spans: Seq<(int, int)>)
    requires
        are_matches(text, spans, 0),
        forall|i: int|
            0 <= i < spans.len() ==> (if i == 0 {
                0
            } else {
                spans[i - 1].1
            }) < (#[trigger] spans[i]).1 <= encode_utf8(text).len(),
    ensures
        BpeTokenizer::can_split(text),
{
    lemma_scan_of_matches(text, spans, 0);
}

} // verus!
