//! What merging comes to: which pair goes first, and where it ends.
use vstd::prelude::*;

use super::merge::{
    fully_merged, is_best_pair, lemma_fully_merged, lemma_single_tokens, lemma_token_of,
    lemma_token_of_last, merge_pair, pair_token, piece_tokens, single_parts, token_of,
};

verus! {

/// Whether `id` is the token with the bytes `key`: the last entry that holds
/// them.
pub open spec fn names_token(entries: Seq<Seq<u8>>, id: int, key: Seq<u8>) -> bool {
    &&& 0 <= id < entries.len()
    &&& entries[id] == key
    &&& forall|e: int| id < e < entries.len() ==> entries[e] != key
}

/// Whether `b` is `a` with the parts `i` and `i + 1` put together, where these
/// make the token with the lowest id that two neighbours make, and are the
/// leftmost that make it.
pub open spec fn merges_lowest(
    entries: Seq<Seq<u8>>,
    a: Seq<Seq<u8>>,
    b: Seq<Seq<u8>>,
    i: int,
) -> bool {
    &&& 0 <= i < a.len() - 1
    &&& b.len() == a.len() - 1
    &&& forall|k: int| 0 <= k < i ==> b[k] == a[k]
    &&& b[i] == a[i] + a[i + 1]
    &&& forall|k: int| i < k < b.len() ==> b[k] == a[k + 1]
    &&& exists|id: int|
        #[trigger] names_token(entries, id, a[i] + a[i + 1]) && forall|j: int, other: int|
            0 <= j < a.len() - 1 && #[trigger] names_token(entries, other, a[j] + a[j + 1])
                ==> id < other || (id == other && i <= j)
}

/// Whether `b` is `a` with one pair merged.
pub open spec fn is_merge(entries: Seq<Seq<u8>>, a: Seq<Seq<u8>>, b: Seq<Seq<u8>>) -> bool {
    exists|i: int| merges_lowest(entries, a, b, i)
}

/// Whether `steps` leads from the single bytes of a piece to parts of which no
/// two neighbours make a token, by merging one pair at a time.
pub open spec fn merges_all(
    entries: Seq<Seq<u8>>,
    piece: Seq<u8>,
    steps: Seq<Seq<Seq<u8>>>,
) -> bool {
    &&& steps.len() > 0
    &&& steps[0].len() == piece.len()
    &&& forall|k: int| 0 <= k < piece.len() ==> (#[trigger] steps[0][k]) == seq![piece[k]]
    &&& forall|s: int|
        0 <= s < steps.len() - 1 ==> is_merge(entries, #[trigger] steps[s], steps[s + 1])
    &&& forall|i: int, e: int|
        0 <= i < steps.last().len() - 1 && 0 <= e < entries.len() ==> #[trigger] entries[e]
            != #[trigger] steps.last()[i] + steps.last()[i + 1]
}

proof fn lemma_names_token(entries: Seq<Seq<u8>>, key: Seq<u8>)
    ensures
        forall|id: int| #[trigger]
            names_token(entries, id, key) <==> token_of(entries, key) == Some(id),
{
    lemma_token_of(entries, key);
    assert forall|id: int| #[trigger] names_token(entries, id, key) <==> token_of(entries, key)
        == Some(id) by {
        if names_token(entries, id, key) {
            lemma_token_of_last(entries, key, id);
        }
    }
}

/// The steps from parts to where merging ends.
proof fn lemma_merge_steps(entries: Seq<Seq<u8>>, parts: Seq<Seq<u8>>) -> (steps: Seq<
    Seq<Seq<u8>>,
>)
    ensures
        steps.len() > 0,
        steps[0] == parts,
        steps.last() == fully_merged(entries, parts),
        forall|s: int|
            0 <= s < steps.len() - 1 ==> is_merge(entries, #[trigger] steps[s], steps[s + 1]),
        forall|i: int| !is_best_pair(entries, steps.last(), i),
    decreases parts.len(),
{
    if exists|i: int| is_best_pair(entries, parts, i) {
        let i = choose|i: int| is_best_pair(entries, parts, i);
        let next = merge_pair(parts, i);
        let rest = lemma_merge_steps(entries, next);
        let steps = seq![parts] + rest;
        let id = pair_token(entries, parts, i)->0;
        lemma_names_token(entries, parts[i] + parts[i + 1]);
        assert(names_token(entries, id, parts[i] + parts[i + 1]));
        assert forall|j: int, other: int|
            0 <= j < parts.len() - 1 && #[trigger] names_token(
                entries,
                other,
                parts[j] + parts[j + 1],
            ) implies id < other || (id == other && i <= j) by {
            lemma_names_token(entries, parts[j] + parts[j + 1]);
            assert(pair_token(entries, parts, j) == Some(other));
        }
        assert(merges_lowest(entries, parts, next, i));
        assert forall|s: int| 0 <= s < steps.len() - 1 implies is_merge(
            entries,
            #[trigger] steps[s],
            steps[s + 1],
        ) by {
            if s > 0 {
                assert(is_merge(entries, rest[s - 1], rest[s - 1 + 1]));
            }
        }
        assert(steps.last() == rest.last());
        steps
    } else {
        seq![parts]
    }
}

/// Some pair is the best where two neighbours make a token.
proof fn lemma_best_exists(entries: Seq<Seq<u8>>, parts: Seq<Seq<u8>>, n: int) -> (best: int)
    requires
        0 <= n < parts.len(),
        exists|j: int| 0 <= j < n && (#[trigger] pair_token(entries, parts, j)) is Some,
    ensures
        0 <= best < n,
        pair_token(entries, parts, best) is Some,
        forall|j: int|
            0 <= j < n && (#[trigger] pair_token(entries, parts, j)) is Some ==> {
                let a = pair_token(entries, parts, best)->0;
                let b = pair_token(entries, parts, j)->0;
                a < b || (a == b && best <= j)
            },
    decreases n,
{
    if exists|j: int| 0 <= j < n - 1 && (#[trigger] pair_token(entries, parts, j)) is Some {
        let k = lemma_best_exists(entries, parts, n - 1);
        if pair_token(entries, parts, n - 1) is Some && pair_token(entries, parts, n - 1)->0
            < pair_token(entries, parts, k)->0 {
            n - 1
        } else {
            k
        }
    } else {
        n - 1
    }
}

/// A piece is merged pair by pair, the lowest token first and the leftmost of
/// equals, from its single bytes until no two neighbours make a token; and its ids
/// are the tokens of the parts that are then left. One byte is its own token.
pub proof fn pieces_merge_lowest_pair_first(entries: Seq<Seq<u8>>, piece: Seq<u8>) -> (steps: Seq<
    Seq<Seq<u8>>,
>)
    requires
        entries.len() >= 256,
        forall|i: int| 0 <= i < 256 ==> #[trigger] entries[i] == seq![i as u8],
        entries.len() <= u32::MAX,
    ensures
        piece.len() == 1 ==> piece_tokens(entries, piece) == seq![piece[0] as u32],
        piece.len() != 1 ==> {
            let ids = piece_tokens(entries, piece);
            &&& merges_all(entries, piece, steps)
            &&& ids.len() == steps.last().len()
            &&& forall|k: int|
                0 <= k < ids.len() ==> names_token(
                    entries,
                    (#[trigger] ids[k]) as int,
                    steps.last()[k],
                )
        },
{
    let parts = single_parts(piece);
    let steps = lemma_merge_steps(entries, parts);
    let last = steps.last();
    let ids = piece_tokens(entries, piece);
    lemma_single_tokens(entries, piece);
    lemma_fully_merged(entries, parts);
    if piece.len() != 1 {
        assert forall|k: int| 0 <= k < ids.len() implies names_token(
            entries,
            (#[trigger] ids[k]) as int,
            last[k],
        ) by {
            assert(token_of(entries, last[k]) is Some);
            lemma_names_token(entries, last[k]);
            lemma_token_of(entries, last[k]);
        }
        assert forall|i: int, e: int|
            0 <= i < last.len() - 1 && 0 <= e < entries.len() implies #[trigger] entries[e]
            != #[trigger] last[i] + last[i + 1] by {
            lemma_token_of(entries, last[i] + last[i + 1]);
            if pair_token(entries, last, i) is Some {
                let b = lemma_best_exists(entries, last, last.len() - 1);
                assert(is_best_pair(entries, last, b));
            }
        }
    }
    steps
}

/// No two neighbours among the ids of a piece could be merged further: no token
/// has their bytes together.
pub proof fn no_neighbours_merge_further(entries: Seq<Seq<u8>>, piece: Seq<u8>)
    requires
        entries.len() >= 256,
        forall|i: int| 0 <= i < 256 ==> #[trigger] entries[i] == seq![i as u8],
        entries.len() <= u32::MAX,
    ensures
        forall|k: int, e: int|
            0 <= k < piece_tokens(entries, piece).len() - 1 && 0 <= e < entries.len()
                ==> #[trigger] entries[e] != entries[(#[trigger] piece_tokens(
                entries,
                piece,
            )[k]) as int] + entries[piece_tokens(entries, piece)[k + 1] as int],
{
    let steps = pieces_merge_lowest_pair_first(entries, piece);
    let ids = piece_tokens(entries, piece);
    assert forall|k: int, e: int|
        0 <= k < ids.len() - 1 && 0 <= e < entries.len() implies #[trigger] entries[e]
        != entries[(#[trigger] ids[k]) as int] + entries[ids[k + 1] as int] by {
        assert(piece.len() != 1);
        assert(names_token(entries, ids[k] as int, steps.last()[k]));
        assert(names_token(entries, ids[k + 1] as int, steps.last()[k + 1]));
        assert(entries[e] != steps.last()[k] + steps.last()[k + 1]);
    }
}

} // verus!
