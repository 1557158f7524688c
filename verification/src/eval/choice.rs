//! Which id is picked, and what the model sees.
use vstd::prelude::*;

use super::sample::{are_highest, is_last_highest, window, Generation};
use crate::binary64::Real32;
use crate::rounding::scores_are_ordered_by_their_bits;

verus! {

/// Whether a score is no higher than another, by their bits.
pub open spec fn no_higher(a: Real32, b: Real32) -> bool {
    if a.bits < 0x8000_0000 {
        b.bits < 0x8000_0000 && a.bits <= b.bits
    } else {
        b.bits < 0x8000_0000 || b.bits <= a.bits
    }
}

/// The id that is picked without chance has the highest score of all, and is the last
/// that has it.
pub proof fn the_pick_has_the_highest_score(scores: Seq<Real32>, i: int, k: int)
    requires
        is_last_highest(scores, i),
        0 <= k < scores.len(),
    ensures
        0 <= i < scores.len(),
        no_higher(scores[k], scores[i]),
        scores[k].bits == scores[i].bits ==> k <= i,
{
    scores_are_ordered_by_their_bits(scores[k], scores[i]);
    scores_are_ordered_by_their_bits(scores[i], scores[k]);
}

/// The ids that are drawn from are told apart, and none that is left out has a higher
/// score than one of them.
pub proof fn none_left_out_is_higher(scores: Seq<Real32>, ids: Seq<u32>, a: int, k: int)
    requires
        are_highest(scores, ids),
        0 <= a < ids.len(),
        0 <= k < scores.len() <= u32::MAX,
    ensures
        ids[a] < scores.len(),
        (forall|b: int| 0 <= b < ids.len() ==> ids[b] != k) ==> no_higher(
            scores[k],
            scores[ids[a] as int],
        ),
        forall|b: int, c: int| 0 <= b < c < ids.len() ==> ids[b] != ids[c],
{
    scores_are_ordered_by_their_bits(scores[k], scores[ids[a] as int]);
    scores_are_ordered_by_their_bits(scores[ids[a] as int], scores[k]);
    if forall|b: int| 0 <= b < ids.len() ==> ids[b] != k {
        assert(!ids.contains(k as u32));
    }
}

/// The model sees the last ids, in order, all of them or as many as its context holds.
pub proof fn the_model_sees_the_last_ids(ids: Seq<u32>, seq_len: int, i: int)
    requires
        0 < seq_len,
    ensures
        window(ids, seq_len).len() == if ids.len() < seq_len {
            ids.len() as int
        } else {
            seq_len
        },
        0 <= i < window(ids, seq_len).len() ==> window(ids, seq_len)[window(ids, seq_len).len() - 1
            - i] == ids[ids.len() - 1 - i],
{
}

/// A generation is over once one of its ending ids has come, or as many ids as were
/// asked for, and not before.
pub proof fn generations_end_at_a_stop_or_the_limit(g: Generation)
    requires
        g.wf(),
    ensures
        ({
            let n = g.ids@.len() - g.prefix_len;
            &&& n <= g.max_tokens
            &&& g.done() <==> n == g.max_tokens || (n > 0 && exists|i: int|
                0 <= i < g.stop@.len() && #[trigger] g.stop@[i] == g.ids@[g.ids@.len() - 1])
        }),
{
    if g.stop@.contains(g.ids@.last()) {
        let i = choose|i: int| 0 <= i < g.stop@.len() && g.stop@[i] == g.ids@.last();
        assert(g.stop@[i] == g.ids@[g.ids@.len() - 1]);
    }
    if exists|i: int| 0 <= i < g.stop@.len() && #[trigger] g.stop@[i] == g.ids@[g.ids@.len() - 1] {
        assert(g.stop@.contains(g.ids@.last()));
    }
}

} // verus!
