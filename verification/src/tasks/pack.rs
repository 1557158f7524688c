//! Packing rendered conversations into rows of one length.
//!
//! A row is filled with the longest conversation that fits, again and again,
//! among the next few in the order of arrival. A conversation is never cut: the
//! gap that none of them fits into is padded with unscored document starts.
use std::collections::VecDeque;

use vstd::prelude::*;

use crate::binary64::{nearest, to_double, whole, Double};
use crate::data::batch::FlatBatch;
use crate::seqs::{
    concat, lemma_concat_add, lemma_concat_even_at, lemma_concat_even_len, lemma_concat_one,
};
use crate::text::{decimal, push_decimal};
use crate::tokenizer::chat::RenderedConversation;
use crate::tokenizer::merge::{HASH_PRIME, HASH_START};
use crate::tokenizer::shared::TokenId;

verus! {

/// How many conversations the search for the best fit looks at.
pub const BUFFER_SIZE: usize = 100;

/// What a pack costs.
#[derive(Debug, Clone, Copy, PartialEq, Eq, Structural)]
pub struct PackStats {
    pub rows: usize,
    pub conversations: usize,
    pub pad_tokens: usize,
    /// All tokens of the pack, padding included.
    pub total_tokens: usize,
    /// The tokens that the loss scores.
    pub scored_tokens: usize,
}

/// A part of a whole as a double-precision number; 0 of nothing.
pub open spec fn share(part: nat, total: nat) -> (nat, nat) {
    if total == 0 {
        (0, 1)
    } else {
        nearest(whole(part), whole(total))
    }
}

fn fraction(part: usize, total: usize) -> (d: Double)
    ensures
        d@ == share(part as nat, total as nat),
        d.unit > 0,
{
    if total == 0 {
        return Double { mantissa: 0, unit: 1 };
    }
    let num: u128 = to_double(part as u64);
    let den: u128 = to_double(total as u64);
    Double::wide_quotient(num, den)
}

impl PackStats {
    /// No part is more than the whole.
    pub open spec fn wf(self) -> bool {
        self.pad_tokens <= self.total_tokens && self.scored_tokens <= self.total_tokens
    }

    /// The share of padding among all tokens.
    pub fn pad_fraction(&self) -> (d: Double)
        ensures
            d@ == share(self.pad_tokens as nat, self.total_tokens as nat),
            d.unit > 0,
    {
        fraction(self.pad_tokens, self.total_tokens)
    }

    /// The share of scored tokens among all tokens.
    pub fn scored_fraction(&self) -> (d: Double)
        ensures
            d@ == share(self.scored_tokens as nat, self.total_tokens as nat),
            d.unit > 0,
    {
        fraction(self.scored_tokens, self.total_tokens)
    }
}

/// An epoch in rows of `row_capacity` ids, with the loss mask beside them.
pub struct PackedEpoch {
    pub rows: Vec<TokenId>,
    pub mask: Vec<bool>,
    pub row_capacity: usize,
    pub stats: PackStats,
}

// ---------------------------------------------------------------------------
// What packing is
// ---------------------------------------------------------------------------

/// The conversations as sequences of ids with their masks.
pub open spec fn conv_views(convs: Seq<RenderedConversation>) -> Seq<Seq<(u32, bool)>> {
    Seq::new(convs.len(), |i: int| convs[i]@)
}

/// Whether conversation `i` is among the next `window` and fits into the gap.
pub open spec fn fits(
    pending: Seq<Seq<(u32, bool)>>,
    window: int,
    gap: int,
    i: int,
) -> bool {
    0 <= i < pending.len() && i < window && 0 < pending[i].len() <= gap
}

/// Whether conversation `i` is the longest that fits, and the first such.
pub open spec fn is_best_fit(
    pending: Seq<Seq<(u32, bool)>>,
    window: int,
    gap: int,
    i: int,
) -> bool {
    &&& fits(pending, window, gap, i)
    &&& forall|j: int| #[trigger]
        fits(pending, window, gap, j) ==> pending[j].len() < pending[i].len() || (pending[j].len()
            == pending[i].len() && i <= j)
}

/// The conversation that goes into the gap next.
pub open spec fn best_fit(pending: Seq<Seq<(u32, bool)>>, window: int, gap: int) -> Option<int> {
    if exists|i: int| is_best_fit(pending, window, gap, i) {
        Some(choose|i: int| is_best_fit(pending, window, gap, i))
    } else {
        None
    }
}

/// The conversations that go into a gap, in order.
pub open spec fn row_picks(pending: Seq<Seq<(u32, bool)>>, window: int, gap: int) -> Seq<
    Seq<(u32, bool)>,
>
    decreases pending.len(),
{
    match best_fit(pending, window, gap) {
        Some(i) => seq![pending[i]] + row_picks(
            pending.remove(i),
            window,
            gap - pending[i].len(),
        ),
        None => Seq::empty(),
    }
}

/// The conversations that are left when a gap is filled.
pub open spec fn row_rest(pending: Seq<Seq<(u32, bool)>>, window: int, gap: int) -> Seq<
    Seq<(u32, bool)>,
>
    decreases pending.len(),
{
    match best_fit(pending, window, gap) {
        Some(i) => row_rest(pending.remove(i), window, gap - pending[i].len()),
        None => pending,
    }
}

/// The conversations of each row.
pub open spec fn packed_rows(
    pending: Seq<Seq<(u32, bool)>>,
    window: int,
    capacity: int,
) -> Seq<Seq<Seq<(u32, bool)>>>
    decreases pending.len(),
{
    let rest = row_rest(pending, window, capacity);
    if rest.len() < pending.len() {
        seq![row_picks(pending, window, capacity)] + packed_rows(rest, window, capacity)
    } else {
        Seq::empty()
    }
}

/// Unscored document starts.
pub open spec fn padding(n: int, bos: u32) -> Seq<(u32, bool)> {
    Seq::new(
        if n > 0 {
            n as nat
        } else {
            0
        },
        |i: int| (bos, false),
    )
}

/// A row of conversations, padded to the capacity.
pub open spec fn row_tokens(picks: Seq<Seq<(u32, bool)>>, capacity: int, bos: u32) -> Seq<
    (u32, bool),
> {
    concat(picks) + padding(capacity - concat(picks).len(), bos)
}

/// Each row, padded to the capacity.
pub open spec fn all_row_tokens(
    rows: Seq<Seq<Seq<(u32, bool)>>>,
    capacity: int,
    bos: u32,
) -> Seq<Seq<(u32, bool)>> {
    Seq::new(rows.len(), |r: int| row_tokens(rows[r], capacity, bos))
}

/// The whole pack.
pub open spec fn packed_tokens(
    convs: Seq<Seq<(u32, bool)>>,
    window: int,
    capacity: int,
    bos: u32,
) -> Seq<(u32, bool)> {
    concat(all_row_tokens(packed_rows(convs, window, capacity), capacity, bos))
}

/// Whether every conversation has a token, and no more than a row holds.
pub open spec fn all_packable(convs: Seq<Seq<(u32, bool)>>, capacity: int) -> bool {
    forall|i: int| 0 <= i < convs.len() ==> 0 < (#[trigger] convs[i]).len() <= capacity
}

/// The number of scored tokens.
pub open spec fn scored_count(tokens: Seq<(u32, bool)>) -> nat
    decreases tokens.len(),
{
    if tokens.len() == 0 {
        0
    } else {
        scored_count(tokens.drop_last()) + if tokens.last().1 {
            1nat
        } else {
            0
        }
    }
}

proof fn lemma_best_fit_unique(
    pending: Seq<Seq<(u32, bool)>>,
    window: int,
    gap: int,
    i: int,
    j: int,
)
    requires
        is_best_fit(pending, window, gap, i),
        is_best_fit(pending, window, gap, j),
    ensures
        i == j,
{
    assert(fits(pending, window, gap, i) && fits(pending, window, gap, j));
}

/// Whether `i` fits best among the first `n`.
spec fn best_below(pending: Seq<Seq<(u32, bool)>>, window: int, gap: int, n: int, i: int) -> bool {
    &&& 0 <= i < n
    &&& fits(pending, window, gap, i)
    &&& forall|j: int|
        0 <= j < n && #[trigger] fits(pending, window, gap, j) ==> pending[j].len()
            < pending[i].len() || (pending[j].len() == pending[i].len() && i <= j)
}

/// Where something fits, something fits best.
proof fn lemma_best_below(pending: Seq<Seq<(u32, bool)>>, window: int, gap: int, n: int) -> (r:
    Option<int>)
    requires
        0 <= n <= pending.len(),
    ensures
        match r {
            Some(i) => best_below(pending, window, gap, n, i),
            None => forall|j: int| 0 <= j < n ==> !#[trigger] fits(pending, window, gap, j),
        },
    decreases n,
{
    if n == 0 {
        None
    } else {
        let k = n - 1;
        match lemma_best_below(pending, window, gap, k) {
            None => if fits(pending, window, gap, k) {
                Some(k)
            } else {
                None
            },
            Some(i) => if fits(pending, window, gap, k) && pending[k].len() > pending[i].len() {
                Some(k)
            } else {
                Some(i)
            },
        }
    }
}

/// Of packable conversations, one goes into an empty row.
proof fn lemma_row_takes(pending: Seq<Seq<(u32, bool)>>, window: int, capacity: int)
    requires
        all_packable(pending, capacity),
        pending.len() > 0,
        window > 0,
    ensures
        best_fit(pending, window, capacity) is Some,
        is_best_fit(
            pending,
            window,
            capacity,
            best_fit(pending, window, capacity)->0,
        ),
{
    let r = lemma_best_below(pending, window, capacity, pending.len() as int);
    assert(fits(pending, window, capacity, 0));
    assert(is_best_fit(pending, window, capacity, r->0));
}

/// What a row takes and what it leaves.
proof fn lemma_row(pending: Seq<Seq<(u32, bool)>>, window: int, gap: int, capacity: int)
    requires
        gap >= 0,
        all_packable(pending, capacity),
    ensures
        concat(row_picks(pending, window, gap)).len() <= gap,
        row_rest(pending, window, gap).len() + row_picks(pending, window, gap).len()
            == pending.len(),
        all_packable(row_rest(pending, window, gap), capacity),
        all_packable(row_picks(pending, window, gap), capacity),
        (row_picks(pending, window, gap) + row_rest(pending, window, gap)).to_multiset()
            == pending.to_multiset(),
    decreases pending.len(),
{
    broadcast use vstd::seq_lib::group_to_multiset_ensures;

    match best_fit(pending, window, gap) {
        Some(i) => {
            let next = pending.remove(i);
            assert(fits(pending, window, gap, i));
            assert forall|k: int| 0 <= k < next.len() implies 0 < (#[trigger] next[k]).len()
                <= capacity by {
                assert(next[k] == if k < i {
                    pending[k]
                } else {
                    pending[k + 1]
                });
            }
            let left = gap - pending[i].len();
            lemma_row(next, window, left, capacity);
            let picks = row_picks(next, window, left);
            let rest = row_rest(next, window, left);
            lemma_concat_add(seq![pending[i]], picks);
            lemma_concat_one(pending[i]);
            let all = seq![pending[i]] + picks;
            assert forall|k: int| 0 <= k < all.len() implies 0 < (#[trigger] all[k]).len()
                <= capacity by {
                if k > 0 {
                    assert(all[k] == picks[k - 1]);
                }
            }
            assert(all + rest == (seq![pending[i]] + (picks + rest)));
            vstd::seq_lib::lemma_multiset_commutative(seq![pending[i]], picks + rest);
            assert(seq![pending[i]].to_multiset() == vstd::multiset::Multiset::singleton(
                pending[i],
            )) by {
                assert(seq![pending[i]] == Seq::<Seq<(u32, bool)>>::empty().push(pending[i]));
            }
            assert((all + rest).to_multiset() =~= pending.to_multiset());
        },
        None => {
            assert(row_picks(pending, window, gap) + pending == pending);
        },
    }
}

/// Every row holds at least one conversation, and no more than fits.
pub proof fn lemma_packed_rows(pending: Seq<Seq<(u32, bool)>>, window: int, capacity: int)
    requires
        all_packable(pending, capacity),
        window > 0,
        capacity > 0,
    ensures
        forall|r: int|
            0 <= r < packed_rows(pending, window, capacity).len() ==> {
                let row = #[trigger] packed_rows(pending, window, capacity)[r];
                &&& row.len() > 0
                &&& all_packable(row, capacity)
                &&& concat(row).len() <= capacity
            },
        concat(packed_rows(pending, window, capacity)).to_multiset() == pending.to_multiset(),
    decreases pending.len(),
{
    broadcast use vstd::seq_lib::group_to_multiset_ensures;

    let rows = packed_rows(pending, window, capacity);
    let rest = row_rest(pending, window, capacity);
    let row = row_picks(pending, window, capacity);
    lemma_row(pending, window, capacity, capacity);
    if pending.len() > 0 {
        lemma_row_takes(pending, window, capacity);
        assert(row.len() > 0);
        lemma_packed_rows(rest, window, capacity);
        let more = packed_rows(rest, window, capacity);
        assert(rows == seq![row] + more);
        assert forall|r: int| 0 <= r < rows.len() implies {
            let x = #[trigger] rows[r];
            &&& x.len() > 0
            &&& all_packable(x, capacity)
            &&& concat(x).len() <= capacity
        } by {
            if r > 0 {
                assert(rows[r] == more[r - 1]);
            }
        }
        lemma_concat_add(seq![row], more);
        lemma_concat_one(row);
        vstd::seq_lib::lemma_multiset_commutative(row, concat(more));
        vstd::seq_lib::lemma_multiset_commutative(row, rest);
        assert(concat(rows).to_multiset() =~= pending.to_multiset());
    } else {
        assert(rest.len() == 0);
        assert(concat(rows) =~= pending);
    }
}

// ---------------------------------------------------------------------------
// Laws of packing
// ---------------------------------------------------------------------------

/// Packing keeps every conversation whole and exactly once: the rows hold the
/// given conversations, each followed by the next or by padding.
pub proof fn packing_keeps_every_conversation(
    convs: Seq<Seq<(u32, bool)>>,
    window: int,
    capacity: int,
)
    requires
        all_packable(convs, capacity),
        window > 0,
        capacity > 0,
    ensures
        concat(packed_rows(convs, window, capacity)).to_multiset() == convs.to_multiset(),
{
    lemma_packed_rows(convs, window, capacity);
}

/// Every row has the capacity's length, and begins with a conversation.
pub proof fn rows_are_full_and_begin_with_a_conversation(
    convs: Seq<Seq<(u32, bool)>>,
    window: int,
    capacity: int,
    bos: u32,
    r: int,
)
    requires
        all_packable(convs, capacity),
        window > 0,
        capacity > 0,
        0 <= r < packed_rows(convs, window, capacity).len(),
    ensures
        packed_tokens(convs, window, capacity, bos).len() == packed_rows(
            convs,
            window,
            capacity,
        ).len() * capacity,
        0 <= r * capacity,
        r * capacity + capacity <= packed_tokens(convs, window, capacity, bos).len(),
        packed_tokens(convs, window, capacity, bos).subrange(
            r * capacity,
            r * capacity + capacity,
        ) == row_tokens(packed_rows(convs, window, capacity)[r], capacity, bos),
        packed_rows(convs, window, capacity)[r].len() > 0,
        packed_tokens(convs, window, capacity, bos)[r * capacity] == packed_rows(
            convs,
            window,
            capacity,
        )[r][0][0],
{
    lemma_packed_rows(convs, window, capacity);
    let rows = packed_rows(convs, window, capacity);
    let all = all_row_tokens(rows, capacity, bos);
    assert forall|k: int| 0 <= k < all.len() implies (#[trigger] all[k]).len() == capacity by {
        assert(rows[k].len() > 0);
    }
    lemma_concat_even_len(all, capacity);
    lemma_concat_even_at(all, capacity, r);
    let row = rows[r];
    lemma_concat_first(row);
    let whole = packed_tokens(convs, window, capacity, bos);
    assert(row[0].len() > 0);
    assert(whole[r * capacity] == whole.subrange(r * capacity, r * capacity + capacity)[0]);
}

/// A row of conversations begins with the first of them.
proof fn lemma_concat_first(parts: Seq<Seq<(u32, bool)>>)
    requires
        parts.len() > 0,
        parts[0].len() > 0,
    ensures
        concat(parts).len() > 0,
        concat(parts)[0] == parts[0][0],
{
    let tail = parts.skip(1);
    assert(parts == seq![parts[0]] + tail);
    lemma_concat_add(seq![parts[0]], tail);
    lemma_concat_one(parts[0]);
}

/// Where every conversation begins with the unscored token `bos`, so does
/// every row.
pub proof fn rows_begin_as_conversations_do(
    convs: Seq<Seq<(u32, bool)>>,
    window: int,
    capacity: int,
    bos: u32,
    r: int,
)
    requires
        all_packable(convs, capacity),
        forall|i: int| 0 <= i < convs.len() ==> (#[trigger] convs[i])[0] == (bos, false),
        window > 0,
        capacity > 0,
        0 <= r < packed_rows(convs, window, capacity).len(),
    ensures
        packed_tokens(convs, window, capacity, bos)[r * capacity] == (bos, false),
{
    broadcast use vstd::seq_lib::group_to_multiset_ensures;

    rows_are_full_and_begin_with_a_conversation(convs, window, capacity, bos, r);
    let rows = packed_rows(convs, window, capacity);
    lemma_packed_rows(convs, window, capacity);
    let first = rows[r][0];
    lemma_concat_contains(rows, r, 0);
    assert(concat(rows).contains(first));
    assert(concat(rows).to_multiset().count(first) > 0);
    assert(convs.to_multiset().count(first) > 0);
    assert(convs.contains(first));
    let i = choose|i: int| 0 <= i < convs.len() && convs[i] == first;
    assert(convs[i][0] == (bos, false));
}

proof fn lemma_concat_contains(parts: Seq<Seq<Seq<(u32, bool)>>>, r: int, k: int)
    requires
        0 <= r < parts.len(),
        0 <= k < parts[r].len(),
    ensures
        concat(parts).contains(parts[r][k]),
    decreases parts.len(),
{
    let head = parts.drop_last();
    if r < head.len() {
        assert(head[r] == parts[r]);
        lemma_concat_contains(head, r, k);
        let at = choose|at: int| 0 <= at < concat(head).len() && concat(head)[at] == parts[r][k];
        assert(concat(parts)[at] == parts[r][k]);
    } else {
        let at = concat(head).len() + k;
        assert(concat(parts)[at] == parts[r][k]);
    }
}


// ---------------------------------------------------------------------------
// Packing
// ---------------------------------------------------------------------------

/// Ids with their masks.
pub open spec fn zipped(ids: Seq<u32>, mask: Seq<bool>) -> Seq<(u32, bool)> {
    Seq::new(ids.len(), |i: int| (ids[i], mask[i]))
}

/// What is still to pack: the window, then the source.
spec fn pending_of(
    buf: Seq<RenderedConversation>,
    src: Seq<RenderedConversation>,
) -> Seq<RenderedConversation> {
    buf + src
}

/// Whether a conversation can be packed into rows of `capacity`: each id has its
/// mask, and there is an id, and no more than a row holds.
pub open spec fn can_pack(conv: RenderedConversation, capacity: int) -> bool {
    &&& conv.wf()
    &&& 0 < conv.ids@.len() <= capacity
}

/// Whether all conversations can be packed into rows of `capacity`.
pub open spec fn all_can_pack(convs: Seq<RenderedConversation>, capacity: int) -> bool {
    forall|i: int| 0 <= i < convs.len() ==> can_pack(#[trigger] convs[i], capacity)
}

/// How many of `left` conversations a window of `size` still has room for, where
/// it holds `held`.
pub open spec fn taken(held: int, left: int, size: int) -> int {
    if held >= size {
        0
    } else if left < size - held {
        left
    } else {
        size - held
    }
}

/// Fills the window from the source: the first conversations of the source move
/// behind those of the window, as many as there is room for. A window that is
/// full stays as it is.
pub fn refill(
    buf: &mut Vec<RenderedConversation>,
    src: &mut VecDeque<RenderedConversation>,
    buffer_size: usize,
    row_capacity: usize,
)
    requires
        ({
            let n = taken(old(buf)@.len() as int, old(src)@.len() as int, buffer_size as int);
            all_can_pack(old(src)@.take(n), row_capacity as int)
        }),
    ensures
        ({
            let n = taken(old(buf)@.len() as int, old(src)@.len() as int, buffer_size as int);
            &&& final(buf)@ == old(buf)@ + old(src)@.take(n)
            &&& final(src)@ == old(src)@.skip(n)
        }),
{
    let ghost all = src@;
    let ghost n = taken(buf@.len() as int, src@.len() as int, buffer_size as int);
    let ghost mut k: int = 0;
    assert(buf@ + all.take(0) =~= buf@);
    assert(all.skip(0) =~= all);
    while buf.len() < buffer_size && src.len() > 0
        invariant
            all == old(src)@,
            n == taken(old(buf)@.len() as int, all.len() as int, buffer_size as int),
            0 <= k <= n <= all.len(),
            buf@ == old(buf)@ + all.take(k),
            src@ == all.skip(k),
        decreases src@.len(),
    {
        match src.pop_front() {
            None => {},
            Some(conv) => {
                buf.push(conv);
                proof {
                    assert(all.take(k + 1) =~= all.take(k).push(all[k]));
                    assert(buf@ =~= old(buf)@ + all.take(k + 1));
                    assert(src@ =~= all.skip(k + 1));
                    k = k + 1;
                }
            },
        }
    }
    assert(k == n);
}

/// The longest conversation of the window that fits, and the first such.
fn find_fit(buf: &Vec<RenderedConversation>, gap: usize) -> (r: Option<usize>)
    ensures
        match r {
            Some(i) => best_below(
                conv_views(buf@),
                buf@.len() as int,
                gap as int,
                buf@.len() as int,
                i as int,
            ),
            None => forall|j: int|
                0 <= j < buf@.len() ==> !#[trigger] fits(
                    conv_views(buf@),
                    buf@.len() as int,
                    gap as int,
                    j,
                ),
        },
{
    let ghost views = conv_views(buf@);
    let ghost n = buf@.len() as int;
    let mut best: Option<usize> = None;
    let mut best_len: usize = 0;
    let mut i: usize = 0;
    while i < buf.len()
        invariant
            i <= buf@.len(),
            n == buf@.len(),
            views == conv_views(buf@),
            match best {
                Some(b) => best_below(views, n, gap as int, i as int, b as int) && best_len
                    == views[b as int].len(),
                None => best_len == 0 && forall|j: int|
                    0 <= j < i ==> !#[trigger] fits(views, n, gap as int, j),
            },
        decreases buf@.len() - i,
    {
        let len: usize = buf[i].ids.len();
        assert(views[i as int].len() == len);
        if len <= gap && len > best_len {
            best = Some(i);
            best_len = len;
        }
        i += 1;
    }
    best
}

/// The best fit of the window is the best fit of all that is to come.
proof fn lemma_window(
    buf: Seq<RenderedConversation>,
    src: Seq<RenderedConversation>,
    window: int,
    gap: int,
    r: Option<int>,
)
    requires
        buf.len() == window || (src.len() == 0 && buf.len() <= window),
        match r {
            Some(i) => best_below(conv_views(buf), buf.len() as int, gap, buf.len() as int, i),
            None => forall|j: int|
                0 <= j < buf.len() ==> !#[trigger] fits(
                    conv_views(buf),
                    buf.len() as int,
                    gap,
                    j,
                ),
        },
    ensures
        best_fit(conv_views(pending_of(buf, src)), window, gap) == r,
{
    let pending = conv_views(pending_of(buf, src));
    let views = conv_views(buf);
    let n = buf.len() as int;
    assert forall|j: int| #[trigger] fits(pending, window, gap, j) implies fits(views, n, gap, j) by {
        assert(pending[j] == views[j]);
    }
    match r {
        Some(i) => {
            assert(pending[i] == views[i]);
            assert forall|j: int| #[trigger] fits(pending, window, gap, j) implies pending[j].len()
                < pending[i].len() || (pending[j].len() == pending[i].len() && i <= j) by {
                assert(fits(views, n, gap, j));
                assert(pending[j] == views[j]);
            }
            assert(is_best_fit(pending, window, gap, i));
            let c = choose|c: int| is_best_fit(pending, window, gap, c);
            lemma_best_fit_unique(pending, window, gap, i, c);
        },
        None => {
            assert forall|j: int| !is_best_fit(pending, window, gap, j) by {
                if fits(pending, window, gap, j) {
                    assert(fits(views, n, gap, j));
                }
            }
        },
    }
}

/// Taking out a conversation takes its tokens out of the total.
proof fn lemma_total_remove(convs: Seq<Seq<(u32, bool)>>, i: int)
    requires
        0 <= i < convs.len(),
    ensures
        concat(convs).len() == convs[i].len() + concat(convs.remove(i)).len(),
{
    let head = convs.take(i);
    let tail = convs.skip(i + 1);
    assert(convs == head + seq![convs[i]] + tail);
    assert(convs.remove(i) == head + tail);
    lemma_concat_add(head + seq![convs[i]], tail);
    lemma_concat_add(head, seq![convs[i]]);
    lemma_concat_add(head, tail);
    lemma_concat_one(convs[i]);
}

/// Appends padding.
fn push_padding(rows: &mut Vec<TokenId>, mask: &mut Vec<bool>, n: usize, bos: TokenId)
    requires
        old(rows)@.len() == old(mask)@.len(),
    ensures
        final(rows)@.len() == final(mask)@.len(),
        zipped(final(rows)@, final(mask)@) == zipped(old(rows)@, old(mask)@) + padding(
            n as int,
            bos,
        ),
{
    let mut i: usize = 0;
    assert(zipped(rows@, mask@) =~= zipped(old(rows)@, old(mask)@) + padding(0, bos));
    while i < n
        invariant
            i <= n,
            rows@.len() == mask@.len(),
            zipped(rows@, mask@) == zipped(old(rows)@, old(mask)@) + padding(i as int, bos),
        decreases n - i,
    {
        let ghost before = zipped(rows@, mask@);
        rows.push(bos);
        mask.push(false);
        assert(zipped(rows@, mask@) =~= before.push((bos, false)));
        assert(padding(i + 1, bos) =~= padding(i as int, bos).push((bos, false)));
        assert(zipped(rows@, mask@) =~= zipped(old(rows)@, old(mask)@) + padding(i + 1, bos));
        i += 1;
    }
}

/// Fills one row. Returns the number of conversations placed and the number of
/// tokens padded.
fn pack_row(
    rows: &mut Vec<TokenId>,
    mask: &mut Vec<bool>,
    buf: &mut Vec<RenderedConversation>,
    src: &mut VecDeque<RenderedConversation>,
    buffer_size: usize,
    row_capacity: usize,
    bos: TokenId,
) -> (r: (usize, usize))
    requires
        old(rows)@.len() == old(mask)@.len(),
        old(buf)@.len() == buffer_size || (old(src)@.len() == 0 && old(buf)@.len()
            <= buffer_size),
        all_can_pack(pending_of(old(buf)@, old(src)@), row_capacity as int),
    ensures
        final(rows)@.len() == final(mask)@.len(),
        final(buf)@.len() == buffer_size || (final(src)@.len() == 0 && final(buf)@.len()
            <= buffer_size),
        all_can_pack(pending_of(final(buf)@, final(src)@), row_capacity as int),
        ({
            let before = conv_views(pending_of(old(buf)@, old(src)@));
            let after = conv_views(pending_of(final(buf)@, final(src)@));
            let picks = row_picks(before, buffer_size as int, row_capacity as int);
            &&& after == row_rest(before, buffer_size as int, row_capacity as int)
            &&& zipped(final(rows)@, final(mask)@) == zipped(old(rows)@, old(mask)@) + row_tokens(
                picks,
                row_capacity as int,
                bos,
            )
            &&& r.0 == picks.len()
            &&& r.0 + after.len() == before.len()
            &&& concat(picks).len() + r.1 == row_capacity
            &&& concat(picks).len() + concat(after).len() == concat(before).len()
        }),
{
    let ghost start = conv_views(pending_of(buf@, src@));
    let ghost w = buffer_size as int;
    let ghost tokens0 = zipped(rows@, mask@);
    let ghost mut picks: Seq<Seq<(u32, bool)>> = Seq::empty();
    let mut gap: usize = row_capacity;
    let mut placed: usize = 0;
    proof {
        assert(picks + row_picks(start, w, gap as int) =~= row_picks(start, w, gap as int));
        assert(tokens0 + concat(picks) =~= tokens0);
    }
    let mut more: bool = true;
    while more
        invariant
            rows@.len() == mask@.len(),
            w == buffer_size,
            buf@.len() == buffer_size || (src@.len() == 0 && buf@.len() <= buffer_size),
            all_can_pack(pending_of(buf@, src@), row_capacity as int),
            gap <= row_capacity,
            concat(picks).len() + gap == row_capacity,
            zipped(rows@, mask@) == tokens0 + concat(picks),
            picks + row_picks(conv_views(pending_of(buf@, src@)), w, gap as int) == row_picks(
                start,
                w,
                row_capacity as int,
            ),
            row_rest(conv_views(pending_of(buf@, src@)), w, gap as int) == row_rest(
                start,
                w,
                row_capacity as int,
            ),
            placed == picks.len(),
            placed + buf@.len() + src@.len() == start.len(),
            placed <= start.len(),
            concat(picks).len() + concat(conv_views(pending_of(buf@, src@))).len() == concat(
                start,
            ).len(),
            placed <= rows@.len(),
            !more ==> best_fit(conv_views(pending_of(buf@, src@)), w, gap as int) is None,
        decreases buf@.len() + src@.len(), (if more { 1int } else { 0int }),
    {
        let ghost pend = pending_of(buf@, src@);
        let ghost pending = conv_views(pend);
        let found = find_fit(buf, gap);
        proof {
            lemma_window(
                buf@,
                src@,
                w,
                gap as int,
                match found {
                    Some(i) => Some(i as int),
                    None => None,
                },
            );
        }
        match found {
            None => {
                more = false;
            },
            Some(i) => {
                let ghost old_buf = buf@;
                let ghost old_rows = zipped(rows@, mask@);
                let mut conv = buf.remove(i);
                let ghost view = conv@;
                let len: usize = conv.ids.len();
                proof {
                    assert(pend[i as int] == old_buf[i as int]);
                    assert(conv.wf());
                    assert(pending[i as int] == view);
                    assert(pending_of(buf@, src@) =~= pend.remove(i as int));
                    assert(conv_views(pending_of(buf@, src@)) =~= pending.remove(i as int));
                    assert(fits(conv_views(old_buf), old_buf.len() as int, gap as int, i as int));
                    lemma_total_remove(pending, i as int);
                    lemma_concat_add(picks, seq![view]);
                    lemma_concat_one(view);
                    let next = picks.push(view);
                    assert(next =~= picks + seq![view]);
                    assert(picks + (seq![view] + row_picks(
                        pending.remove(i as int),
                        w,
                        gap - len,
                    )) =~= next + row_picks(pending.remove(i as int), w, gap - len));
                    picks = next;
                }
                rows.append(&mut conv.ids);
                mask.append(&mut conv.mask);
                assert(zipped(rows@, mask@) =~= old_rows + view);
                assert(zipped(rows@, mask@) =~= tokens0 + concat(picks));
                gap -= len;
                assert(rows.len() <= usize::MAX);
                placed += 1;
                let ghost kept = pending_of(buf@, src@);
                assert forall|k: int| 0 <= k < kept.len() implies can_pack(
                    #[trigger] kept[k],
                    row_capacity as int,
                ) by {
                    assert(kept[k] == if k < i {
                        pend[k]
                    } else {
                        pend[k + 1]
                    });
                }
                let ghost left = src@;
                assert forall|k: int| 0 <= k < left.len() implies can_pack(
                    #[trigger] left[k],
                    row_capacity as int,
                ) by {
                    assert(left[k] == kept[buf@.len() + k]);
                }
                refill(buf, src, buffer_size, row_capacity);
                assert(pending_of(buf@, src@) =~= kept);
            },
        }
    }
    push_padding(rows, mask, gap, bos);
    proof {
        let after = conv_views(pending_of(buf@, src@));
        assert(row_picks(after, w, gap as int) =~= Seq::empty());
        assert(picks + row_picks(after, w, gap as int) =~= picks);
        assert(tokens0 + concat(picks) + padding(gap as int, bos) =~= tokens0 + row_tokens(
            picks,
            row_capacity as int,
            bos,
        ));
    }
    (placed, gap)
}

/// The number of scored tokens.
fn count_scored(ids: &Vec<TokenId>, mask: &Vec<bool>) -> (n: usize)
    requires
        ids@.len() == mask@.len(),
    ensures
        n == scored_count(zipped(ids@, mask@)),
        n <= ids@.len(),
{
    let ghost tokens = zipped(ids@, mask@);
    let mut n: usize = 0;
    let mut i: usize = 0;
    while i < mask.len()
        invariant
            i <= mask@.len(),
            ids@.len() == mask@.len(),
            tokens == zipped(ids@, mask@),
            n <= i,
            n == scored_count(tokens.take(i as int)),
        decreases mask@.len() - i,
    {
        assert(tokens.take(i + 1).drop_last() =~= tokens.take(i as int));
        assert(tokens.take(i + 1).last() == tokens[i as int]);
        if mask[i] {
            n += 1;
        }
        i += 1;
    }
    assert(tokens.take(i as int) =~= tokens);
    n
}

/// The conversations in order, to be taken from the front.
fn queued(convs: Vec<RenderedConversation>) -> (out: VecDeque<RenderedConversation>)
    ensures
        out@ == convs@,
{
    let mut convs = convs;
    let ghost all = convs@;
    let mut out: VecDeque<RenderedConversation> = VecDeque::new();
    assert(convs@ + out@ =~= all);
    while convs.len() > 0
        invariant
            convs@ + out@ == all,
        decreases convs@.len(),
    {
        let ghost before = convs@;
        let ghost done = out@;
        match convs.pop() {
            None => {},
            Some(conv) => {
                out.push_front(conv);
                assert(convs@ + out@ =~= before + done);
            },
        }
    }
    assert(out@ =~= all);
    out
}

impl PackedEpoch {
    /// The rows are whole, and the mask covers them.
    pub open spec fn wf(self) -> bool {
        &&& self.rows@.len() == self.mask@.len()
        &&& self.row_capacity >= 2
        &&& self.rows@.len() % (self.row_capacity as nat) == 0
    }

    /// The ids with their masks.
    pub open spec fn tokens(self) -> Seq<(u32, bool)> {
        zipped(self.rows@, self.mask@)
    }

    /// The number of rows.
    pub open spec fn row_count(self) -> int {
        self.rows@.len() as int / self.row_capacity as int
    }
}

/// Packs conversations with a window of `buffer_size`.
pub fn pack_epoch_with_buffer(
    rendered: Vec<RenderedConversation>,
    row_capacity: usize,
    bos: TokenId,
    buffer_size: usize,
) -> (epoch: PackedEpoch)
    requires
        row_capacity >= 2,
        buffer_size > 0,
        forall|i: int| 0 <= i < rendered@.len() ==> (#[trigger] rendered@[i]).wf(),
        all_packable(conv_views(rendered@), row_capacity as int),
    ensures
        epoch.wf(),
        epoch.row_capacity == row_capacity,
        epoch.tokens() == packed_tokens(
            conv_views(rendered@),
            buffer_size as int,
            row_capacity as int,
            bos,
        ),
        epoch.stats.rows == packed_rows(
            conv_views(rendered@),
            buffer_size as int,
            row_capacity as int,
        ).len(),
        epoch.stats.rows == epoch.row_count(),
        epoch.stats.conversations == rendered@.len(),
        epoch.stats.total_tokens == epoch.tokens().len(),
        epoch.stats.pad_tokens == epoch.tokens().len() - concat(conv_views(rendered@)).len(),
        epoch.stats.scored_tokens == scored_count(epoch.tokens()),
        epoch.stats.wf(),
{
    let ghost convs = conv_views(rendered@);
    let ghost w = buffer_size as int;
    let ghost cap = row_capacity as int;
    let count: usize = rendered.len();
    let mut rows: Vec<TokenId> = Vec::new();
    let mut mask: Vec<bool> = Vec::new();
    let mut buf: Vec<RenderedConversation> = Vec::new();
    let ghost given = rendered@;
    let mut src: VecDeque<RenderedConversation> = queued(rendered);
    let mut pad_tokens: usize = 0;
    let mut conversations: usize = 0;
    assert(pending_of(buf@, src@) =~= given);
    assert forall|i: int| 0 <= i < given.len() implies can_pack(#[trigger] given[i], cap) by {
        assert(convs[i].len() == given[i].ids@.len());
    }
    refill(&mut buf, &mut src, buffer_size, row_capacity);
    assert(pending_of(buf@, src@) =~= given);
    let ghost mut done: Seq<Seq<Seq<(u32, bool)>>> = Seq::empty();
    let ghost whole = packed_rows(convs, w, cap);
    proof {
        assert(done + packed_rows(convs, w, cap) =~= whole);
        assert(all_row_tokens(done, cap, bos) =~= Seq::empty());
        assert(zipped(rows@, mask@) =~= Seq::empty());
        assert(done.len() * cap == 0) by (nonlinear_arith)
            requires
                done.len() == 0,
        ;
    }
    while buf.len() > 0
        invariant
            w == buffer_size,
            cap == row_capacity,
            row_capacity >= 2,
            buffer_size > 0,
            rows@.len() == mask@.len(),
            buf@.len() == buffer_size || (src@.len() == 0 && buf@.len() <= buffer_size),
            all_can_pack(pending_of(buf@, src@), cap),
            whole == packed_rows(convs, w, cap),
            done + packed_rows(conv_views(pending_of(buf@, src@)), w, cap) == whole,
            zipped(rows@, mask@) == concat(all_row_tokens(done, cap, bos)),
            rows@.len() == done.len() * cap,
            conversations + buf@.len() + src@.len() == count,
            count == convs.len(),
            rows@.len() - pad_tokens + concat(conv_views(pending_of(buf@, src@))).len() == concat(
                convs,
            ).len(),
            pad_tokens <= rows@.len(),
        decreases buf@.len() + src@.len(),
    {
        let ghost before = zipped(rows@, mask@);
        let ghost pending = conv_views(pending_of(buf@, src@));
        let ghost picks = row_picks(pending, w, cap);
        let ghost rest = row_rest(pending, w, cap);
        proof {
            let held = pending_of(buf@, src@);
            assert forall|i: int| 0 <= i < pending.len() implies 0 < (
            #[trigger] pending[i]).len() <= cap by {
                assert(can_pack(held[i], cap));
            }
            lemma_row_takes(pending, w, cap);
            lemma_row(pending, w, cap, cap);
            assert(picks.len() > 0);
        }
        let placed = pack_row(
            &mut rows,
            &mut mask,
            &mut buf,
            &mut src,
            buffer_size,
            row_capacity,
            bos,
        );
        proof {
            let next = done.push(picks);
            assert(packed_rows(pending, w, cap) == seq![picks] + packed_rows(rest, w, cap));
            assert(next + packed_rows(rest, w, cap) =~= done + (seq![picks] + packed_rows(
                rest,
                w,
                cap,
            )));
            let row = row_tokens(picks, cap, bos);
            assert(all_row_tokens(next, cap, bos) =~= all_row_tokens(done, cap, bos).push(row));
            assert(all_row_tokens(next, cap, bos).drop_last() =~= all_row_tokens(done, cap, bos));
            assert(row.len() == cap);
            assert(zipped(rows@, mask@) == before + row);
            assert(zipped(rows@, mask@).len() == rows@.len());
            assert((done.len() + 1) * cap == done.len() * cap + cap) by (nonlinear_arith);
            done = next;
        }
        assert(rows.len() <= usize::MAX);
        conversations += placed.0;
        pad_tokens += placed.1;
    }
    proof {
        let left = conv_views(pending_of(buf@, src@));
        assert(pending_of(buf@, src@) =~= Seq::empty());
        assert(left =~= Seq::empty());
        assert(done + packed_rows(left, w, cap) =~= done);
        assert(concat(left).len() == 0);
        vstd::arithmetic::div_mod::lemma_div_multiples_vanish(done.len() as int, cap);
        vstd::arithmetic::div_mod::lemma_mod_multiples_basic(done.len() as int, cap);
    }
    let stats = PackStats {
        rows: rows.len() / row_capacity,
        conversations,
        pad_tokens,
        total_tokens: rows.len(),
        scored_tokens: count_scored(&rows, &mask),
    };
    PackedEpoch { rows, mask, row_capacity, stats }
}

/// Packs conversations into rows of `row_capacity`, padded with `bos` where
/// nothing fits.
pub fn pack_epoch(
    rendered: Vec<RenderedConversation>,
    row_capacity: usize,
    bos: TokenId,
) -> (epoch: PackedEpoch)
    requires
        row_capacity >= 2,
        forall|i: int| 0 <= i < rendered@.len() ==> (#[trigger] rendered@[i]).wf(),
        all_packable(conv_views(rendered@), row_capacity as int),
    ensures
        epoch.wf(),
        epoch.row_capacity == row_capacity,
        epoch.tokens() == packed_tokens(
            conv_views(rendered@),
            BUFFER_SIZE as int,
            row_capacity as int,
            bos,
        ),
        epoch.stats.rows == packed_rows(
            conv_views(rendered@),
            BUFFER_SIZE as int,
            row_capacity as int,
        ).len(),
        epoch.stats.rows == epoch.row_count(),
        epoch.stats.conversations == rendered@.len(),
        epoch.stats.total_tokens == epoch.tokens().len(),
        epoch.stats.pad_tokens == epoch.tokens().len() - concat(conv_views(rendered@)).len(),
        epoch.stats.scored_tokens == scored_count(epoch.tokens()),
        epoch.stats.wf(),
{
    pack_epoch_with_buffer(rendered, row_capacity, bos, BUFFER_SIZE)
}


// ---------------------------------------------------------------------------
// Batches of an epoch
// ---------------------------------------------------------------------------

/// The row that is number `j` of micro-batch `i` of rank `rank`: the ranks take
/// turns, row by row.
pub open spec fn batch_row(i: int, j: int, rank: int, world: int, device_batch: int) -> int {
    (i * device_batch + j) * world + rank
}

/// What the model is given of a row: all but its last id.
pub open spec fn row_inputs(row: Seq<(u32, bool)>) -> Seq<u32> {
    Seq::new((row.len() - 1) as nat, |t: int| row[t].0)
}

/// What the model has to predict of a row: the next id where it is scored, and
/// -1 where it is not.
pub open spec fn row_targets(row: Seq<(u32, bool)>) -> Seq<i64> {
    Seq::new(
        (row.len() - 1) as nat,
        |t: int|
            if row[t + 1].1 {
                row[t + 1].0 as i64
            } else {
                -1i64
            },
    )
}

/// One step of the fingerprint.
pub open spec fn digest_step(h: u64, token: (u32, bool)) -> u64 {
    (h ^ ((token.0 as u64) | (if token.1 {
        0x1_0000_0000u64
    } else {
        0u64
    }))).wrapping_mul(HASH_PRIME)
}

/// The fingerprint before it is cut to 44 bits.
pub open spec fn digest_fold(tokens: Seq<(u32, bool)>) -> u64
    decreases tokens.len(),
{
    if tokens.len() == 0 {
        HASH_START
    } else {
        digest_step(digest_fold(tokens.drop_last()), tokens.last())
    }
}

/// The rows of a micro-batch lie within the rows that all ranks share.
pub proof fn batch_rows_in_range(
    i: int,
    j: int,
    rank: int,
    world: int,
    device_batch: int,
    rows: int,
)
    requires
        0 <= j < device_batch,
        0 <= rank < world,
        0 <= i < rows / (world * device_batch),
        0 <= rows,
    ensures
        0 <= i * device_batch + j,
        0 <= batch_row(i, j, rank, world, device_batch) < (rows / (world * device_batch)) * (world
            * device_batch) <= rows,
{
    let b = device_batch;
    let w = world;
    let wb = w * b;
    let n = rows / wb;
    assert(wb > 0) by (nonlinear_arith)
        requires
            w > 0,
            b > 0,
            wb == w * b,
    ;
    assert(n * wb <= rows) by {
        vstd::arithmetic::div_mod::lemma_fundamental_div_mod(rows, wb);
        assert(wb * n == n * wb) by (nonlinear_arith);
        vstd::arithmetic::div_mod::lemma_mod_bound(rows, wb);
    }
    assert((i + 1) * wb <= n * wb) by (nonlinear_arith)
        requires
            i + 1 <= n,
            wb > 0,
    ;
    assert(0 <= i * b) by (nonlinear_arith)
        requires
            0 <= i,
            0 < b,
    ;
    assert(0 <= (i * b + j) * w) by (nonlinear_arith)
        requires
            0 <= i * b + j,
            0 < w,
    ;
    assert((i * b + j) * w + rank < (i + 1) * wb) by (nonlinear_arith)
        requires
            j <= b - 1,
            rank <= w - 1,
            w > 0,
            wb == w * b,
    ;
}

impl PackedEpoch {
    /// Row `r`.
    pub open spec fn row(self, r: int) -> Seq<(u32, bool)> {
        self.tokens().subrange(
            r * self.row_capacity as int,
            r * self.row_capacity as int + self.row_capacity as int,
        )
    }

    /// The number of micro-batches of each rank.
    pub open spec fn batch_count(self, world: int, device_batch: int) -> int {
        self.row_count() / (world * device_batch)
    }

    /// The rows of a micro-batch.
    pub open spec fn batch_rows(
        self,
        i: int,
        rank: int,
        world: int,
        device_batch: int,
    ) -> Seq<Seq<(u32, bool)>> {
        Seq::new(
            device_batch as nat,
            |j: int| self.row(batch_row(i, j, rank, world, device_batch)),
        )
    }

    /// The inputs and targets of a micro-batch.
    pub open spec fn is_batch(
        self,
        b: FlatBatch,
        i: int,
        rank: int,
        world: int,
        device_batch: int,
    ) -> bool {
        let rows = self.batch_rows(i, rank, world, device_batch);
        &&& b.inputs@ == concat(Seq::new(rows.len(), |j: int| row_inputs(rows[j])))
        &&& b.targets@ == concat(Seq::new(rows.len(), |j: int| row_targets(rows[j])))
    }

    pub fn num_rows(&self) -> (n: usize)
        requires
            self.row_capacity > 0,
        ensures
            n == self.row_count(),
    {
        self.rows.len() / self.row_capacity
    }

    /// The length of a row: one more than the sequence length of the model.
    pub fn row_capacity(&self) -> (n: usize)
        ensures
            n == self.row_capacity,
    {
        self.row_capacity
    }

    /// The number of micro-batches of each rank. The rows that do not fill one
    /// for every rank are dropped.
    pub fn num_batches(&self, world: usize, device_batch: usize) -> (n: usize)
        requires
            self.row_capacity > 0,
            world >= 1,
            device_batch >= 1,
            world * device_batch <= usize::MAX,
        ensures
            n == self.batch_count(world as int, device_batch as int),
    {
        assert(world * device_batch >= 1) by (nonlinear_arith)
            requires
                world >= 1,
                device_batch >= 1,
        ;
        self.num_rows() / (world * device_batch)
    }

    /// Appends the inputs and targets of the row that starts at `start`.
    fn push_row(&self, start: usize, inputs: &mut Vec<u32>, targets: &mut Vec<i64>)
        requires
            self.wf(),
            start + self.row_capacity <= self.rows@.len(),
        ensures
            final(inputs)@ == old(inputs)@ + row_inputs(
                self.tokens().subrange(start as int, start + self.row_capacity),
            ),
            final(targets)@ == old(targets)@ + row_targets(
                self.tokens().subrange(start as int, start + self.row_capacity),
            ),
    {
        let ghost row = self.tokens().subrange(start as int, start + self.row_capacity);
        let count: usize = self.rows.len();
        let mut t: usize = 0;
        assert(inputs@ =~= old(inputs)@ + row_inputs(row).take(0));
        assert(targets@ =~= old(targets)@ + row_targets(row).take(0));
        while t < self.row_capacity - 1
            invariant
                self.wf(),
                count == self.rows@.len(),
                start + self.row_capacity <= count,
                row == self.tokens().subrange(start as int, start + self.row_capacity),
                t <= self.row_capacity - 1,
                inputs@ == old(inputs)@ + row_inputs(row).take(t as int),
                targets@ == old(targets)@ + row_targets(row).take(t as int),
            decreases self.row_capacity - t,
        {
            let ghost ins = inputs@;
            let ghost outs = targets@;
            inputs.push(self.rows[start + t]);
            let target: i64 = if self.mask[start + t + 1] {
                self.rows[start + t + 1] as i64
            } else {
                -1
            };
            targets.push(target);
            proof {
                assert(row[t as int].0 == self.rows@[start + t]);
                assert(row_inputs(row).take(t + 1) =~= row_inputs(row).take(t as int).push(
                    row_inputs(row)[t as int],
                ));
                assert(row_targets(row).take(t + 1) =~= row_targets(row).take(t as int).push(
                    row_targets(row)[t as int],
                ));
                assert(inputs@ =~= old(inputs)@ + row_inputs(row).take(t + 1));
                assert(targets@ =~= old(targets)@ + row_targets(row).take(t + 1));
            }
            t += 1;
        }
        assert(row_inputs(row).take(t as int) =~= row_inputs(row));
        assert(row_targets(row).take(t as int) =~= row_targets(row));
    }

    /// Micro-batch `i` of rank `rank`.
    pub fn batch(&self, i: usize, rank: usize, world: usize, device_batch: usize) -> (b: FlatBatch)
        requires
            self.wf(),
            rank < world,
            device_batch >= 1,
            world * device_batch <= usize::MAX,
            i < self.batch_count(world as int, device_batch as int),
        ensures
            self.is_batch(b, i as int, rank as int, world as int, device_batch as int),
    {
        let n: usize = self.num_rows();
        let total: usize = self.rows.len();
        let ghost all = self.batch_rows(i as int, rank as int, world as int, device_batch as int);
        let ghost ins = Seq::new(all.len(), |j: int| row_inputs(all[j]));
        let ghost outs = Seq::new(all.len(), |j: int| row_targets(all[j]));
        let mut inputs: Vec<u32> = Vec::new();
        let mut targets: Vec<i64> = Vec::new();
        let mut j: usize = 0;
        assert(ins.take(0) =~= Seq::empty());
        assert(outs.take(0) =~= Seq::empty());
        while j < device_batch
            invariant
                self.wf(),
                rank < world,
                device_batch >= 1,
                n == self.row_count(),
                total == self.rows@.len(),
                i < self.batch_count(world as int, device_batch as int),
                j <= device_batch,
                all == self.batch_rows(
                    i as int,
                    rank as int,
                    world as int,
                    device_batch as int,
                ),
                ins == Seq::new(all.len(), |j: int| row_inputs(all[j])),
                outs == Seq::new(all.len(), |j: int| row_targets(all[j])),
                inputs@ == concat(ins.take(j as int)),
                targets@ == concat(outs.take(j as int)),
            decreases device_batch - j,
        {
            let ghost r = batch_row(
                i as int,
                j as int,
                rank as int,
                world as int,
                device_batch as int,
            );
            proof {
                batch_rows_in_range(
                    i as int,
                    j as int,
                    rank as int,
                    world as int,
                    device_batch as int,
                    n as int,
                );
                self.lemma_row_bounds(r);
                let (x, y, b, w) = (i as int, j as int, device_batch as int, world as int);
                assert(x * b >= 0) by (nonlinear_arith)
                    requires
                        x >= 0,
                        b >= 0,
                ;
                assert((x * b + y) * w >= x * b + y) by (nonlinear_arith)
                    requires
                        x * b + y >= 0,
                        w >= 1,
                ;
            }
            let row: usize = (i * device_batch + j) * world + rank;
            assert(row == r && row * self.row_capacity + self.row_capacity <= total);
            self.push_row(row * self.row_capacity, &mut inputs, &mut targets);
            proof {
                assert(all[j as int] == self.row(r));
                assert(ins.take(j + 1).drop_last() =~= ins.take(j as int));
                assert(outs.take(j + 1).drop_last() =~= outs.take(j as int));
            }
            j += 1;
        }
        assert(ins.take(j as int) =~= ins);
        assert(outs.take(j as int) =~= outs);
        FlatBatch { inputs, targets }
    }

    /// A row of the epoch lies within it.
    proof fn lemma_row_bounds(self, r: int)
        requires
            self.wf(),
            0 <= r < self.row_count(),
        ensures
            0 <= r * self.row_capacity,
            r * self.row_capacity + self.row_capacity <= self.rows@.len(),
    {
        let c = self.row_capacity as int;
        let n = self.rows@.len() as int;
        vstd::arithmetic::div_mod::lemma_fundamental_div_mod(n, c);
        let q = n / c;
        assert(r * c + c <= c * q) by (nonlinear_arith)
            requires
                r + 1 <= q,
                c > 0,
        ;
        assert(0 <= r * c) by (nonlinear_arith)
            requires
                0 <= r,
                0 < c,
        ;
    }

    /// A fingerprint of the ids and the mask, in 44 bits. It depends on their
    /// order.
    pub fn digest(&self) -> (d: u64)
        requires
            self.rows@.len() == self.mask@.len(),
        ensures
            d == digest_fold(self.tokens()) >> 20,
            d < 0x1000_0000_0000,
    {
        let ghost all = self.tokens();
        let mut h: u64 = HASH_START;
        let mut i: usize = 0;
        assert(all.take(0) =~= Seq::empty());
        while i < self.rows.len()
            invariant
                self.rows@.len() == self.mask@.len(),
                all == self.tokens(),
                i <= self.rows@.len(),
                h == digest_fold(all.take(i as int)),
            decreases self.rows@.len() - i,
        {
            let flag: u64 = if self.mask[i] {
                0x1_0000_0000
            } else {
                0
            };
            proof {
                assert(all.take(i + 1).drop_last() =~= all.take(i as int));
                assert(all.take(i + 1).last() == (self.rows@[i as int], self.mask@[i as int]));
            }
            h = (h ^ ((self.rows[i] as u64) | flag)).wrapping_mul(HASH_PRIME);
            i += 1;
        }
        assert(all.take(i as int) =~= all);
        assert(h >> 20 < 0x1000_0000_0000u64) by (bit_vector);
        h >> 20
    }

    /// The micro-batches of one rank, in order.
    pub fn view(&self, rank: usize, world: usize, device_batch: usize) -> (v: EpochView<'_>)
        requires
            rank < world,
        ensures
            *v.epoch == *self,
            v.rank == rank,
            v.world == world,
            v.device_batch == device_batch,
            v.next == 0,
    {
        EpochView { epoch: self, rank, world, device_batch, next: 0 }
    }
}

/// A cursor over the micro-batches of one rank.
pub struct EpochView<'a> {
    pub epoch: &'a PackedEpoch,
    pub rank: usize,
    pub world: usize,
    pub device_batch: usize,
    pub next: usize,
}

/// All micro-batches of an epoch have been served.
#[derive(Debug, Clone, Copy, PartialEq, Eq, Structural)]
pub struct EpochExhausted {
    pub total: usize,
    pub world: usize,
    pub device_batch: usize,
}

impl EpochExhausted {
    /// The error as a sentence.
    pub open spec fn sentence(self) -> Seq<char> {
        "epoch view exhausted: "@ + decimal(self.total as nat) + " micro-batches served at world "@
            + decimal(self.world as nat) + " × device_batch "@ + decimal(self.device_batch as nat)
    }

    /// The error as a sentence.
    pub fn message(&self) -> (s: String)
        ensures
            s@ == self.sentence(),
    {
        let mut s = String::from_str("epoch view exhausted: ");
        push_decimal(&mut s, self.total as u64);
        s.append(" micro-batches served at world ");
        push_decimal(&mut s, self.world as u64);
        s.append(" × device_batch ");
        push_decimal(&mut s, self.device_batch as u64);
        s
    }
}

impl<'a> EpochView<'a> {
    /// The epoch is whole, the rank is one of the world, and the rows of a
    /// step can be counted.
    pub open spec fn wf(self) -> bool {
        &&& self.epoch.wf()
        &&& self.rank < self.world
        &&& self.device_batch >= 1
        &&& self.world * self.device_batch <= usize::MAX
    }

    /// The number of micro-batches that the view serves in all.
    pub fn num_batches(&self) -> (n: usize)
        requires
            self.wf(),
        ensures
            n == self.epoch.batch_count(self.world as int, self.device_batch as int),
    {
        self.epoch.num_batches(self.world, self.device_batch)
    }

    /// The next micro-batch, or an error once all have been served.
    pub fn next_batch(&mut self) -> (r: Result<FlatBatch, EpochExhausted>)
        requires
            old(self).wf(),
        ensures
            final(self).wf(),
            final(self).epoch == old(self).epoch,
            final(self).rank == old(self).rank,
            final(self).world == old(self).world,
            final(self).device_batch == old(self).device_batch,
            ({
                let total = old(self).epoch.batch_count(
                    old(self).world as int,
                    old(self).device_batch as int,
                );
                match r {
                    Ok(b) => {
                        &&& old(self).next < total
                        &&& final(self).next == old(self).next + 1
                        &&& old(self).epoch.is_batch(
                            b,
                            old(self).next as int,
                            old(self).rank as int,
                            old(self).world as int,
                            old(self).device_batch as int,
                        )
                    },
                    Err(e) => {
                        &&& old(self).next >= total
                        &&& final(self).next == old(self).next
                        &&& e.total == total
                        &&& e.world == old(self).world
                        &&& e.device_batch == old(self).device_batch
                    },
                }
            }),
    {
        let total: usize = self.num_batches();
        if self.next >= total {
            return Err(
                EpochExhausted { total, world: self.world, device_batch: self.device_batch },
            );
        }
        let b = self.epoch.batch(self.next, self.rank, self.world, self.device_batch);
        self.next += 1;
        Ok(b)
    }
}

// ---------------------------------------------------------------------------
// Laws of the batches
// ---------------------------------------------------------------------------

/// The micro-batches of all ranks partition the leading rows: each of the
/// first `batches * world * device_batch` rows is one row of one micro-batch of
/// one rank, and of no other.
pub proof fn batches_partition_the_leading_rows(
    r: int,
    rows: int,
    world: int,
    device_batch: int,
)
    requires
        world >= 1,
        device_batch >= 1,
        0 <= r < (rows / (world * device_batch)) * (world * device_batch),
    ensures
        ({
            let rank = r % world;
            let j = (r / world) % device_batch;
            let i = (r / world) / device_batch;
            &&& 0 <= rank < world
            &&& 0 <= j < device_batch
            &&& 0 <= i < rows / (world * device_batch)
            &&& batch_row(i, j, rank, world, device_batch) == r
        }),
        forall|i: int, j: int, rank: int|
            0 <= rank < world && 0 <= j < device_batch && 0 <= i && #[trigger] batch_row(
                i,
                j,
                rank,
                world,
                device_batch,
            ) == r ==> rank == r % world && j == (r / world) % device_batch && i == (r / world)
                / device_batch,
{
    let w = world;
    let b = device_batch;
    let n = rows / (w * b);
    let q = r / w;
    let i0 = q / b;
    let j0 = q % b;
    let k0 = r % w;
    vstd::arithmetic::div_mod::lemma_fundamental_div_mod(r, w);
    vstd::arithmetic::div_mod::lemma_mod_bound(r, w);
    vstd::arithmetic::div_mod::lemma_div_pos_is_pos(r, w);
    vstd::arithmetic::div_mod::lemma_fundamental_div_mod(q, b);
    vstd::arithmetic::div_mod::lemma_mod_bound(q, b);
    vstd::arithmetic::div_mod::lemma_div_pos_is_pos(q, b);
    assert(batch_row(i0, j0, k0, w, b) == r) by (nonlinear_arith)
        requires
            r == w * q + k0,
            q == b * i0 + j0,
            batch_row(i0, j0, k0, w, b) == (i0 * b + j0) * w + k0,
    ;
    assert(i0 < n) by (nonlinear_arith)
        requires
            r == w * q + k0,
            q == b * i0 + j0,
            0 <= k0,
            0 <= j0,
            w >= 1,
            b >= 1,
            r < n * (w * b),
    ;
    assert forall|i: int, j: int, rank: int|
        0 <= rank < world && 0 <= j < device_batch && 0 <= i && #[trigger] batch_row(
            i,
            j,
            rank,
            world,
            device_batch,
        ) == r implies rank == r % world && j == (r / world) % device_batch && i == (r / world)
        / device_batch by {
        let x = i * b + j;
        assert(r == x * w + rank);
        vstd::arithmetic::div_mod::lemma_fundamental_div_mod_converse(r, w, x, rank);
        vstd::arithmetic::div_mod::lemma_fundamental_div_mod_converse(x, b, i, j);
    }
}

/// How many of the first `rows` rows belong to `rank` when the ranks take turns.
pub open spec fn rank_rows(rows: int, world: int, rank: int) -> int
    decreases rows,
{
    if rows <= 0 {
        0
    } else {
        rank_rows(rows - 1, world, rank) + if (rows - 1) % world == rank {
            1int
        } else {
            0
        }
    }
}

/// Each full round gives a row to every rank, and the round that is not full to
/// the first ranks.
pub proof fn rounds_give_each_rank_a_row(rows: int, world: int, rank: int)
    requires
        rows >= 0,
        0 <= rank < world,
    ensures
        rank_rows(rows, world, rank) == rows / world + if rank < rows % world {
            1int
        } else {
            0
        },
    decreases rows,
{
    if rows == 0 {
        vstd::arithmetic::div_mod::lemma_small_mod(0, world as nat);
        vstd::arithmetic::div_mod::lemma_basic_div(0, world);
    } else {
        rounds_give_each_rank_a_row(rows - 1, world, rank);
        vstd::arithmetic::div_mod::lemma_fundamental_div_mod(rows - 1, world);
        vstd::arithmetic::div_mod::lemma_mod_bound(rows - 1, world);
        let q = (rows - 1) / world;
        let t = (rows - 1) % world;
        if t + 1 < world {
            assert(rows == q * world + (t + 1)) by (nonlinear_arith)
                requires
                    rows - 1 == world * q + t,
            ;
            vstd::arithmetic::div_mod::lemma_fundamental_div_mod_converse(rows, world, q, t + 1);
        } else {
            assert(rows == (q + 1) * world + 0) by (nonlinear_arith)
                requires
                    rows - 1 == world * q + t,
                    t + 1 == world,
            ;
            vstd::arithmetic::div_mod::lemma_fundamental_div_mod_converse(rows, world, q + 1, 0);
        }
    }
}

/// Every rank can serve the common number of micro-batches from its own rows,
/// and the last rank cannot serve more.
pub proof fn batches_are_what_the_slowest_rank_can_serve(
    rows: int,
    world: int,
    device_batch: int,
    rank: int,
)
    requires
        rows >= 0,
        world >= 1,
        device_batch >= 1,
        0 <= rank < world,
    ensures
        rank_rows(rows, world, rank) / device_batch >= rows / (world * device_batch),
        rank_rows(rows, world, world - 1) / device_batch == rows / (world * device_batch),
{
    rounds_give_each_rank_a_row(rows, world, rank);
    rounds_give_each_rank_a_row(rows, world, world - 1);
    vstd::arithmetic::div_mod::lemma_mod_bound(rows, world);
    vstd::arithmetic::div_mod::lemma_div_is_ordered(
        rows / world,
        rank_rows(rows, world, rank),
        device_batch,
    );
    vstd::arithmetic::div_mod::lemma_div_denominator(rows, world, device_batch);
}

/// Where the first token of every row is not scored, as many targets count as
/// tokens are scored: a row's targets leave out only its first token.
pub proof fn scored_tokens_are_the_unignored_targets(row: Seq<(u32, bool)>)
    requires
        row.len() >= 1,
        !row[0].1,
    ensures
        kept_targets(row_targets(row)) == scored_count(row),
{
    lemma_kept_targets(row, row.len() as int);
    assert(row.take(row.len() as int) =~= row);
    assert(row_targets(row).take(row.len() - 1) =~= row_targets(row));
}

/// The number of targets that are not ignored.
pub open spec fn kept_targets(targets: Seq<i64>) -> nat
    decreases targets.len(),
{
    if targets.len() == 0 {
        0
    } else {
        kept_targets(targets.drop_last()) + if targets.last() != -1 {
            1nat
        } else {
            0
        }
    }
}

proof fn lemma_kept_targets(row: Seq<(u32, bool)>, n: int)
    requires
        1 <= n <= row.len(),
        !row[0].1,
    ensures
        kept_targets(row_targets(row).take(n - 1)) == scored_count(row.take(n)),
    decreases n,
{
    if n == 1 {
        assert(row.take(1).drop_last() =~= Seq::empty());
        assert(scored_count(row.take(1).drop_last()) == 0);
        assert(row_targets(row).take(0) =~= Seq::empty());
    } else {
        lemma_kept_targets(row, n - 1);
        assert(row.take(n).drop_last() =~= row.take(n - 1));
        assert(row_targets(row).take(n - 1).drop_last() =~= row_targets(row).take(n - 2));
        assert(row_targets(row).take(n - 1).last() == row_targets(row)[n - 2]);
    }
}

} // verus!
