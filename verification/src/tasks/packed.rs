//! What a packed epoch holds, row by row and token by token.
use vstd::prelude::*;

use super::pack::{
    all_packable, all_row_tokens, batch_row, best_fit, fits, is_best_fit, kept_targets, packed_rows,
    packed_tokens, row_inputs, row_picks, row_rest, row_targets, row_tokens, scored_count,
    PackedEpoch,
};
use crate::data::batch::FlatBatch;
use crate::seqs::{concat, lemma_concat_even_at, lemma_concat_even_len};

verus! {

// ---------------------------------------------------------------------------
// Which conversation goes where
// ---------------------------------------------------------------------------

/// Whether conversation `i` is one of the next `window` and fits into the gap, none
/// of them that fits is longer, and none before it that fits is as long.
pub open spec fn goes_next(
    pending: Seq<Seq<(u32, bool)>>,
    window: int,
    gap: int,
    i: int,
) -> bool {
    &&& 0 <= i < pending.len()
    &&& i < window
    &&& 0 < pending[i].len() <= gap
    &&& forall|j: int|
        0 <= j < pending.len() && j < window && (#[trigger] pending[j]).len() <= gap ==> {
            &&& pending[j].len() <= pending[i].len()
            &&& j < i ==> pending[j].len() < pending[i].len()
        }
}

/// The longest conversation of the window that fits a row goes into it next, the
/// first of equals, and the row goes on with what is left of the window and of the
/// gap.
pub proof fn rows_take_the_longest_that_fits(
    pending: Seq<Seq<(u32, bool)>>,
    window: int,
    gap: int,
    i: int,
)
    requires
        goes_next(pending, window, gap, i),
    ensures
        row_picks(pending, window, gap) == seq![pending[i]] + row_picks(
            pending.remove(i),
            window,
            gap - pending[i].len(),
        ),
        row_rest(pending, window, gap) == row_rest(
            pending.remove(i),
            window,
            gap - pending[i].len(),
        ),
{
    assert(fits(pending, window, gap, i));
    assert forall|j: int| #[trigger] fits(pending, window, gap, j) implies pending[j].len()
        < pending[i].len() || (pending[j].len() == pending[i].len() && i <= j) by {
        assert(pending[j].len() <= gap);
    }
    assert(is_best_fit(pending, window, gap, i));
    let c = choose|c: int| is_best_fit(pending, window, gap, c);
    assert(is_best_fit(pending, window, gap, c));
    assert(fits(pending, window, gap, c));
    assert(c == i);
    assert(best_fit(pending, window, gap) == Some(i));
}

/// A row ends where none of the window fits, and not before.
pub proof fn rows_end_where_nothing_fits(
    pending: Seq<Seq<(u32, bool)>>,
    window: int,
    gap: int,
)
    requires
        forall|j: int|
            0 <= j < pending.len() && j < window ==> !(0 < (#[trigger] pending[j]).len() <= gap),
    ensures
        row_picks(pending, window, gap).len() == 0,
        row_rest(pending, window, gap) == pending,
{
    if best_fit(pending, window, gap) is Some {
        let c = choose|c: int| is_best_fit(pending, window, gap, c);
        assert(fits(pending, window, gap, c));
        assert(!(0 < pending[c].len() <= gap));
    }
}

/// As long as there are conversations there is another row, which is packed from
/// all that are left, and takes the first one that goes next.
pub proof fn rows_are_packed_until_none_is_left(
    pending: Seq<Seq<(u32, bool)>>,
    window: int,
    capacity: int,
    i: int,
)
    requires
        all_packable(pending, capacity),
        goes_next(pending, window, capacity, i),
    ensures
        packed_rows(pending, window, capacity).len() > 0,
        packed_rows(pending, window, capacity)[0] == row_picks(pending, window, capacity),
        packed_rows(pending, window, capacity).skip(1) == packed_rows(
            row_rest(pending, window, capacity),
            window,
            capacity,
        ),
        packed_rows(Seq::empty(), window, capacity).len() == 0,
{
    rows_take_the_longest_that_fits(pending, window, capacity, i);
    lemma_rest_is_shorter(pending.remove(i), window, capacity - pending[i].len());
    let rest = row_rest(pending, window, capacity);
    assert(rest.len() < pending.len());
    assert(packed_rows(pending, window, capacity).skip(1) =~= packed_rows(rest, window, capacity));
    rows_end_where_nothing_fits(Seq::empty(), window, capacity);
}

proof fn lemma_rest_is_shorter(pending: Seq<Seq<(u32, bool)>>, window: int, gap: int)
    ensures
        row_rest(pending, window, gap).len() <= pending.len(),
    decreases pending.len(),
{
    match best_fit(pending, window, gap) {
        Some(i) => {
            let c = choose|c: int| is_best_fit(pending, window, gap, c);
            assert(fits(pending, window, gap, c));
            lemma_rest_is_shorter(pending.remove(i), window, gap - pending[i].len());
        },
        None => {},
    }
}

// ---------------------------------------------------------------------------
// What stands in a row
// ---------------------------------------------------------------------------

/// A row holds its conversations one behind the other, and is filled up with
/// unscored document starts.
pub proof fn rows_hold_their_conversations(
    picks: Seq<Seq<(u32, bool)>>,
    capacity: int,
    bos: u32,
    t: int,
)
    requires
        concat(picks).len() <= capacity,
        0 <= t < capacity,
    ensures
        row_tokens(picks, capacity, bos).len() == capacity,
        row_tokens(picks, capacity, bos)[t] == if t < concat(picks).len() {
            concat(picks)[t]
        } else {
            (bos, false)
        },
{
}

/// The pack holds its rows one behind the other.
pub proof fn packs_hold_their_rows(
    convs: Seq<Seq<(u32, bool)>>,
    window: int,
    capacity: int,
    bos: u32,
    r: int,
)
    requires
        all_packable(convs, capacity),
        window > 0,
        capacity > 0,
        0 <= r < packed_rows(convs, window, capacity).len(),
    ensures
        0 <= r * capacity,
        r * capacity + capacity <= packed_tokens(convs, window, capacity, bos).len(),
        packed_tokens(convs, window, capacity, bos).subrange(r * capacity, r * capacity + capacity)
            == row_tokens(packed_rows(convs, window, capacity)[r], capacity, bos),
{
    let rows = packed_rows(convs, window, capacity);
    let all = all_row_tokens(rows, capacity, bos);
    assert forall|k: int| 0 <= k < all.len() implies (#[trigger] all[k]).len() == capacity by {
        super::pack::lemma_packed_rows(convs, window, capacity);
        assert(concat(rows[k]).len() <= capacity);
    }
    lemma_concat_even_at(all, capacity, r);
}

/// The scored tokens are counted one by one.
pub proof fn scored_tokens_count_once(tokens: Seq<(u32, bool)>, token: (u32, bool))
    ensures
        scored_count(tokens.push(token)) == scored_count(tokens) + if token.1 {
            1int
        } else {
            0
        },
        scored_count(Seq::empty()) == 0,
        scored_count(tokens) <= tokens.len(),
    decreases tokens.len(),
{
    assert(tokens.push(token).drop_last() =~= tokens);
    if tokens.len() > 0 {
        scored_tokens_count_once(tokens.drop_last(), token);
    }
}

/// What the model predicts at a place of a row is the token behind it, where that is
/// scored; and what it is given at the next place is that token.
pub proof fn targets_are_the_next_inputs(row: Seq<(u32, bool)>, t: int)
    requires
        0 <= t < row.len() - 1,
    ensures
        row_inputs(row).len() == row.len() - 1,
        row_targets(row).len() == row.len() - 1,
        row_inputs(row)[t] == row[t].0,
        t + 1 < row.len() - 1 && row[t + 1].1 ==> row_targets(row)[t] == row_inputs(row)[t + 1],
        row[t + 1].1 ==> row_targets(row)[t] == row[t + 1].0,
        !row[t + 1].1 ==> row_targets(row)[t] == -1,
{
}

/// The number of targets that are not ignored is counted one by one.
pub proof fn kept_targets_count_once(targets: Seq<i64>, target: i64)
    ensures
        kept_targets(targets.push(target)) == kept_targets(targets) + if target == -1 {
            0int
        } else {
            1
        },
        kept_targets(Seq::empty()) == 0,
{
    assert(targets.push(target).drop_last() =~= targets);
}

// ---------------------------------------------------------------------------
// What stands in a micro-batch
// ---------------------------------------------------------------------------

/// Row `j` of micro-batch `i` of a rank is the rank's row number `i` times the batch
/// plus `j`, where the ranks take the rows in turn; place `t` of it is given the
/// token there, and predicts the token behind it, or nothing where that is not
/// scored.
pub proof fn batches_hold_the_rows_of_their_rank(
    e: PackedEpoch,
    b: FlatBatch,
    i: int,
    rank: int,
    world: int,
    device_batch: int,
    j: int,
    t: int,
)
    requires
        e.wf(),
        e.is_batch(b, i, rank, world, device_batch),
        0 <= i < e.batch_count(world, device_batch),
        0 <= rank < world,
        0 <= j < device_batch,
        0 <= t < e.row_capacity - 1,
    ensures
        ({
            let n = e.row_capacity - 1;
            let at = ((i * device_batch + j) * world + rank) * e.row_capacity + t;
            &&& b.inputs@.len() == device_batch * n
            &&& b.targets@.len() == device_batch * n
            &&& 0 <= at < e.rows@.len() - 1
            &&& 0 <= j * n + t < device_batch * n
            &&& b.inputs@[j * n + t] == e.rows@[at]
            &&& b.targets@[j * n + t] == if e.mask@[at + 1] {
                e.rows@[at + 1] as i64
            } else {
                -1i64
            }
        }),
{
    let n = e.row_capacity - 1;
    let cap = e.row_capacity as int;
    let rows = e.batch_rows(i, rank, world, device_batch);
    let ins = Seq::new(rows.len(), |j: int| row_inputs(rows[j]));
    let outs = Seq::new(rows.len(), |j: int| row_targets(rows[j]));
    let r = (i * device_batch + j) * world + rank;
    assert forall|k: int| 0 <= k < device_batch implies (#[trigger] rows[k]).len() == cap by {
        super::pack::batch_rows_in_range(i, k, rank, world, device_batch, e.row_count());
        lemma_row_in_range(e, batch_row(i, k, rank, world, device_batch));
    }
    assert(rows[j].len() == cap);
    super::pack::batch_rows_in_range(i, j, rank, world, device_batch, e.row_count());
    lemma_row_in_range(e, r);
    assert forall|k: int| 0 <= k < ins.len() implies (#[trigger] ins[k]).len() == n by {
        assert(rows[k].len() == cap);
    }
    assert forall|k: int| 0 <= k < outs.len() implies (#[trigger] outs[k]).len() == n by {
        assert(rows[k].len() == cap);
    }
    lemma_concat_even_len(ins, n);
    lemma_concat_even_len(outs, n);
    lemma_concat_even_at(ins, n, j);
    lemma_concat_even_at(outs, n, j);
    assert(b.inputs@[j * n + t] == b.inputs@.subrange(j * n, j * n + n)[t]);
    assert(b.targets@[j * n + t] == b.targets@.subrange(j * n, j * n + n)[t]);
    assert(j * n + n <= device_batch * n) by (nonlinear_arith)
        requires
            j + 1 <= device_batch,
            n >= 0,
    ;
    assert(rows[j] == e.row(r));
    assert(e.row(r)[t] == e.tokens()[r * cap + t]);
    assert(e.row(r)[t + 1] == e.tokens()[r * cap + t + 1]);
}

proof fn lemma_row_in_range(e: PackedEpoch, r: int)
    requires
        e.wf(),
        0 <= r < e.row_count(),
    ensures
        0 <= r * e.row_capacity,
        r * e.row_capacity + e.row_capacity <= e.rows@.len(),
{
    let (n, cap) = (e.rows@.len() as int, e.row_capacity as int);
    vstd::arithmetic::div_mod::lemma_fundamental_div_mod(n, cap);
    let q = n / cap;
    assert(0 <= r * cap && r * cap + cap <= cap * q) by (nonlinear_arith)
        requires
            0 <= r,
            r + 1 <= q,
            cap > 0,
    ;
}

/// Each rank gets as many micro-batches as there are whole rounds of them in the rows,
/// and the rows are all tokens in rows of one length.
pub proof fn batches_are_whole_rounds(e: PackedEpoch, world: int, device_batch: int)
    requires
        e.wf(),
        0 < world,
        0 < device_batch,
    ensures
        ({
            let n = e.batch_count(world, device_batch);
            &&& 0 <= n
            &&& n * (world * device_batch) <= e.row_count() < (n + 1) * (world * device_batch)
            &&& e.row_count() * e.row_capacity == e.rows@.len()
            &&& e.tokens().len() == e.rows@.len()
        }),
        forall|i: int|
            0 <= i < e.rows@.len() ==> #[trigger] e.tokens()[i] == (e.rows@[i], e.mask@[i]),
{
    let (len, cap) = (e.rows@.len() as int, e.row_capacity as int);
    vstd::arithmetic::div_mod::lemma_fundamental_div_mod(len, cap);
    let rows = len / cap;
    assert(rows >= 0) by (nonlinear_arith)
        requires
            len == cap * rows,
            len >= 0,
            cap > 0,
    ;
    assert(rows * cap == cap * rows) by (nonlinear_arith);
    let per = world * device_batch;
    assert(per > 0) by (nonlinear_arith)
        requires
            per == world * device_batch,
            world > 0,
            device_batch > 0,
    ;
    vstd::arithmetic::div_mod::lemma_fundamental_div_mod(rows, per);
    vstd::arithmetic::div_mod::lemma_mod_bound(rows, per);
    let n = rows / per;
    vstd::arithmetic::div_mod::lemma_div_pos_is_pos(rows, per);
    assert(n * per == per * n && (n + 1) * per == per * n + per) by (nonlinear_arith);
}

} // verus!
