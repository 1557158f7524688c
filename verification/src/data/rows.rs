//! What is read from shards, and what rows of documents hold.
use vstd::prelude::*;

use super::download::{
    after_attempt, doubled, shard_job, shard_name, wanted_shards, without_slashes, Outcome,
    RetryPolicy, Step,
};
use super::loader::{
    doc_ids, filled, inputs_of, is_longest_fit, is_shortest, next_pick, placed, pool_after,
    refilled, refilled_at, targets_of,
};
use super::parquet::{all_texts, file_texts, shard_names, texts_from};
use crate::seqs::{concat, lemma_concat_even_at, lemma_concat_even_len};
use crate::spelling::padded_numerals_have_zeros_in_front;
use crate::text::zero_padded;
use crate::tokenizer::bpe::BpeTokenizer;

verus! {

// ---------------------------------------------------------------------------
// Which files
// ---------------------------------------------------------------------------

/// The shards wanted are those of the range and the validation shard, and no others;
/// those of the range come first, in order.
pub proof fn wanted_shards_are_the_range_and_the_pinned(
    start: int,
    num: int,
    val_shard: Option<usize>,
    s: usize,
)
    requires
        0 <= start,
        0 <= num,
        start + num <= usize::MAX,
    ensures
        wanted_shards(start, num, val_shard).contains(s) <==> start <= s < start + num || val_shard
            == Some(s),
        forall|i: int|
            0 <= i < num ==> #[trigger] wanted_shards(start, num, val_shard)[i] == start + i,
        num <= wanted_shards(start, num, val_shard).len() <= num + 1,
{
    let all = wanted_shards(start, num, val_shard);
    if start <= s < start + num {
        assert(all[s - start] == s);
    }
    if val_shard == Some(s) && !(start <= s < start + num) {
        assert(all[num] == s);
    }
}

/// Only slashes are taken off an address, all of them that stand at its end.
pub proof fn only_slashes_are_taken_off(s: Seq<char>)
    ensures
        ({
            let t = without_slashes(s);
            &&& t.len() <= s.len()
            &&& t == s.subrange(0, t.len() as int)
            &&& forall|i: int| t.len() <= i < s.len() ==> s[i] == '/'
            &&& t.len() > 0 ==> t[t.len() - 1] != '/'
        }),
    decreases s.len(),
{
    if s.len() > 0 && s.last() == '/' {
        let head = s.drop_last();
        only_slashes_are_taken_off(head);
        let t = without_slashes(head);
        assert(t =~= s.subrange(0, t.len() as int));
        assert forall|i: int| t.len() <= i < s.len() implies s[i] == '/' by {
            if i < head.len() {
                assert(head[i] == '/');
            }
        }
    } else {
        assert(s =~= s.subrange(0, s.len() as int));
    }
}

/// The shards among files are those whose names end in `.parquet`, with something
/// before it, in the order in which they were given.
pub proof fn shards_are_named_so(names: Seq<Seq<char>>)
    ensures
        shard_names(names) == names.filter(
            |n: Seq<char>|
                n.len() > 8 && n.subrange(n.len() - 8, n.len() as int) == ".parquet"@,
        ),
    decreases names.len(),
{
    reveal_strlit(".parquet");
    reveal(Seq::filter);
    if names.len() > 0 {
        shards_are_named_so(names.drop_last());
        let n = names.last();
        if n.len() > 8 {
            assert(n.subrange(n.len() - 8, n.len() as int) =~= n.skip(n.len() - 8));
        }
    }
}

// ---------------------------------------------------------------------------
// Which texts
// ---------------------------------------------------------------------------

proof fn lemma_texts_from(rows: Seq<Option<String>>, from: int)
    requires
        0 <= from <= rows.len(),
    ensures
        texts_from(rows, from) == rows.skip(from).filter(
            |r: Option<String>| r is Some,
        ).map_values(|r: Option<String>| r->0@),
    decreases rows.len() - from,
{
    let keep = |r: Option<String>| r is Some;
    let text = |r: Option<String>| r->0@;
    reveal(Seq::filter);
    if from < rows.len() {
        lemma_texts_from(rows, from + 1);
        let one = seq![rows[from]];
        let rest = rows.skip(from + 1);
        assert(rows.skip(from) =~= one + rest);
        Seq::filter_distributes_over_add(one, rest, keep);
        assert(one.drop_last() =~= Seq::empty());
        assert(one.drop_last().filter(keep) =~= Seq::empty());
        if rows[from] is Some {
            assert(one.filter(keep) =~= one);
            assert(rows.skip(from).filter(keep) =~= one + rest.filter(keep));
            assert(rows.skip(from).filter(keep).map_values(text) =~= seq![rows[from]->0@]
                + rest.filter(keep).map_values(text));
        } else {
            assert(one.filter(keep) =~= Seq::empty());
            assert(rows.skip(from).filter(keep) =~= rest.filter(keep));
        }
    } else {
        assert(rows.skip(from) =~= Seq::empty());
        assert(rows.skip(from).filter(keep) =~= Seq::empty());
        assert(rows.skip(from).filter(keep).map_values(text) =~= Seq::empty());
    }
}

/// The texts of a batch are its rows that are not null, each whole and in order.
pub proof fn batches_give_all_texts(rows: Seq<Option<String>>)
    ensures
        texts_from(rows, 0) == rows.filter(|r: Option<String>| r is Some).map_values(
            |r: Option<String>| r->0@,
        ),
{
    lemma_texts_from(rows, 0);
    assert(rows.skip(0) =~= rows);
}

/// The texts of a file are those of its batches, one batch behind the other, and
/// those of a number of files are those of each, one file behind the other.
pub proof fn files_give_all_texts(files: Seq<Vec<Vec<Option<String>>>>, n: int, m: int, f: int)
    requires
        0 <= n <= files.len(),
        0 <= f < files.len(),
        0 <= m <= files[f]@.len(),
    ensures
        file_texts(files[f]@, m) == concat(
            Seq::new(m as nat, |b: int| texts_from(files[f]@[b]@, 0)),
        ),
        all_texts(files, n) == concat(
            Seq::new(n as nat, |k: int| file_texts(files[k]@, files[k]@.len() as int)),
        ),
    decreases n + m,
{
    if m > 0 {
        files_give_all_texts(files, n, m - 1, f);
        assert(Seq::new(m as nat, |b: int| texts_from(files[f]@[b]@, 0)).drop_last() =~= Seq::new(
            (m - 1) as nat,
            |b: int| texts_from(files[f]@[b]@, 0),
        ));
    } else if n > 0 {
        files_give_all_texts(files, n - 1, 0, f);
        let all = |n: int|
            Seq::new(n as nat, |k: int| file_texts(files[k]@, files[k]@.len() as int));
        assert(all(n).drop_last() =~= all(n - 1));
    }
}

// ---------------------------------------------------------------------------
// Rows of documents
// ---------------------------------------------------------------------------

/// What goes into a gap is the longest document of the pool that fits, whole; or,
/// where none fits, as much as fits of the shortest.
pub proof fn gaps_take_the_longest_document_that_fits(
    pool: Seq<Seq<u32>>,
    gap: int,
    i: int,
)
    requires
        0 <= i < pool.len(),
        0 < gap,
    ensures
        pool[i].len() <= gap && (forall|j: int|
            0 <= j < pool.len() && (#[trigger] pool[j]).len() <= gap ==> pool[j].len()
                <= pool[i].len()) ==> placed(pool, gap).len() == pool[i].len() && exists|k: int|
            0 <= k < pool.len() && #[trigger] pool[k] == placed(pool, gap),
        (forall|j: int|
            0 <= j < pool.len() ==> gap < (#[trigger] pool[j]).len() && pool[i].len()
                <= pool[j].len()) ==> exists|k: int|
            0 <= k < pool.len() && (#[trigger] pool[k]).len() == pool[i].len() && placed(pool, gap)
                == pool[k].subrange(0, gap),
{
    let p = next_pick(pool, gap);
    super::loader::lemma_pick_in_range(pool, gap);
    if pool[i].len() <= gap && (forall|j: int|
        0 <= j < pool.len() && (#[trigger] pool[j]).len() <= gap ==> pool[j].len()
            <= pool[i].len()) {
        let k = lemma_longest(pool, gap, pool.len() as int, i);
        assert(is_longest_fit(pool, gap, k));
        let c = choose|c: int| is_longest_fit(pool, gap, c);
        assert(is_longest_fit(pool, gap, c));
        assert(p == c);
        assert(pool[p].len() <= pool[i].len());
        assert(pool[i].len() <= pool[p].len());
        assert(pool[p] == placed(pool, gap));
    }
    if forall|j: int|
        0 <= j < pool.len() ==> gap < (#[trigger] pool[j]).len() && pool[i].len()
            <= pool[j].len() {
        assert forall|c: int| !is_longest_fit(pool, gap, c) by {
            if 0 <= c < pool.len() {
                assert(gap < pool[c].len());
            }
        }
        let k = super::loader::lemma_shortest_below(pool, pool.len() as int);
        assert(is_shortest(pool, k));
        let c = choose|c: int| is_shortest(pool, c);
        assert(is_shortest(pool, c));
        assert(p == c);
        assert(pool[p].len() <= pool[i].len());
        assert(pool[p].len() >= pool[i].len());
        assert(gap < pool[p].len());
        assert(placed(pool, gap) =~= pool[p].subrange(0, gap));
    }
}

proof fn lemma_longest(pool: Seq<Seq<u32>>, gap: int, n: int, i: int) -> (k: int)
    requires
        0 <= i < n <= pool.len(),
        pool[i].len() <= gap,
    ensures
        0 <= k < n,
        pool[k].len() <= gap,
        forall|j: int|
            0 <= j < n && (#[trigger] pool[j]).len() <= gap ==> pool[j].len() < pool[k].len() || (
            pool[j].len() == pool[k].len() && j <= k),
    decreases n,
{
    if i < n - 1 {
        let k = lemma_longest(pool, gap, n - 1, i);
        if pool[n - 1].len() <= gap && pool[n - 1].len() >= pool[k].len() {
            n - 1
        } else {
            k
        }
    } else if exists|j: int| 0 <= j < n - 1 && (#[trigger] pool[j]).len() <= gap {
        let j = choose|j: int| 0 <= j < n - 1 && (#[trigger] pool[j]).len() <= gap;
        let k = lemma_longest(pool, gap, n - 1, j);
        if pool[i].len() >= pool[k].len() {
            i
        } else {
            k
        }
    } else {
        i
    }
}

/// A document that is placed leaves the pool, and no other does.
pub proof fn pools_lose_what_is_placed(pool: Seq<Seq<u32>>, gap: int)
    requires
        pool.len() > 0,
        gap >= 0,
    ensures
        pool_after(pool, gap).len() == pool.len() - 1,
        exists|k: int|
            0 <= k < pool.len() && (#[trigger] pool[k]).subrange(
                0,
                placed(pool, gap).len() as int,
            ) == placed(pool, gap) && pool_after(pool, gap).push(pool[k]).to_multiset()
                == pool.to_multiset(),
{
    broadcast use vstd::seq_lib::group_to_multiset_ensures;

    super::loader::lemma_pick_in_range(pool, gap);
    let k = next_pick(pool, gap);
    let after = pool_after(pool, gap);
    let n = pool.len() - 1;
    assert(pool[k].subrange(0, placed(pool, gap).len() as int) =~= placed(pool, gap));
    let last = pool.last();
    let head = pool.drop_last();
    assert(pool =~= head.push(last));
    assert(pool.to_multiset() =~= head.to_multiset().insert(last));
    if k == n {
        assert(after =~= head);
        assert(after.push(pool[k]).to_multiset() =~= pool.to_multiset());
    } else {
        assert(after =~= head.update(k, last));
        assert(head.update(k, last).to_multiset() =~= head.to_multiset().insert(last).remove(
            head[k],
        ));
        assert(after.push(pool[k]).to_multiset() =~= after.to_multiset().insert(pool[k]));
        assert(head.to_multiset().count(head[k]) > 0);
        assert(after.push(pool[k]).to_multiset() =~= pool.to_multiset());
    }
}

/// A pool is filled up behind what it holds, with the documents of the list in
/// order, and from the front of the list again behind its last.
pub proof fn pools_are_filled_in_order(
    docs: Seq<Seq<u32>>,
    pool: Seq<Seq<u32>>,
    at: int,
    size: int,
    i: int,
)
    requires
        docs.len() > 0,
        0 <= at < docs.len(),
        0 <= i,
        pool.len() + i < size,
    ensures
        refilled(docs, pool, at, size).len() == size,
        forall|k: int| 0 <= k < pool.len() ==> #[trigger] refilled(docs, pool, at, size)[k] == pool[k],
        refilled(docs, pool, at, size)[pool.len() + i] == docs[(at + i) % docs.len() as int],
        refilled_at(docs, pool, at, size) == (at + (size - pool.len())) % docs.len() as int,
{
}

/// A row is filled gap by gap: what goes into the gap, and then what goes into the
/// gap that is left, from the pool that is left.
pub proof fn rows_are_filled_gap_by_gap(
    docs: Seq<Seq<u32>>,
    pool: Seq<Seq<u32>>,
    at: int,
    size: int,
    gap: int,
)
    requires
        docs.len() > 0,
        size > 0,
        gap > 0,
        0 < placed(refilled(docs, pool, at, size), gap).len() <= gap,
    ensures
        ({
            let full = refilled(docs, pool, at, size);
            let next = placed(full, gap);
            let rest = filled(
                docs,
                pool_after(full, gap),
                refilled_at(docs, pool, at, size),
                size,
                gap - next.len(),
            );
            let row = filled(docs, pool, at, size, gap);
            &&& row.tokens == next + rest.tokens
            &&& row.pool == rest.pool
            &&& row.at == rest.at
        }),
        filled(docs, pool, at, size, 0).tokens.len() == 0,
        filled(docs, pool, at, size, 0).pool == pool,
{
}

/// What a row is given at a place is the token there, and what it predicts is the
/// token behind it; each row by itself.
pub proof fn targets_are_inputs_shifted(
    rows: Seq<u32>,
    batch_size: int,
    tokens_dim: int,
    r: int,
    t: int,
)
    requires
        rows.len() == batch_size * (tokens_dim + 1),
        0 <= r < batch_size,
        0 <= t < tokens_dim,
    ensures
        ({
            let at = r * (tokens_dim + 1) + t;
            let k = r * tokens_dim + t;
            &&& inputs_of(rows, batch_size, tokens_dim).len() == batch_size * tokens_dim
            &&& targets_of(rows, batch_size, tokens_dim).len() == batch_size * tokens_dim
            &&& 0 <= k < batch_size * tokens_dim
            &&& 0 <= at < rows.len() - 1
            &&& inputs_of(rows, batch_size, tokens_dim)[k] == rows[at]
            &&& targets_of(rows, batch_size, tokens_dim)[k] == rows[at + 1]
        }),
{
    let n = tokens_dim + 1;
    let ins = Seq::new(
        batch_size as nat,
        |r: int| super::loader::nth_row(rows, n, r).take(tokens_dim),
    );
    let outs = Seq::new(
        batch_size as nat,
        |r: int| super::loader::widened(super::loader::nth_row(rows, n, r).skip(1)),
    );
    assert forall|k: int| 0 <= k < batch_size implies 0 <= #[trigger] (k * n) && k * n + n
        <= rows.len() by {
        assert(0 <= k * n && k * n + n <= batch_size * n) by (nonlinear_arith)
            requires
                0 <= k,
                k + 1 <= batch_size,
                n > 0,
        ;
    }
    assert forall|k: int| 0 <= k < ins.len() implies (#[trigger] ins[k]).len() == tokens_dim by {
        assert(0 <= k * n && k * n + n <= rows.len());
    }
    assert forall|k: int| 0 <= k < outs.len() implies (#[trigger] outs[k]).len() == tokens_dim by {
        assert(0 <= k * n && k * n + n <= rows.len());
    }
    assert(0 <= r * n && r * n + n <= rows.len());
    lemma_concat_even_len(ins, tokens_dim);
    lemma_concat_even_len(outs, tokens_dim);
    lemma_concat_even_at(ins, tokens_dim, r);
    lemma_concat_even_at(outs, tokens_dim, r);
    let d = tokens_dim;
    assert(r * d + d <= batch_size * d) by (nonlinear_arith)
        requires
            r + 1 <= batch_size,
            d >= 0,
    ;
    assert(inputs_of(rows, batch_size, d)[r * d + t] == inputs_of(rows, batch_size, d).subrange(
        r * d,
        r * d + d,
    )[t]);
    assert(targets_of(rows, batch_size, d)[r * d + t] == targets_of(rows, batch_size, d).subrange(
        r * d,
        r * d + d,
    )[t]);
    assert(ins[r][t] == rows[r * n + t]);
    assert(outs[r][t] == rows[r * n + t + 1]);
}

/// A document is the id that begins one and the ids of its text, all of them; a text
/// without ids is none.
pub proof fn documents_begin_with_their_start(tok: BpeTokenizer, text: Seq<char>)
    ensures
        doc_ids(tok, text) is None <==> tok.text_ids(text).len() == 0,
        doc_ids(tok, text) matches Some(ids) ==> {
            &&& ids.len() == tok.text_ids(text).len() + 1
            &&& ids[0] == tok.first_special() as u32
            &&& forall|i: int|
                0 <= i < tok.text_ids(text).len() ==> #[trigger] ids[i + 1] == tok.text_ids(text)[i]
        },
{
}

/// Of documents that fit a gap and are equally long the last is placed, and of those
/// that are too long and equally short the first; and the last document of the pool
/// takes its place.
pub proof fn the_last_document_takes_the_place(pool: Seq<Seq<u32>>, gap: int, i: int)
    requires
        0 <= i < pool.len(),
        0 < gap,
        (pool[i].len() <= gap && forall|j: int|
            0 <= j < pool.len() && (#[trigger] pool[j]).len() <= gap ==> pool[j].len()
                < pool[i].len() || (pool[j].len() == pool[i].len() && j <= i)) || (forall|j: int|
            0 <= j < pool.len() ==> gap < (#[trigger] pool[j]).len() && (pool[i].len()
                < pool[j].len() || (pool[i].len() == pool[j].len() && i <= j))),
    ensures
        placed(pool, gap).len() == if pool[i].len() <= gap {
            pool[i].len() as int
        } else {
            gap
        },
        placed(pool, gap) == pool[i].subrange(0, placed(pool, gap).len() as int),
        pool_after(pool, gap).len() == pool.len() - 1,
        forall|k: int|
            0 <= k < pool.len() - 1 ==> #[trigger] pool_after(pool, gap)[k] == if k == i {
                pool[pool.len() - 1]
            } else {
                pool[k]
            },
{
    if pool[i].len() <= gap {
        assert(is_longest_fit(pool, gap, i));
        let c = choose|c: int| is_longest_fit(pool, gap, c);
        assert(is_longest_fit(pool, gap, c));
        assert(pool[c].len() <= gap);
        assert(c == i);
        assert(placed(pool, gap) =~= pool[i].subrange(0, pool[i].len() as int));
    } else {
        assert forall|c: int| !is_longest_fit(pool, gap, c) by {
            if 0 <= c < pool.len() {
                assert(gap < pool[c].len());
            }
        }
        assert(is_shortest(pool, i));
        let c = choose|c: int| is_shortest(pool, c);
        assert(is_shortest(pool, c));
        assert(pool[c].len() >= pool[i].len());
        assert(c == i);
        assert(placed(pool, gap) =~= pool[i].subrange(0, gap));
    }
}

/// A shard is fetched from the address without the slashes at its end, a slash and its
/// name, and saved under its name.
pub proof fn shards_are_fetched_by_name(base: Seq<char>, index: usize)
    ensures
        shard_job(base, index).0 == without_slashes(base) + (seq!['/'] + shard_name(index as int)),
        shard_job(base, index).1 == shard_name(index as int),
{
    reveal_strlit("/");
    assert(shard_job(base, index).0 =~= without_slashes(base) + (seq!['/'] + shard_name(
        index as int,
    )));
}

/// A shard's number stands in its name, in five digits at least, and is read back from
/// it.
pub proof fn shard_names_hold_their_number(index: nat)
    ensures
        ({
            let name = shard_name(index as int);
            let digits = name.subrange(6, name.len() - 8);
            &&& name.len() >= 19
            &&& name.subrange(0, 6) == "shard_"@
            &&& name.subrange(name.len() - 8, name.len() as int) == ".parquet"@
            &&& digits == zero_padded(index, 5)
        }),
{
    reveal_strlit("shard_");
    reveal_strlit(".parquet");
    let name = shard_name(index as int);
    padded_numerals_have_zeros_in_front(index, 5);
    assert(name.subrange(0, 6) =~= "shard_"@);
    assert(name.subrange(name.len() - 8, name.len() as int) =~= ".parquet"@);
    assert(name.subrange(6, name.len() - 8) =~= zero_padded(index, 5));
}

/// Each wait is twice the wait before it, and the first is twice the base; a file is
/// tried again as long as attempts are left, and only where it was not fetched.
pub proof fn waits_double(policy: RetryPolicy, attempt: u32)
    requires
        1 <= attempt < policy.max_attempts,
        policy.backoff_base_secs * doubled((attempt + 1) as nat) <= u64::MAX,
    ensures
        after_attempt(policy, attempt, true) == (Step::Settled { outcome: Outcome::Downloaded }),
        after_attempt(policy, attempt, false) matches Step::Retry { attempt: next, wait_secs } && {
            &&& next == attempt + 1
            &&& attempt == 1 ==> wait_secs == 2 * policy.backoff_base_secs
            &&& after_attempt(policy, next, false) matches Step::Retry {
                attempt: _,
                wait_secs: longer,
            } ==> longer == 2 * wait_secs
        },
        after_attempt(policy, policy.max_attempts, false) == (Step::Settled {
            outcome: Outcome::Failed,
        }),
{
    let b = policy.backoff_base_secs as int;
    let n = attempt as nat;
    let (x, y) = (doubled(n) as int, doubled((attempt + 1) as nat) as int);
    assert(y == 2 * x);
    assert(b * y == 2 * (b * x)) by (nonlinear_arith)
        requires
            y == 2 * x,
    ;
    assert(b * x >= 0) by (nonlinear_arith)
        requires
            b >= 0,
            x >= 0,
    ;
    if attempt == 1 {
        assert(doubled(0) == 1);
        assert(doubled(1) == 2);
        assert(b * x == 2 * b) by (nonlinear_arith)
            requires
                x == 2,
        ;
    }
}

} // verus!
