//! Packing documents into rows of one length for pretraining.
//!
//! A row is filled with the longest document of a pool that fits the gap, again
//! and again; where none fits, the shortest is cropped to the gap and its tail
//! dropped. So every row starts at the start of a document.
use vstd::prelude::*;
use vstd::slice::{slice_subrange, slice_to_vec};

use super::batch::FlatBatch;
use crate::seqs::concat;
use crate::text::views;
use crate::tokenizer::bpe::BpeTokenizer;
use crate::tokenizer::shared::TokenId;

verus! {

/// The size of the pool that a loader uses unless told otherwise.
pub const DEFAULT_BUFFER_SIZE: usize = 1000;

// ---------------------------------------------------------------------------
// Rows to batches
// ---------------------------------------------------------------------------

/// Row `r` of rows of `len` tokens.
pub open spec fn nth_row(rows: Seq<u32>, len: int, r: int) -> Seq<u32> {
    rows.subrange(r * len, r * len + len)
}

/// The tokens as targets.
pub open spec fn widened(s: Seq<u32>) -> Seq<i64> {
    Seq::new(s.len(), |i: int| s[i] as i64)
}

/// The inputs of all rows: each row without its last token.
pub open spec fn inputs_of(rows: Seq<u32>, batch_size: int, tokens_dim: int) -> Seq<u32> {
    concat(Seq::new(batch_size as nat, |r: int| nth_row(rows, tokens_dim + 1, r).take(tokens_dim)))
}

/// The targets of all rows: each row without its first token.
pub open spec fn targets_of(rows: Seq<u32>, batch_size: int, tokens_dim: int) -> Seq<i64> {
    concat(
        Seq::new(batch_size as nat, |r: int| widened(nth_row(rows, tokens_dim + 1, r).skip(1))),
    )
}

/// Splits rows into inputs and targets, each row by itself.
pub fn split_rows(rows: &[u32], batch_size: usize, tokens_dim: usize) -> (b: FlatBatch)
    requires
        rows@.len() == batch_size * (tokens_dim + 1),
        tokens_dim < usize::MAX,
    ensures
        b.inputs@ == inputs_of(rows@, batch_size as int, tokens_dim as int),
        b.targets@ == targets_of(rows@, batch_size as int, tokens_dim as int),
{
    let row_len: usize = tokens_dim + 1;
    let total: usize = rows.len();
    let ghost len = row_len as int;
    let ghost ins = Seq::new(batch_size as nat, |r: int| nth_row(rows@, len, r).take(len - 1));
    let ghost outs = Seq::new(batch_size as nat, |r: int| widened(nth_row(rows@, len, r).skip(1)));
    let mut inputs: Vec<u32> = Vec::new();
    let mut targets: Vec<i64> = Vec::new();
    let mut r: usize = 0;
    let mut start: usize = 0;
    assert(ins.take(0) =~= Seq::empty());
    assert(outs.take(0) =~= Seq::empty());
    while r < batch_size
        invariant
            r <= batch_size,
            len == row_len,
            row_len == tokens_dim + 1,
            total == rows@.len(),
            total == batch_size * row_len,
            start == r * row_len,
            ins == Seq::new(batch_size as nat, |r: int| nth_row(rows@, len, r).take(len - 1)),
            outs == Seq::new(batch_size as nat, |r: int| widened(nth_row(rows@, len, r).skip(1))),
            inputs@ == concat(ins.take(r as int)),
            targets@ == concat(outs.take(r as int)),
        decreases batch_size - r,
    {
        assert(start + row_len <= total) by (nonlinear_arith)
            requires
                start == r * row_len,
                r + 1 <= batch_size,
                total == batch_size * row_len,
        ;
        assert((r + 1) * row_len == r * row_len + row_len) by (nonlinear_arith);
        let ghost row = nth_row(rows@, len, r as int);
        let mut more = slice_to_vec(slice_subrange(rows, start, start + tokens_dim));
        assert(more@ =~= row.take(len - 1));
        inputs.append(&mut more);
        let ghost done = targets@;
        let mut t: usize = 1;
        assert(targets@ =~= done + widened(row.skip(1)).take(0));
        while t < row_len
            invariant
                1 <= t <= row_len,
                len == row_len,
                start + row_len <= total,
                total == rows@.len(),
                row == rows@.subrange(start as int, start + len),
                targets@ == done + widened(row.skip(1)).take(t - 1),
            decreases row_len - t,
        {
            targets.push(rows[start + t] as i64);
            proof {
                let w = widened(row.skip(1));
                assert(row.skip(1)[t - 1] == rows@[start + t]);
                assert(w.take(t as int) =~= w.take(t - 1).push(w[t - 1]));
                assert(targets@ =~= done + w.take(t as int));
            }
            t += 1;
        }
        proof {
            assert(widened(row.skip(1)).take(len - 1) =~= widened(row.skip(1)));
            assert(ins.take(r + 1).drop_last() =~= ins.take(r as int));
            assert(outs.take(r + 1).drop_last() =~= outs.take(r as int));
            assert(ins.take(r + 1).last() == row.take(len - 1));
            assert(outs.take(r + 1).last() == widened(row.skip(1)));
        }
        start += row_len;
        r += 1;
    }
    assert(ins.take(r as int) =~= ins);
    assert(outs.take(r as int) =~= outs);
    FlatBatch { inputs, targets }
}

// ---------------------------------------------------------------------------
// What packing is
// ---------------------------------------------------------------------------

/// Whether document `i` is the longest that fits the gap, and the last such.
pub open spec fn is_longest_fit(pool: Seq<Seq<u32>>, gap: int, i: int) -> bool {
    &&& 0 <= i < pool.len()
    &&& pool[i].len() <= gap
    &&& forall|j: int|
        0 <= j < pool.len() && (#[trigger] pool[j]).len() <= gap ==> pool[j].len()
            < pool[i].len() || (pool[j].len() == pool[i].len() && j <= i)
}

/// Whether document `i` is the shortest, and the first such.
pub open spec fn is_shortest(pool: Seq<Seq<u32>>, i: int) -> bool {
    &&& 0 <= i < pool.len()
    &&& forall|j: int|
        0 <= j < pool.len() ==> (#[trigger] pool[j]).len() > pool[i].len() || (pool[j].len()
            == pool[i].len() && i <= j)
}

/// The document that is placed next.
pub open spec fn next_pick(pool: Seq<Seq<u32>>, gap: int) -> int {
    if exists|i: int| is_longest_fit(pool, gap, i) {
        choose|i: int| is_longest_fit(pool, gap, i)
    } else {
        choose|i: int| is_shortest(pool, i)
    }
}

/// The pool without document `i`, whose place the last document takes.
pub open spec fn swapped_out(pool: Seq<Seq<u32>>, i: int) -> Seq<Seq<u32>> {
    pool.update(i, pool.last()).drop_last()
}

/// What is placed of a document: all of it, or as much as fits.
pub open spec fn cropped(doc: Seq<u32>, gap: int) -> Seq<u32> {
    if doc.len() <= gap {
        doc
    } else {
        doc.take(gap)
    }
}

/// What the next placement puts into the gap.
pub open spec fn placed(pool: Seq<Seq<u32>>, gap: int) -> Seq<u32> {
    cropped(pool[next_pick(pool, gap)], gap)
}

/// The pool after the next placement.
pub open spec fn pool_after(pool: Seq<Seq<u32>>, gap: int) -> Seq<Seq<u32>> {
    swapped_out(pool, next_pick(pool, gap))
}

proof fn lemma_pick(pool: Seq<Seq<u32>>, gap: int, i: int)
    requires
        is_longest_fit(pool, gap, i) || (is_shortest(pool, i) && forall|j: int|
            0 <= j < pool.len() ==> (#[trigger] pool[j]).len() > gap),
    ensures
        next_pick(pool, gap) == i,
{
    if is_longest_fit(pool, gap, i) {
        let c = choose|c: int| is_longest_fit(pool, gap, c);
        assert(is_longest_fit(pool, gap, c));
        assert(pool[c].len() <= gap && pool[i].len() <= gap);
    } else {
        assert forall|j: int| !is_longest_fit(pool, gap, j) by {}
        let c = choose|c: int| is_shortest(pool, c);
        assert(is_shortest(pool, c));
        assert(pool[c].len() >= pool[i].len());
    }
}

// ---------------------------------------------------------------------------
// The pool
// ---------------------------------------------------------------------------

/// The documents that the next placement can choose from.
pub struct DocPool {
    pub docs: Vec<Vec<u32>>,
}

impl DocPool {
    /// The documents of the pool.
    pub open spec fn view(self) -> Seq<Seq<u32>> {
        views(self.docs@)
    }

    /// The longest document that fits the gap, and the last such.
    fn longest_fit(&self, gap: usize) -> (r: Option<usize>)
        ensures
            match r {
                Some(i) => is_longest_fit(self@, gap as int, i as int),
                None => forall|j: int|
                    0 <= j < self@.len() ==> (#[trigger] self@[j]).len() > gap,
            },
    {
        let mut best: Option<usize> = None;
        let mut k: usize = 0;
        while k < self.docs.len()
            invariant
                k <= self.docs@.len(),
                match best {
                    Some(i) => {
                        &&& i < k
                        &&& self@[i as int].len() <= gap
                        &&& forall|j: int|
                            0 <= j < k && (#[trigger] self@[j]).len() <= gap ==> self@[j].len()
                                < self@[i as int].len() || (self@[j].len() == self@[i as int].len()
                                && j <= i)
                    },
                    None => forall|j: int| 0 <= j < k ==> (#[trigger] self@[j]).len() > gap,
                },
            decreases self.docs@.len() - k,
        {
            let len: usize = self.docs[k].len();
            assert(self@[k as int].len() == len);
            if len <= gap {
                match best {
                    None => {
                        best = Some(k);
                    },
                    Some(i) => {
                        if len >= self.docs[i].len() {
                            best = Some(k);
                        }
                    },
                }
            }
            k += 1;
        }
        best
    }

    /// The shortest document, and the first such.
    fn shortest(&self) -> (i: usize)
        requires
            self@.len() > 0,
        ensures
            is_shortest(self@, i as int),
    {
        let mut best: usize = 0;
        let mut k: usize = 1;
        while k < self.docs.len()
            invariant
                1 <= k <= self.docs@.len(),
                best < k,
                forall|j: int|
                    0 <= j < k ==> (#[trigger] self@[j]).len() > self@[best as int].len() || (
                    self@[j].len() == self@[best as int].len() && best <= j),
            decreases self.docs@.len() - k,
        {
            assert(self@[k as int].len() == self.docs@[k as int]@.len());
            if self.docs[k].len() < self.docs[best].len() {
                best = k;
            }
            k += 1;
        }
        best
    }

    /// Takes the next document out of the pool and appends what fits of it to
    /// `out`. Returns the number of tokens appended.
    pub fn place(&mut self, gap: usize, out: &mut Vec<u32>) -> (n: usize)
        requires
            old(self)@.len() > 0,
        ensures
            final(self)@ == pool_after(old(self)@, gap as int),
            final(out)@ == old(out)@ + placed(old(self)@, gap as int),
            n == placed(old(self)@, gap as int).len(),
            n <= gap,
            final(self)@.len() == old(self)@.len() - 1,
    {
        let ghost before = self@;
        let found = self.longest_fit(gap);
        let i: usize = match found {
            Some(i) => i,
            None => self.shortest(),
        };
        proof {
            lemma_pick(before, gap as int, i as int);
        }
        let doc = self.docs.swap_remove(i);
        assert(doc@ == before[i as int]);
        assert(self@ =~= swapped_out(before, i as int));
        let n: usize = if doc.len() <= gap {
            doc.len()
        } else {
            gap
        };
        let mut part = slice_to_vec(slice_subrange(doc.as_slice(), 0, n));
        assert(part@ =~= cropped(doc@, gap as int));
        out.append(&mut part);
        n
    }
}

// ---------------------------------------------------------------------------
// Rows from a list of documents that is read again and again
// ---------------------------------------------------------------------------

/// The pool filled up from a list that is read again and again, from `at` on.
pub open spec fn refilled(
    docs: Seq<Seq<u32>>,
    pool: Seq<Seq<u32>>,
    at: int,
    size: int,
) -> Seq<Seq<u32>> {
    if pool.len() < size {
        pool + Seq::new((size - pool.len()) as nat, |i: int| docs[(at + i) % docs.len() as int])
    } else {
        pool
    }
}

/// Where the list is read on after the pool is filled up.
pub open spec fn refilled_at(docs: Seq<Seq<u32>>, pool: Seq<Seq<u32>>, at: int, size: int) -> int {
    if pool.len() < size {
        (at + size - pool.len()) % docs.len() as int
    } else {
        at
    }
}

/// Tokens, with what is left for the next.
pub struct Packed {
    pub tokens: Seq<u32>,
    pub pool: Seq<Seq<u32>>,
    pub at: int,
}

/// The gap filled, document by document.
pub open spec fn filled(
    docs: Seq<Seq<u32>>,
    pool: Seq<Seq<u32>>,
    at: int,
    size: int,
    gap: int,
) -> Packed
    decreases gap,
{
    let full = refilled(docs, pool, at, size);
    let next = placed(full, gap);
    if gap <= 0 || next.len() == 0 || next.len() > gap {
        Packed { tokens: Seq::empty(), pool, at }
    } else {
        let rest = filled(
            docs,
            pool_after(full, gap),
            refilled_at(docs, pool, at, size),
            size,
            gap - next.len(),
        );
        Packed { tokens: next + rest.tokens, pool: rest.pool, at: rest.at }
    }
}

/// Rows one after the other.
pub open spec fn filled_rows(
    docs: Seq<Seq<u32>>,
    pool: Seq<Seq<u32>>,
    at: int,
    size: int,
    row_len: int,
    rows: int,
) -> Packed
    decreases rows,
{
    if rows <= 0 {
        Packed { tokens: Seq::empty(), pool, at }
    } else {
        let before = filled_rows(docs, pool, at, size, row_len, rows - 1);
        let row = filled(docs, before.pool, before.at, size, row_len);
        Packed { tokens: before.tokens + row.tokens, pool: row.pool, at: row.at }
    }
}

/// Whether no document is empty.
pub open spec fn none_empty(docs: Seq<Seq<u32>>) -> bool {
    forall|i: int| 0 <= i < docs.len() ==> (#[trigger] docs[i]).len() > 0
}

/// Assembles batches from a list of documents that is read again and again.
pub struct BatchAssembler {
    pub source: Vec<Vec<u32>>,
    pub at: usize,
    pub pool: DocPool,
    pub buffer_size: usize,
    pub batch_rows: usize,
    pub row_len: usize,
}

impl BatchAssembler {
    /// There are documents, none is empty, and the rows of a batch can be
    /// counted.
    pub open spec fn wf(self) -> bool {
        &&& self.source@.len() > 0
        &&& none_empty(views(self.source@))
        &&& none_empty(self.pool@)
        &&& self.at < self.source@.len()
        &&& self.pool@.len() <= self.buffer_size
        &&& self.buffer_size > 0
        &&& self.row_len > 0
        &&& self.batch_rows * self.row_len <= usize::MAX
    }

    /// Only the pool and the place in the list have changed.
    pub open spec fn same_setup(self, other: BatchAssembler) -> bool {
        &&& self.source == other.source
        &&& self.buffer_size == other.buffer_size
        &&& self.batch_rows == other.batch_rows
        &&& self.row_len == other.row_len
    }

    pub fn new(
        source: Vec<Vec<u32>>,
        batch_rows: usize,
        tokens_dim: usize,
        buffer_size: usize,
    ) -> (r: BatchAssembler)
        requires
            source@.len() > 0,
            none_empty(views(source@)),
            buffer_size > 0,
            batch_rows * (tokens_dim + 1) <= usize::MAX,
            tokens_dim < usize::MAX,
        ensures
            r.wf(),
            r.source == source,
            r.at == 0,
            r.pool@.len() == 0,
            r.buffer_size == buffer_size,
            r.batch_rows == batch_rows,
            r.row_len == tokens_dim + 1,
    {
        BatchAssembler {
            source,
            at: 0,
            pool: DocPool { docs: Vec::new() },
            buffer_size,
            batch_rows,
            row_len: tokens_dim + 1,
        }
    }

    /// Fills the pool up.
    pub fn refill_pool(&mut self)
        requires
            old(self).wf(),
        ensures
            final(self).wf(),
            final(self).same_setup(*old(self)),
            final(self).pool@ == refilled(
                views(old(self).source@),
                old(self).pool@,
                old(self).at as int,
                old(self).buffer_size as int,
            ),
            final(self).at == refilled_at(
                views(old(self).source@),
                old(self).pool@,
                old(self).at as int,
                old(self).buffer_size as int,
            ),
            final(self).pool@.len() == old(self).buffer_size,
    {
        let ghost docs = views(self.source@);
        let ghost n = docs.len() as int;
        let ghost before = self.pool@;
        let ghost at0 = self.at as int;
        let ghost mut k: int = 0;
        proof {
            vstd::arithmetic::div_mod::lemma_small_mod(at0 as nat, n as nat);
            assert(self.pool@ =~= before + Seq::new(0, |i: int| docs[(at0 + i) % n]));
        }
        while self.pool.docs.len() < self.buffer_size
            invariant
                self.wf(),
                self.same_setup(*old(self)),
                docs == views(old(self).source@),
                n == docs.len(),
                n > 0,
                k >= 0,
                self.pool@.len() == before.len() + k,
                before == old(self).pool@,
                at0 == old(self).at,
                self.pool@ == before + Seq::new(k as nat, |i: int| docs[(at0 + i) % n]),
                self.at == (at0 + k) % n,
            decreases self.buffer_size - self.pool@.len(),
        {
            let ghost old_pool = self.pool@;
            let doc = slice_to_vec(self.source[self.at].as_slice());
            proof {
                assert(docs[self.at as int] == doc@);
                assert(doc@.len() > 0);
            }
            self.pool.docs.push(doc);
            assert(self.pool@ =~= old_pool.push(doc@));
            proof {
                assert(Seq::new((k + 1) as nat, |i: int| docs[(at0 + i) % n]) =~= Seq::new(
                    k as nat,
                    |i: int| docs[(at0 + i) % n],
                ).push(docs[(at0 + k) % n]));
                assert(self.pool@ =~= before + Seq::new(
                    (k + 1) as nat,
                    |i: int| docs[(at0 + i) % n],
                ));
                vstd::arithmetic::div_mod::lemma_add_mod_noop(at0 + k, 1, n);
                lemma_step_mod(at0 + k, n);
                k = k + 1;
            }
            let last: usize = self.source.len() - 1;
            if self.at == last {
                self.at = 0;
            } else {
                self.at = self.at + 1;
            }
        }
        proof {
            if before.len() == self.buffer_size {
                assert(k == 0);
                assert(self.pool@ =~= before);
            }
        }
    }

    /// Appends one row to `out`.
    pub fn pack_row(&mut self, out: &mut Vec<u32>)
        requires
            old(self).wf(),
        ensures
            final(self).wf(),
            final(self).same_setup(*old(self)),
            ({
                let row = filled(
                    views(old(self).source@),
                    old(self).pool@,
                    old(self).at as int,
                    old(self).buffer_size as int,
                    old(self).row_len as int,
                );
                &&& final(out)@ == old(out)@ + row.tokens
                &&& row.tokens.len() == old(self).row_len
                &&& final(self).pool@ == row.pool
                &&& final(self).at == row.at
            }),
    {
        let ghost docs = views(self.source@);
        let ghost size = self.buffer_size as int;
        let ghost want = filled(docs, self.pool@, self.at as int, size, self.row_len as int);
        let ghost mut done: Seq<u32> = Seq::empty();
        let mut gap: usize = self.row_len;
        assert(done + want.tokens =~= want.tokens);
        assert(out@ =~= old(out)@ + done);
        while gap > 0
            invariant
                self.wf(),
                self.same_setup(*old(self)),
                docs == views(old(self).source@),
                size == self.buffer_size,
                gap <= self.row_len,
                done.len() + gap == self.row_len,
                out@ == old(out)@ + done,
                ({
                    let rest = filled(docs, self.pool@, self.at as int, size, gap as int);
                    &&& done + rest.tokens == want.tokens
                    &&& rest.pool == want.pool
                    &&& rest.at == want.at
                }),
            decreases gap,
        {
            let ghost rest = filled(docs, self.pool@, self.at as int, size, gap as int);
            let ghost pool0 = self.pool@;
            let ghost at0 = self.at as int;
            self.refill_pool();
            let ghost full = self.pool@;
            let n: usize = self.pool.place(gap, out);
            proof {
                let next = placed(full, gap as int);
                lemma_pick_in_range(full, gap as int);
                let p = next_pick(full, gap as int);
                assert(full[p].len() > 0);
                let tail = filled(
                    docs,
                    pool_after(full, gap as int),
                    refilled_at(docs, pool0, at0, size),
                    size,
                    gap - next.len(),
                );
                assert(rest.tokens == next + tail.tokens);
                assert(done + (next + tail.tokens) =~= (done + next) + tail.tokens);
                assert(out@ =~= old(out)@ + (done + next));
                done = done + next;
                let after = pool_after(full, gap as int);
                assert forall|i: int| 0 <= i < after.len() implies (#[trigger] after[i]).len()
                    > 0 by {
                    if i == p {
                        assert(after[i] == full.last());
                    } else {
                        assert(after[i] == full[i]);
                    }
                }
            }
            gap -= n;
        }
        proof {
            let rest = filled(docs, self.pool@, self.at as int, size, 0);
            assert(rest.tokens =~= Seq::empty());
            assert(done + rest.tokens =~= done);
        }
    }

    /// The rows of one batch.
    pub fn next_rows(&mut self) -> (rows: Vec<u32>)
        requires
            old(self).wf(),
        ensures
            final(self).wf(),
            final(self).same_setup(*old(self)),
            ({
                let want = filled_rows(
                    views(old(self).source@),
                    old(self).pool@,
                    old(self).at as int,
                    old(self).buffer_size as int,
                    old(self).row_len as int,
                    old(self).batch_rows as int,
                );
                &&& rows@ == want.tokens
                &&& final(self).pool@ == want.pool
                &&& final(self).at == want.at
            }),
            rows@.len() == old(self).batch_rows * old(self).row_len,
    {
        let ghost start = *self;
        let ghost docs = views(self.source@);
        let mut rows: Vec<u32> = Vec::new();
        let mut r: usize = 0;
        while r < self.batch_rows
            invariant
                self.wf(),
                self.same_setup(start),
                start == *old(self),
                docs == views(start.source@),
                r <= self.batch_rows,
                ({
                    let want = filled_rows(
                        docs,
                        start.pool@,
                        start.at as int,
                        start.buffer_size as int,
                        start.row_len as int,
                        r as int,
                    );
                    &&& rows@ == want.tokens
                    &&& self.pool@ == want.pool
                    &&& self.at == want.at
                }),
                rows@.len() == r * self.row_len,
            decreases self.batch_rows - r,
        {
            self.pack_row(&mut rows);
            assert((r + 1) * self.row_len == r * self.row_len + self.row_len) by (nonlinear_arith);
            r += 1;
        }
        rows
    }

    /// One batch.
    pub fn next_batch(&mut self) -> (b: FlatBatch)
        requires
            old(self).wf(),
        ensures
            final(self).wf(),
            final(self).same_setup(*old(self)),
            ({
                let want = filled_rows(
                    views(old(self).source@),
                    old(self).pool@,
                    old(self).at as int,
                    old(self).buffer_size as int,
                    old(self).row_len as int,
                    old(self).batch_rows as int,
                );
                &&& b.inputs@ == inputs_of(
                    want.tokens,
                    old(self).batch_rows as int,
                    old(self).row_len - 1,
                )
                &&& b.targets@ == targets_of(
                    want.tokens,
                    old(self).batch_rows as int,
                    old(self).row_len - 1,
                )
                &&& final(self).pool@ == want.pool
                &&& final(self).at == want.at
            }),
    {
        let rows = self.next_rows();
        split_rows(rows.as_slice(), self.batch_rows, self.row_len - 1)
    }
}

/// Reading on by one in a list that is read again and again.
proof fn lemma_step_mod(x: int, n: int)
    requires
        n > 0,
        x >= 0,
    ensures
        (x + 1) % n == if x % n + 1 == n {
            0
        } else {
            x % n + 1
        },
{
    vstd::arithmetic::div_mod::lemma_fundamental_div_mod(x, n);
    vstd::arithmetic::div_mod::lemma_mod_bound(x, n);
    let q = x / n;
    let r = x % n;
    if r + 1 == n {
        assert(x + 1 == (q + 1) * n + 0) by (nonlinear_arith)
            requires
                x == n * q + r,
                r + 1 == n,
        ;
        vstd::arithmetic::div_mod::lemma_fundamental_div_mod_converse(x + 1, n, q + 1, 0);
    } else {
        assert(x + 1 == q * n + (r + 1)) by (nonlinear_arith)
            requires
                x == n * q + r,
        ;
        vstd::arithmetic::div_mod::lemma_fundamental_div_mod_converse(x + 1, n, q, r + 1);
    }
}

/// Something is always picked from a pool that is not empty.
pub proof fn lemma_pick_in_range(pool: Seq<Seq<u32>>, gap: int)
    requires
        pool.len() > 0,
    ensures
        0 <= next_pick(pool, gap) < pool.len(),
{
    if !(exists|i: int| is_longest_fit(pool, gap, i)) {
        let i = lemma_shortest_below(pool, pool.len() as int);
        assert(is_shortest(pool, i));
    }
}

pub proof fn lemma_shortest_below(pool: Seq<Seq<u32>>, n: int) -> (i: int)
    requires
        0 < n <= pool.len(),
    ensures
        0 <= i < n,
        forall|j: int|
            0 <= j < n ==> (#[trigger] pool[j]).len() > pool[i].len() || (pool[j].len()
                == pool[i].len() && i <= j),
    decreases n,
{
    if n == 1 {
        0
    } else {
        let i = lemma_shortest_below(pool, n - 1);
        if pool[n - 1].len() < pool[i].len() {
            n - 1
        } else {
            i
        }
    }
}

/// Where every document begins with `bos`, so does every row.
pub proof fn rows_begin_as_documents_do(
    docs: Seq<Seq<u32>>,
    pool: Seq<Seq<u32>>,
    at: int,
    size: int,
    row_len: int,
    bos: u32,
)
    requires
        docs.len() > 0,
        size > 0,
        row_len > 0,
        forall|i: int|
            0 <= i < docs.len() ==> (#[trigger] docs[i]).len() > 0 && docs[i][0] == bos,
        forall|i: int|
            0 <= i < pool.len() ==> (#[trigger] pool[i]).len() > 0 && pool[i][0] == bos,
    ensures
        filled(docs, pool, at, size, row_len).tokens.len() > 0,
        filled(docs, pool, at, size, row_len).tokens[0] == bos,
{
    let full = refilled(docs, pool, at, size);
    assert forall|i: int| 0 <= i < full.len() implies (#[trigger] full[i]).len() > 0 && full[i][0]
        == bos by {
        if i < pool.len() {
            assert(full[i] == pool[i]);
        } else {
            let k = (at + (i - pool.len())) % docs.len() as int;
            vstd::arithmetic::div_mod::lemma_mod_bound(at + (i - pool.len()), docs.len() as int);
            assert(full[i] == docs[k]);
        }
    }
    lemma_pick_in_range(full, row_len);
    let p = next_pick(full, row_len);
    assert(full[p].len() > 0);
    assert(placed(full, row_len)[0] == full[p][0]);
}

// ---------------------------------------------------------------------------
// Rows from a stream of documents
// ---------------------------------------------------------------------------

/// The ids of a document: its start, then its text. `None` if the text has no
/// ids.
pub open spec fn doc_ids(tok: BpeTokenizer, text: Seq<char>) -> Option<Seq<u32>> {
    if tok.text_ids(text).len() == 0 {
        None
    } else {
        Some(seq![tok.first_special() as u32] + tok.text_ids(text))
    }
}

/// Encodes a document. The outer `None` says that the regex engine gave up on
/// the text, the inner that the text has no ids.
pub fn encode_doc(tokenizer: &BpeTokenizer, text: &str) -> (r: Option<Option<Vec<TokenId>>>)
    ensures
        match r {
            None => !BpeTokenizer::can_split(text@),
            Some(None) => BpeTokenizer::can_split(text@) && doc_ids(*tokenizer, text@) is None,
            Some(Some(ids)) => BpeTokenizer::can_split(text@) && doc_ids(*tokenizer, text@)
                == Some(ids@),
        },
{
    match tokenizer.encode_if_split(text) {
        None => None,
        Some(body) => {
            if body.len() == 0 {
                return Some(None);
            }
            let mut body = body;
            let mut ids: Vec<TokenId> = Vec::new();
            ids.push(tokenizer.bos_id());
            ids.append(&mut body);
            assert(doc_ids(*tokenizer, text@) == Some(ids@));
            Some(Some(ids))
        },
    }
}

/// A whole pass over the source gave no document.
#[derive(Debug, Clone, Copy, PartialEq, Eq, Structural)]
pub struct EmptyCorpus;

/// What the loader does next.
#[derive(Debug, Clone, PartialEq, Eq)]
pub enum LoaderAction {
    /// It needs a document, or to be told that the pass is over.
    NeedDoc,
    /// It has placed a document; ask again.
    Placed,
    /// A batch is done.
    Batch(FlatBatch),
}

/// Assembles batches from documents that are handed to it one by one.
pub struct DataLoader {
    pub pool: DocPool,
    pub rows: Vec<u32>,
    pub pass_has_docs: bool,
    pub buffer_size: usize,
    pub batch_size: usize,
    pub tokens_dim: usize,
}

impl DataLoader {
    /// The pool is no larger than it may be, and the rows hold no more than a
    /// batch.
    pub open spec fn wf(self) -> bool {
        &&& self.buffer_size > 0
        &&& self.pool@.len() <= self.buffer_size
        &&& self.tokens_dim < usize::MAX
        &&& self.batch_size * (self.tokens_dim + 1) <= usize::MAX
        &&& self.rows@.len() <= self.batch_size * (self.tokens_dim + 1)
    }

    pub open spec fn same_setup(self, other: DataLoader) -> bool {
        &&& self.buffer_size == other.buffer_size
        &&& self.batch_size == other.batch_size
        &&& self.tokens_dim == other.tokens_dim
    }

    /// What is missing of the row that is being filled.
    pub open spec fn gap(self) -> int {
        (self.tokens_dim + 1) - self.rows@.len() as int % (self.tokens_dim + 1)
    }

    /// A loader with an explicit pool size.
    pub fn open_with_buffer_size(
        batch_size: usize,
        tokens_dim: usize,
        buffer_size: usize,
    ) -> (r: DataLoader)
        requires
            buffer_size > 0,
            tokens_dim < usize::MAX,
            batch_size * (tokens_dim + 1) <= usize::MAX,
        ensures
            r.wf(),
            r.pool@.len() == 0,
            r.rows@.len() == 0,
            !r.pass_has_docs,
            r.buffer_size == buffer_size,
            r.batch_size == batch_size,
            r.tokens_dim == tokens_dim,
    {
        assert(batch_size * (tokens_dim + 1) >= 0) by (nonlinear_arith);
        DataLoader {
            pool: DocPool { docs: Vec::new() },
            rows: Vec::new(),
            pass_has_docs: false,
            buffer_size,
            batch_size,
            tokens_dim,
        }
    }

    /// A loader with the default pool size.
    pub fn open(batch_size: usize, tokens_dim: usize) -> (r: DataLoader)
        requires
            tokens_dim < usize::MAX,
            batch_size * (tokens_dim + 1) <= usize::MAX,
        ensures
            r.wf(),
            r.pool@.len() == 0,
            r.rows@.len() == 0,
            !r.pass_has_docs,
            r.buffer_size == DEFAULT_BUFFER_SIZE,
            r.batch_size == batch_size,
            r.tokens_dim == tokens_dim,
    {
        Self::open_with_buffer_size(batch_size, tokens_dim, DEFAULT_BUFFER_SIZE)
    }

    /// Takes a document into the pool.
    pub fn feed_doc(&mut self, doc: Vec<u32>)
        requires
            old(self).wf(),
            old(self).pool@.len() < old(self).buffer_size,
        ensures
            final(self).wf(),
            final(self).same_setup(*old(self)),
            final(self).pool@ == old(self).pool@.push(doc@),
            final(self).rows@ == old(self).rows@,
            final(self).pass_has_docs,
    {
        let ghost before = self.pool@;
        self.pool.docs.push(doc);
        self.pass_has_docs = true;
        assert(self.pool@ =~= before.push(doc@));
    }

    /// Notes that the pass over the source is over. A pass without documents is
    /// an error: another would give none either.
    pub fn end_pass(&mut self) -> (r: Result<(), EmptyCorpus>)
        requires
            old(self).wf(),
        ensures
            final(self).wf(),
            final(self).same_setup(*old(self)),
            final(self).pool@ == old(self).pool@,
            final(self).rows@ == old(self).rows@,
            !final(self).pass_has_docs,
            r is Ok <==> old(self).pass_has_docs,
    {
        let had: bool = self.pass_has_docs;
        self.pass_has_docs = false;
        if had {
            Ok(())
        } else {
            Err(EmptyCorpus)
        }
    }

    /// Goes on by one step: hands out a batch that is done, asks for a document
    /// while the pool is not full, and else places one.
    pub fn poll(&mut self) -> (r: LoaderAction)
        requires
            old(self).wf(),
        ensures
            final(self).wf(),
            final(self).same_setup(*old(self)),
            final(self).pass_has_docs == old(self).pass_has_docs,
            if old(self).rows@.len() == old(self).batch_size * (old(self).tokens_dim + 1) {
                &&& r matches LoaderAction::Batch(b)
                &&& b.inputs@ == inputs_of(
                    old(self).rows@,
                    old(self).batch_size as int,
                    old(self).tokens_dim as int,
                )
                &&& b.targets@ == targets_of(
                    old(self).rows@,
                    old(self).batch_size as int,
                    old(self).tokens_dim as int,
                )
                &&& final(self).rows@.len() == 0
                &&& final(self).pool@ == old(self).pool@
            } else if old(self).pool@.len() < old(self).buffer_size {
                &&& r is NeedDoc
                &&& final(self).rows@ == old(self).rows@
                &&& final(self).pool@ == old(self).pool@
            } else {
                &&& r is Placed
                &&& final(self).rows@ == old(self).rows@ + placed(
                    old(self).pool@,
                    old(self).gap(),
                )
                &&& final(self).pool@ == pool_after(old(self).pool@, old(self).gap())
            },
    {
        let row_len: usize = self.tokens_dim + 1;
        let total: usize = self.batch_size * row_len;
        if self.rows.len() == total {
            let b = split_rows(self.rows.as_slice(), self.batch_size, self.tokens_dim);
            self.rows = Vec::new();
            return LoaderAction::Batch(b);
        }
        if self.pool.docs.len() < self.buffer_size {
            return LoaderAction::NeedDoc;
        }
        let gap: usize = row_len - self.rows.len() % row_len;
        let ghost old_rows = self.rows@;
        proof {
            let n = old_rows.len() as int;
            let l = row_len as int;
            let b = self.batch_size as int;
            vstd::arithmetic::div_mod::lemma_fundamental_div_mod(n, l);
            let q = n / l;
            assert(q < b) by (nonlinear_arith)
                requires
                    n == l * q + n % l,
                    n < b * l,
                    l > 0,
                    n % l >= 0,
            ;
            assert(n + gap <= total) by (nonlinear_arith)
                requires
                    n == l * q + n % l,
                    gap == l - n % l,
                    q + 1 <= b,
                    total == b * l,
                    l > 0,
            ;
        }
        self.pool.place(gap, &mut self.rows);
        LoaderAction::Placed
    }
}

// ---------------------------------------------------------------------------
// Documents one by one, or in a list
// ---------------------------------------------------------------------------

/// What a loader comes to that is handed the documents of a list in order, again
/// and again, whenever it asks for one: the pool is filled up and a document is
/// placed in the gap of the current row, until there are `total` tokens.
pub open spec fn streamed(
    docs: Seq<Seq<u32>>,
    pool: Seq<Seq<u32>>,
    at: int,
    size: int,
    row_len: int,
    rows: Seq<u32>,
    total: int,
) -> Packed
    decreases total - rows.len(),
{
    let full = refilled(docs, pool, at, size);
    let gap = row_len - rows.len() as int % row_len;
    let next = placed(full, gap);
    if next.len() == 0 || rows.len() + next.len() > total {
        Packed { tokens: rows, pool, at }
    } else {
        streamed(
            docs,
            pool_after(full, gap),
            refilled_at(docs, pool, at, size),
            size,
            row_len,
            rows + next,
            total,
        )
    }
}

/// A pool that has been filled up holds no empty document, and reading goes on
/// at a document.
proof fn lemma_refilled(docs: Seq<Seq<u32>>, pool: Seq<Seq<u32>>, at: int, size: int)
    requires
        docs.len() > 0,
        none_empty(docs),
        none_empty(pool),
        0 <= at < docs.len(),
        0 < size,
    ensures
        none_empty(refilled(docs, pool, at, size)),
        refilled(docs, pool, at, size).len() > 0,
        0 <= refilled_at(docs, pool, at, size) < docs.len(),
{
    let full = refilled(docs, pool, at, size);
    let n = docs.len() as int;
    assert forall|i: int| 0 <= i < full.len() implies (#[trigger] full[i]).len() > 0 by {
        if i < pool.len() {
            assert(full[i] == pool[i]);
        } else {
            let k = (at + (i - pool.len())) % n;
            vstd::arithmetic::div_mod::lemma_mod_bound(at + (i - pool.len()), n);
            assert(full[i] == docs[k]);
        }
    }
    vstd::arithmetic::div_mod::lemma_mod_bound(at + size - pool.len(), n);
}

/// One document of the list more in the pool changes nothing in what the pool is
/// filled up to.
proof fn lemma_refilled_after_one(docs: Seq<Seq<u32>>, pool: Seq<Seq<u32>>, at: int, size: int)
    requires
        docs.len() > 0,
        0 <= at < docs.len(),
        pool.len() < size,
    ensures
        ({
            let n = docs.len() as int;
            let more = pool.push(docs[at]);
            &&& refilled(docs, more, (at + 1) % n, size) == refilled(docs, pool, at, size)
            &&& refilled_at(docs, more, (at + 1) % n, size) == refilled_at(docs, pool, at, size)
        }),
{
    let n = docs.len() as int;
    let more = pool.push(docs[at]);
    let a = refilled(docs, more, (at + 1) % n, size);
    let b = refilled(docs, pool, at, size);
    vstd::arithmetic::div_mod::lemma_small_mod(at as nat, n as nat);
    assert forall|i: int| 0 <= i < b.len() implies a[i] == b[i] by {
        if i > pool.len() {
            let k = i - more.len();
            vstd::arithmetic::div_mod::lemma_add_mod_noop_right(k, at + 1, n);
            assert((at + 1) + k == at + (i - pool.len()));
        }
    }
    assert(a =~= b);
    let left = size - more.len();
    vstd::arithmetic::div_mod::lemma_add_mod_noop_right(left, at + 1, n);
    assert((at + 1) + left == at + size - pool.len());
    assert((at + 1) % n + size - more.len() == (at + 1) % n + left);
    if left == 0 {
        vstd::arithmetic::div_mod::lemma_mod_twice(at + 1, n);
    }
}

/// What is missing of a row is not more than what is missing of the batch.
proof fn lemma_row_gap(rows: int, row_len: int, batch_size: int)
    requires
        0 < row_len,
        0 <= rows < batch_size * row_len,
    ensures
        0 < row_len - rows % row_len <= row_len,
        rows + (row_len - rows % row_len) <= batch_size * row_len,
{
    vstd::arithmetic::div_mod::lemma_fundamental_div_mod(rows, row_len);
    vstd::arithmetic::div_mod::lemma_mod_bound(rows, row_len);
    let q = rows / row_len;
    assert(q < batch_size) by (nonlinear_arith)
        requires
            rows == row_len * q + rows % row_len,
            rows < batch_size * row_len,
            row_len > 0,
            rows % row_len >= 0,
    ;
    assert(row_len * q + row_len <= batch_size * row_len) by (nonlinear_arith)
        requires
            q + 1 <= batch_size,
            row_len > 0,
    ;
}

/// A placement is not empty, and leaves no empty document in the pool.
proof fn lemma_placement(pool: Seq<Seq<u32>>, gap: int)
    requires
        pool.len() > 0,
        none_empty(pool),
        gap > 0,
    ensures
        0 < placed(pool, gap).len() <= gap,
        none_empty(pool_after(pool, gap)),
{
    lemma_pick_in_range(pool, gap);
    let p = next_pick(pool, gap);
    let after = pool_after(pool, gap);
    assert(pool[p].len() > 0);
    assert forall|i: int| 0 <= i < after.len() implies (#[trigger] after[i]).len() > 0 by {
        if i == p {
            assert(after[i] == pool.last());
        } else {
            assert(after[i] == pool[i]);
        }
    }
}

impl DataLoader {
    /// The next batch, where the documents of a list are handed over in order,
    /// again and again, from `at` on; and where reading goes on.
    pub fn next_batch(&mut self, docs: &Vec<Vec<u32>>, at: usize) -> (r: (FlatBatch, usize))
        requires
            old(self).wf(),
            none_empty(old(self).pool@),
            none_empty(views(docs@)),
            at < docs@.len(),
        ensures
            final(self).wf(),
            none_empty(final(self).pool@),
            final(self).same_setup(*old(self)),
            final(self).rows@.len() == 0,
            ({
                let batch_size = old(self).batch_size as int;
                let tokens_dim = old(self).tokens_dim as int;
                let want = streamed(
                    views(docs@),
                    old(self).pool@,
                    at as int,
                    old(self).buffer_size as int,
                    tokens_dim + 1,
                    old(self).rows@,
                    batch_size * (tokens_dim + 1),
                );
                &&& r.0.inputs@ == inputs_of(want.tokens, batch_size, tokens_dim)
                &&& r.0.targets@ == targets_of(want.tokens, batch_size, tokens_dim)
                &&& final(self).pool@ == want.pool
                &&& r.1 == want.at
            }),
            r.1 < docs@.len(),
            old(self).pass_has_docs == (at > 0) ==> final(self).pass_has_docs == (r.1 > 0),
    {
        let ghost list = views(docs@);
        let ghost size = self.buffer_size as int;
        let ghost len = self.tokens_dim + 1;
        let ghost total = self.batch_size * len;
        let ghost want = streamed(list, self.pool@, at as int, size, len, self.rows@, total);
        let mut next: usize = at;
        loop
            invariant
                self.wf(),
                none_empty(self.pool@),
                self.same_setup(*old(self)),
                list == views(docs@),
                none_empty(list),
                size == self.buffer_size,
                len == self.tokens_dim + 1,
                total == self.batch_size * len,
                next < docs@.len(),
                want == streamed(list, self.pool@, next as int, size, len, self.rows@, total),
                want == streamed(
                    list,
                    old(self).pool@,
                    at as int,
                    size,
                    len,
                    old(self).rows@,
                    total,
                ),
                old(self).pass_has_docs == (at > 0) ==> self.pass_has_docs == (next > 0),
            decreases total - self.rows@.len(), size - self.pool@.len(),
        {
            let ghost rows = self.rows@;
            let ghost pool = self.pool@;
            let ghost full = refilled(list, pool, next as int, size);
            let ghost gap = len - rows.len() as int % len;
            proof {
                lemma_refilled(list, pool, next as int, size);
                if rows.len() < total {
                    lemma_row_gap(rows.len() as int, len, self.batch_size as int);
                } else {
                    vstd::arithmetic::div_mod::lemma_mod_bound(rows.len() as int, len);
                }
                lemma_placement(full, gap);
            }
            match self.poll() {
                LoaderAction::Batch(b) => {
                    return (b, next);
                },
                LoaderAction::NeedDoc => {
                    let doc = slice_to_vec(docs[next].as_slice());
                    assert(doc@ == list[next as int]);
                    proof {
                        lemma_refilled_after_one(list, pool, next as int, size);
                        lemma_refilled(
                            list,
                            pool.push(list[next as int]),
                            (next + 1) % docs@.len() as int,
                            size,
                        );
                        vstd::arithmetic::div_mod::lemma_small_mod(next as nat, docs@.len());
                        lemma_step_mod(next as int, docs@.len() as int);
                    }
                    self.feed_doc(doc);
                    if next == docs.len() - 1 {
                        let _ = self.end_pass();
                        next = 0;
                    } else {
                        next += 1;
                    }
                },
                LoaderAction::Placed => {
                    assert(full == pool);
                },
            }
        }
    }
}

/// Filling a gap document by document is streaming up to the end of the row.
proof fn lemma_streamed_gap(
    docs: Seq<Seq<u32>>,
    pool: Seq<Seq<u32>>,
    at: int,
    size: int,
    row_len: int,
    rows: Seq<u32>,
    gap: int,
    total: int,
)
    requires
        docs.len() > 0,
        none_empty(docs),
        none_empty(pool),
        0 <= at < docs.len(),
        0 < size,
        0 < gap <= row_len,
        gap == row_len - rows.len() as int % row_len,
        rows.len() + gap <= total,
    ensures
        ({
            let row = filled(docs, pool, at, size, gap);
            &&& row.tokens.len() == gap
            &&& none_empty(row.pool)
            &&& 0 <= row.at < docs.len()
            &&& streamed(docs, pool, at, size, row_len, rows, total) == streamed(
                docs,
                row.pool,
                row.at,
                size,
                row_len,
                rows + row.tokens,
                total,
            )
        }),
    decreases gap,
{
    let full = refilled(docs, pool, at, size);
    let next = placed(full, gap);
    let at2 = refilled_at(docs, pool, at, size);
    let pool2 = pool_after(full, gap);
    lemma_refilled(docs, pool, at, size);
    lemma_pick_in_range(full, gap);
    let p = next_pick(full, gap);
    assert(full[p].len() > 0);
    assert(0 < next.len() <= gap);
    assert forall|i: int| 0 <= i < pool2.len() implies (#[trigger] pool2[i]).len() > 0 by {
        if i == p {
            assert(pool2[i] == full.last());
        } else {
            assert(pool2[i] == full[i]);
        }
    }
    let row = filled(docs, pool, at, size, gap);
    let rest = filled(docs, pool2, at2, size, gap - next.len());
    assert(row.tokens == next + rest.tokens);
    let n = rows.len() as int;
    let more = rows + next;
    vstd::arithmetic::div_mod::lemma_fundamental_div_mod(n, row_len);
    vstd::arithmetic::div_mod::lemma_mod_bound(n, row_len);
    if next.len() < gap {
        let q = n / row_len;
        let r = n % row_len + next.len();
        assert(more.len() as int == q * row_len + r) by (nonlinear_arith)
            requires
                n == row_len * q + n % row_len,
                more.len() == n + next.len(),
                r == n % row_len + next.len(),
        ;
        vstd::arithmetic::div_mod::lemma_fundamental_div_mod_converse(
            more.len() as int,
            row_len,
            q,
            r,
        );
        lemma_streamed_gap(docs, pool2, at2, size, row_len, more, gap - next.len(), total);
        assert(more + rest.tokens =~= rows + row.tokens);
    } else {
        assert(rest.tokens =~= Seq::empty());
        assert(more =~= rows + row.tokens);
    }
}

/// Filling rows is streaming up to their end.
proof fn lemma_streamed_rows(
    docs: Seq<Seq<u32>>,
    pool: Seq<Seq<u32>>,
    at: int,
    size: int,
    row_len: int,
    rows: int,
    total_rows: int,
)
    requires
        docs.len() > 0,
        none_empty(docs),
        none_empty(pool),
        0 <= at < docs.len(),
        0 < size,
        0 < row_len,
        0 <= rows <= total_rows,
    ensures
        ({
            let done = filled_rows(docs, pool, at, size, row_len, rows);
            let total = total_rows * row_len;
            &&& done.tokens.len() == rows * row_len
            &&& none_empty(done.pool)
            &&& 0 <= done.at < docs.len()
            &&& streamed(docs, pool, at, size, row_len, Seq::empty(), total) == streamed(
                docs,
                done.pool,
                done.at,
                size,
                row_len,
                done.tokens,
                total,
            )
        }),
    decreases rows,
{
    let total = total_rows * row_len;
    if rows > 0 {
        lemma_streamed_rows(docs, pool, at, size, row_len, rows - 1, total_rows);
        let before = filled_rows(docs, pool, at, size, row_len, rows - 1);
        vstd::arithmetic::div_mod::lemma_mod_multiples_basic(rows - 1, row_len);
        assert((rows - 1) * row_len + row_len == rows * row_len) by (nonlinear_arith);
        assert(rows * row_len <= total_rows * row_len) by (nonlinear_arith)
            requires
                rows <= total_rows,
                row_len > 0,
        ;
        lemma_streamed_gap(
            docs,
            before.pool,
            before.at,
            size,
            row_len,
            before.tokens,
            row_len,
            total,
        );
    } else {
        assert(filled_rows(docs, pool, at, size, row_len, 0).tokens =~= Seq::empty());
        assert(0 * row_len == 0) by (nonlinear_arith);
    }
}

/// A loader that is handed documents one by one packs the rows that an assembler
/// packs from the list of these documents, and is left with the same pool.
pub proof fn streaming_packs_as_assembling_does(
    docs: Seq<Seq<u32>>,
    pool: Seq<Seq<u32>>,
    at: int,
    size: int,
    row_len: int,
    rows: int,
)
    requires
        docs.len() > 0,
        none_empty(docs),
        none_empty(pool),
        0 <= at < docs.len(),
        0 < size,
        0 < row_len,
        0 <= rows,
    ensures
        streamed(docs, pool, at, size, row_len, Seq::empty(), rows * row_len) == filled_rows(
            docs,
            pool,
            at,
            size,
            row_len,
            rows,
        ),
{
    lemma_streamed_rows(docs, pool, at, size, row_len, rows, rows);
}

} // verus!
