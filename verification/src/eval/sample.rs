//! Continuing a sequence of tokens, one at a time.
use vstd::prelude::*;
use vstd::slice::slice_to_vec;

use crate::binary64::{total_place, Real, Real32, SIGN_BIT};
use crate::model::config::GptConfig;
use crate::model::kv_cache::KvCache;
use crate::tokenizer::shared::TokenId;

verus! {

// ---------------------------------------------------------------------------
// The bookkeeping of a generation
// ---------------------------------------------------------------------------

/// The sequence to continue is empty.
#[derive(Debug, Clone, Copy, PartialEq, Eq, Structural)]
pub struct EmptyPrefix;

impl EmptyPrefix {
    /// The error as a sentence.
    pub fn message(&self) -> (s: String)
        ensures
            s@ == "generate_ids: prefix must be non-empty"@,
    {
        String::from_str("generate_ids: prefix must be non-empty")
    }
}

/// What the model is to see: the last ids, as many as its context holds.
pub open spec fn window(ids: Seq<u32>, seq_len: int) -> Seq<u32> {
    if ids.len() > seq_len {
        ids.skip(ids.len() - seq_len)
    } else {
        ids
    }
}

/// What is to be done next.
#[derive(Debug, Clone, Copy, PartialEq, Eq, Structural)]
pub enum Next {
    /// Nothing more.
    Done,
    /// Give the model the ids from this place on, on top of what is cached.
    Feed { from: usize },
}

/// A sequence that is being continued, over a cache of the keys and values of
/// the ids that the model has seen.
pub struct Generation {
    /// The ids that it began with, and then the generated ones.
    pub ids: Vec<TokenId>,
    pub prefix_len: usize,
    pub max_tokens: usize,
    pub seq_len: usize,
    /// The ids that end it.
    pub stop: Vec<TokenId>,
    /// Whether one of them has come.
    pub stopped: bool,
    pub cache: KvCache,
    /// Where the ids begin that the model is being given.
    pub pending: Option<usize>,
    /// The ids that the cache holds.
    pub cached: Ghost<Seq<u32>>,
}

impl Generation {
    /// The bookkeeping is right: the cache has room for all that can come, and
    /// until the context is full it holds the ids but for the last.
    pub open spec fn wf(self) -> bool {
        &&& 1 <= self.prefix_len <= self.ids@.len()
        &&& self.ids@.len() - self.prefix_len <= self.max_tokens
        &&& self.prefix_len + self.max_tokens <= usize::MAX
        &&& self.seq_len >= 1
        &&& self.cache.wf()
        &&& self.cache.capacity == if self.seq_len < self.prefix_len + self.max_tokens {
            self.seq_len as int
        } else {
            self.prefix_len + self.max_tokens
        }
        &&& self.cache.len == self.cached@.len()
        &&& self.ids@.len() <= self.seq_len ==> {
            &&& self.cached@ == self.ids@.take(self.cache.len as int)
            &&& self.cache.len == if self.ids@.len() == self.prefix_len {
                0
            } else {
                self.ids@.len() - 1
            }
        }
        &&& self.stopped == (self.ids@.len() > self.prefix_len && self.stop@.contains(
            self.ids@.last(),
        ))
        &&& match self.pending {
            Some(from) => {
                &&& !self.done()
                &&& from < self.ids@.len()
                &&& self.cached@ + self.ids@.skip(from as int) == window(
                    self.ids@,
                    self.seq_len as int,
                )
                &&& self.cache.len + (self.ids@.len() - from) <= self.cache.capacity
            },
            None => true,
        }
    }

    /// Whether there is nothing more to generate.
    pub open spec fn done(self) -> bool {
        self.stopped || self.ids@.len() == self.prefix_len + self.max_tokens
    }

    /// The settings are those of another generation.
    pub open spec fn same_settings(self, other: Generation) -> bool {
        &&& self.prefix_len == other.prefix_len
        &&& self.max_tokens == other.max_tokens
        &&& self.seq_len == other.seq_len
        &&& self.stop@ == other.stop@
    }

    /// Begins to continue `prefix` by at most `max_tokens` ids.
    pub fn start(
        prefix: &[TokenId],
        max_tokens: usize,
        stop: &[TokenId],
        cfg: &GptConfig,
    ) -> (r: Result<Generation, EmptyPrefix>)
        requires
            cfg.sequence_len >= 1,
            prefix@.len() + max_tokens <= usize::MAX,
        ensures
            match r {
                Ok(g) => {
                    &&& prefix@.len() > 0
                    &&& g.wf()
                    &&& g.ids@ == prefix@
                    &&& g.prefix_len == prefix@.len()
                    &&& g.max_tokens == max_tokens
                    &&& g.seq_len == cfg.sequence_len
                    &&& g.stop@ == stop@
                    &&& g.pending is None
                },
                Err(_) => prefix@.len() == 0,
            },
    {
        if prefix.len() == 0 {
            return Err(EmptyPrefix);
        }
        let longest: usize = prefix.len() + max_tokens;
        let capacity: usize = if cfg.sequence_len < longest {
            cfg.sequence_len
        } else {
            longest
        };
        match KvCache::new(cfg, capacity) {
            Ok(cache) => {
                let g = Generation {
                    ids: slice_to_vec(prefix),
                    prefix_len: prefix.len(),
                    max_tokens,
                    seq_len: cfg.sequence_len,
                    stop: slice_to_vec(stop),
                    stopped: false,
                    cache,
                    pending: None,
                    cached: Ghost(Seq::empty()),
                };
                assert(g.cached@ =~= g.ids@.take(0));
                Ok(g)
            },
            Err(_) => {
                assert(false);
                Err(EmptyPrefix)
            },
        }
    }

    /// What to do next. What the cache holds and what the model is then given
    /// are together the last ids that fit the context; past a full context the
    /// cache begins anew, and before that the model is given, after the first
    /// time, the last id alone.
    pub fn next(&mut self) -> (r: Next)
        requires
            old(self).wf(),
            old(self).pending is None,
        ensures
            final(self).wf(),
            final(self).ids@ == old(self).ids@,
            final(self).stopped == old(self).stopped,
            final(self).same_settings(*old(self)),
            match r {
                Next::Done => {
                    &&& old(self).done()
                    &&& final(self).pending is None
                },
                Next::Feed { from } => {
                    let n = old(self).ids@.len() as int;
                    &&& !old(self).done()
                    &&& final(self).pending == Some(from)
                    &&& from == if n > old(self).seq_len {
                        n - old(self).seq_len
                    } else if n == old(self).prefix_len {
                        0
                    } else {
                        n - 1
                    }
                    &&& from < n
                    &&& final(self).cached@ + final(self).ids@.skip(from as int) == window(
                        final(self).ids@,
                        final(self).seq_len as int,
                    )
                    &&& final(self).cache.len + (n - from) <= final(self).cache.capacity
                },
            },
    {
        let n: usize = self.ids.len();
        if self.stopped || n - self.prefix_len == self.max_tokens {
            return Next::Done;
        }
        let start: usize = if n > self.seq_len {
            n - self.seq_len
        } else {
            0
        };
        if start > 0 {
            self.cache.reset();
            self.cached = Ghost(Seq::empty());
        }
        let pos: usize = self.cache.pos();
        let from: usize = if start < pos {
            pos
        } else {
            start
        };
        self.pending = Some(from);
        assert(self.cached@ + self.ids@.skip(from as int) =~= window(
            self.ids@,
            self.seq_len as int,
        ));
        Next::Feed { from }
    }

    /// Takes the id that was picked from what the model gave back. Whether it is
    /// to be shown: an id that ends the generation is kept, but not shown.
    pub fn sampled(&mut self, next: TokenId) -> (show: bool)
        requires
            old(self).wf(),
            old(self).pending is Some,
        ensures
            final(self).wf(),
            final(self).pending is None,
            final(self).ids@ == old(self).ids@.push(next),
            final(self).same_settings(*old(self)),
            final(self).cached@ == window(old(self).ids@, old(self).seq_len as int),
            final(self).stopped == old(self).stop@.contains(next),
            show == !final(self).stopped,
    {
        let n: usize = self.ids.len();
        let from: usize = self.pending.unwrap();
        let ghost seen = window(self.ids@, self.seq_len as int);
        self.cache.advance(n - from);
        self.cached = Ghost(seen);
        self.pending = None;
        self.ids.push(next);
        assert(self.ids@.take(n as int) =~= old(self).ids@);
        self.stopped = holds(&self.stop, next);
        assert(self.ids@.last() == next);
        !self.stopped
    }

    /// The generated ids, without those that it began with.
    pub fn into_generated(self) -> (out: Vec<TokenId>)
        requires
            self.wf(),
        ensures
            out@ == self.ids@.skip(self.prefix_len as int),
            out@.len() <= self.max_tokens,
    {
        let mut ids = self.ids;
        let out = ids.split_off(self.prefix_len);
        assert(out@ =~= self.ids@.skip(self.prefix_len as int));
        out
    }
}

fn holds(ids: &Vec<TokenId>, id: TokenId) -> (r: bool)
    ensures
        r == ids@.contains(id),
{
    let mut i: usize = 0;
    while i < ids.len()
        invariant
            i <= ids@.len(),
            forall|k: int| 0 <= k < i ==> ids@[k] != id,
        decreases ids@.len() - i,
    {
        if ids[i] == id {
            assert(ids@[i as int] == id);
            return true;
        }
        i += 1;
    }
    false
}

// ---------------------------------------------------------------------------
// Picking an id
// ---------------------------------------------------------------------------

/// Whether the highest score is always picked: the temperature is a number that
/// is not above zero.
pub fn is_greedy(temperature: Real) -> (r: bool)
    ensures
        r == (temperature.is_number() && temperature.place() <= 0),
{
    temperature.is_below_zero() || temperature.bits == 0 || temperature.bits == SIGN_BIT
}

/// Whether `i` holds the highest score, and is the last to do so.
pub open spec fn is_last_highest(scores: Seq<Real32>, i: int) -> bool {
    &&& 0 <= i < scores.len()
    &&& forall|k: int| 0 <= k < scores.len() ==> total_place(#[trigger] scores[k]) <= total_place(
        scores[i],
    )
    &&& forall|k: int| i < k < scores.len() ==> total_place(#[trigger] scores[k]) < total_place(
        scores[i],
    )
}

/// The id with the highest score; of several, the last.
pub fn argmax(scores: &Vec<Real32>) -> (r: usize)
    requires
        scores@.len() > 0,
    ensures
        is_last_highest(scores@, r as int),
{
    let mut best: usize = 0;
    let mut i: usize = 1;
    while i < scores.len()
        invariant
            1 <= i <= scores@.len(),
            best < i,
            forall|k: int|
                0 <= k < i ==> total_place(#[trigger] scores@[k]) <= total_place(
                    scores@[best as int],
                ),
            forall|k: int|
                best < k < i ==> total_place(#[trigger] scores@[k]) < total_place(
                    scores@[best as int],
                ),
        decreases scores@.len() - i,
    {
        if scores[i].order_key() >= scores[best].order_key() {
            best = i;
        }
        i += 1;
    }
    best
}

/// `slice::select_nth_unstable_by_key`, by the first number of each pair: no
/// pair is lost or added, what stands before place `k` is no greater than what
/// stands there, and what stands after it is no smaller.
#[verifier::external_body]
fn select_nth(items: &mut Vec<(i64, u32)>, k: usize)
    requires
        k < old(items)@.len(),
    ensures
        final(items)@.to_multiset() == old(items)@.to_multiset(),
        final(items)@.len() == old(items)@.len(),
        forall|i: int| 0 <= i < k ==> (#[trigger] final(items)@[i]).0 <= final(items)@[k as int].0,
        forall|i: int|
            k < i < final(items)@.len() ==> final(items)@[k as int].0 <= (
            #[trigger] final(items)@[i]).0,
{
    items.select_nth_unstable_by_key(k, |item| item.0);
}

/// Whether `ids` are ids with the highest scores: none outside them has a higher
/// score than one of them.
pub open spec fn are_highest(scores: Seq<Real32>, ids: Seq<u32>) -> bool {
    &&& ids.no_duplicates()
    &&& forall|i: int| 0 <= i < ids.len() ==> (#[trigger] ids[i]) < scores.len()
    &&& forall|i: int, j: int|
        0 <= i < ids.len() && 0 <= j < scores.len() && !ids.contains(j as u32) ==> total_place(
            #[trigger] scores[j],
        ) <= total_place(scores[(#[trigger] ids[i]) as int])
}

/// The ids to draw from: the `top_k` with the highest scores, in no particular
/// order; all of them, in order, if `top_k` is 0 or not below their number.
pub fn candidates(scores: &Vec<Real32>, top_k: usize) -> (ids: Vec<u32>)
    requires
        scores@.len() <= u32::MAX,
    ensures
        top_k == 0 || top_k >= scores@.len() ==> ids@ == Seq::new(
            scores@.len(),
            |i: int| i as u32,
        ),
        0 < top_k < scores@.len() ==> ids@.len() == top_k && are_highest(scores@, ids@),
{
    let n: usize = scores.len();
    let mut ids: Vec<u32> = Vec::new();
    if top_k == 0 || top_k >= n {
        let mut i: usize = 0;
        while i < n
            invariant
                i <= n,
                n == scores@.len(),
                n <= u32::MAX,
                ids@ =~= Seq::new(i as nat, |k: int| k as u32),
            decreases n - i,
        {
            ids.push(i as u32);
            i += 1;
        }
        return ids;
    }
    let mut items: Vec<(i64, u32)> = Vec::new();
    let mut i: usize = 0;
    while i < n
        invariant
            i <= n,
            n == scores@.len(),
            n <= u32::MAX,
            items@.len() == i,
            forall|k: int|
                0 <= k < i ==> #[trigger] items@[k] == (
                    (-total_place(scores@[k])) as i64,
                    k as u32,
                ),
        decreases n - i,
    {
        items.push((-scores[i].order_key(), i as u32));
        i += 1;
    }
    let ghost before = items@;
    select_nth(&mut items, top_k);
    let ghost after = items@;
    proof {
        broadcast use vstd::seq_lib::group_to_multiset_ensures;

        assert(before.no_duplicates());
        before.lemma_multiset_has_no_duplicates();
        after.lemma_multiset_has_no_duplicates_conv();
        assert forall|k: int| 0 <= k < n implies {
            let item = #[trigger] after[k];
            item.1 < n && item == before[item.1 as int]
        } by {
            assert(after.to_multiset().count(after[k]) > 0);
            assert(before.contains(after[k]));
            let j = choose|j: int| 0 <= j < before.len() && before[j] == after[k];
            assert(before[j].1 == j);
        }
    }
    let mut i: usize = 0;
    while i < top_k
        invariant
            i <= top_k,
            top_k < n,
            items@ == after,
            after.len() == n,
            ids@.len() == i,
            forall|k: int| 0 <= k < i ==> #[trigger] ids@[k] == after[k].1,
        decreases top_k - i,
    {
        ids.push(items[i].1);
        i += 1;
    }
    proof {
        assert forall|a: int, b: int| 0 <= a < ids@.len() && 0 <= b < ids@.len() && a
            != b implies ids@[a] != ids@[b] by {
            assert(after[a] == before[after[a].1 as int]);
            assert(after[b] == before[after[b].1 as int]);
            assert(after[a] != after[b]);
        }
        assert forall|i: int, j: int|
            0 <= i < ids@.len() && 0 <= j < scores@.len() && !ids@.contains(j as u32) implies
            total_place(#[trigger] scores@[j]) <= total_place(
            scores@[(#[trigger] ids@[i]) as int],
        ) by {
            broadcast use vstd::seq_lib::group_to_multiset_ensures;

            assert(before.to_multiset().count(before[j]) > 0);
            assert(after.contains(before[j]));
            let p = choose|p: int| 0 <= p < after.len() && after[p] == before[j];
            if p < top_k {
                assert(ids@[p] == after[p].1);
                assert(before[j].1 == j as u32);
                assert(ids@.contains(j as u32));
            }
            assert(after[top_k as int].0 <= after[p].0);
            assert(after[i].0 <= after[top_k as int].0);
            assert(after[i] == before[after[i].1 as int]);
        }
    }
    ids
}

/// Drawing from the single highest score is picking the highest score: the one
/// candidate has it, and is the id that `argmax` picks unless several have it.
pub proof fn one_candidate_is_greedy(scores: Seq<Real32>, ids: Seq<u32>, best: int)
    requires
        scores.len() <= u32::MAX,
        are_highest(scores, ids),
        ids.len() == 1,
        is_last_highest(scores, best),
    ensures
        total_place(scores[ids[0] as int]) == total_place(scores[best]),
        (forall|k: int|
            0 <= k < scores.len() && k != best ==> total_place(#[trigger] scores[k]) < total_place(
                scores[best],
            )) ==> ids[0] == best,
{
    assert(ids[0] < scores.len());
    if !ids.contains(best as u32) {
        assert(total_place(scores[best]) <= total_place(scores[ids[0] as int]));
    } else {
        assert(ids[0] == best as u32);
    }
}

} // verus!
