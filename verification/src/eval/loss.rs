//! Which positions a loss is counted at, and which batches a rank scores.
use vstd::prelude::*;

verus! {

/// How a position counts.
#[derive(Debug, Clone, Copy, PartialEq, Eq, Structural)]
pub enum Counted {
    /// Not at all.
    Ignored,
    /// Towards the loss per token only: its target stands for no bytes.
    Token,
    /// Towards the loss per token and the loss per byte.
    TokenAndBytes,
}

/// How a position counts: not with a negative target, and not towards the loss
/// per byte with a target that stands for no bytes.
pub open spec fn counted(target: i64, token_bytes: Seq<u32>) -> Counted {
    if target < 0 {
        Counted::Ignored
    } else if token_bytes[target as int] == 0 {
        Counted::Token
    } else {
        Counted::TokenAndBytes
    }
}

/// How many positions are not ignored.
pub open spec fn valid_count(targets: Seq<i64>) -> nat
    decreases targets.len(),
{
    if targets.len() == 0 {
        0
    } else {
        valid_count(targets.drop_last()) + if targets.last() < 0 {
            0nat
        } else {
            1
        }
    }
}

/// How many bytes the targets of the other positions stand for.
pub open spec fn byte_count(targets: Seq<i64>, token_bytes: Seq<u32>) -> nat
    decreases targets.len(),
{
    if targets.len() == 0 {
        0
    } else {
        byte_count(targets.drop_last(), token_bytes) + if targets.last() < 0 {
            0nat
        } else {
            token_bytes[targets.last() as int] as nat
        }
    }
}

/// Every target that is not ignored is a token.
pub open spec fn targets_known(targets: Seq<i64>, token_bytes: Seq<u32>) -> bool {
    forall|i: int| 0 <= i < targets.len() ==> (#[trigger] targets[i]) < token_bytes.len()
}

proof fn lemma_counts_grow(targets: Seq<i64>, token_bytes: Seq<u32>, k: int)
    requires
        0 <= k <= targets.len(),
    ensures
        valid_count(targets.take(k)) <= valid_count(targets),
        byte_count(targets.take(k), token_bytes) <= byte_count(targets, token_bytes),
    decreases targets.len() - k,
{
    if k < targets.len() {
        lemma_counts_grow(targets, token_bytes, k + 1);
        assert(targets.take(k + 1).drop_last() =~= targets.take(k));
    } else {
        assert(targets.take(k) =~= targets);
    }
}

/// What has been counted: tokens that are not ignored, and bytes that they stand
/// for.
#[derive(Debug, Clone, Copy, PartialEq, Eq, Structural)]
pub struct BpbAccumulator {
    pub valid_tokens: u64,
    pub bytes: u64,
}

impl Default for BpbAccumulator {
    /// Nothing.
    fn default() -> (a: BpbAccumulator)
        ensures
            a.valid_tokens == 0,
            a.bytes == 0,
    {
        BpbAccumulator { valid_tokens: 0, bytes: 0 }
    }
}

impl BpbAccumulator {
    /// Counts the positions of a batch, and tells how each counts.
    pub fn add(&mut self, targets: &Vec<i64>, token_bytes: &Vec<u32>) -> (out: Vec<Counted>)
        requires
            targets_known(targets@, token_bytes@),
            old(self).valid_tokens + valid_count(targets@) <= u64::MAX,
            old(self).bytes + byte_count(targets@, token_bytes@) <= u64::MAX,
        ensures
            final(self).valid_tokens == old(self).valid_tokens + valid_count(targets@),
            final(self).bytes == old(self).bytes + byte_count(targets@, token_bytes@),
            out@ == Seq::new(targets@.len(), |i: int| counted(targets@[i], token_bytes@)),
    {
        let mut out: Vec<Counted> = Vec::new();
        let mut i: usize = 0;
        assert(targets@.take(0) =~= Seq::empty());
        while i < targets.len()
            invariant
                i <= targets@.len(),
                targets_known(targets@, token_bytes@),
                old(self).valid_tokens + valid_count(targets@) <= u64::MAX,
                old(self).bytes + byte_count(targets@, token_bytes@) <= u64::MAX,
                self.valid_tokens == old(self).valid_tokens + valid_count(targets@.take(i as int)),
                self.bytes == old(self).bytes + byte_count(targets@.take(i as int), token_bytes@),
                out@ == Seq::new(i as nat, |k: int| counted(targets@[k], token_bytes@)),
            decreases targets@.len() - i,
        {
            let target: i64 = targets[i];
            proof {
                lemma_counts_grow(targets@, token_bytes@, i + 1);
                assert(targets@.take(i + 1).drop_last() =~= targets@.take(i as int));
                assert(targets@.take(i + 1).last() == target);
            }
            if target < 0 {
                out.push(Counted::Ignored);
            } else {
                let n: usize = token_bytes.len();
                assert(targets@[i as int] < n);
                let b: u32 = token_bytes[target as usize];
                self.valid_tokens = self.valid_tokens + 1;
                self.bytes = self.bytes + b as u64;
                if b > 0 {
                    out.push(Counted::TokenAndBytes);
                } else {
                    out.push(Counted::Token);
                }
            }
            i += 1;
            assert(out@ =~= Seq::new(i as nat, |k: int| counted(targets@[k], token_bytes@)));
        }
        assert(targets@.take(i as int) =~= targets@);
        out
    }
}

/// Two batches count as one batch of all their positions does.
pub proof fn counting_adds_up(a: Seq<i64>, b: Seq<i64>, token_bytes: Seq<u32>)
    ensures
        valid_count(a + b) == valid_count(a) + valid_count(b),
        byte_count(a + b, token_bytes) == byte_count(a, token_bytes) + byte_count(b, token_bytes),
    decreases b.len(),
{
    if b.len() == 0 {
        assert(a + b =~= a);
    } else {
        assert((a + b).drop_last() =~= a + b.drop_last());
        counting_adds_up(a, b.drop_last(), token_bytes);
    }
}

// ---------------------------------------------------------------------------
// Shards of the batches
// ---------------------------------------------------------------------------

/// The batches below `n` of a shard: every `num_shards`-th, from its own number
/// on.
pub open spec fn shard_of(n: int, shard_index: int, num_shards: int) -> Seq<usize>
    decreases n,
{
    if n <= 0 {
        Seq::empty()
    } else if (n - 1) % num_shards == shard_index {
        shard_of(n - 1, shard_index, num_shards).push((n - 1) as usize)
    } else {
        shard_of(n - 1, shard_index, num_shards)
    }
}

/// The batches of a shard.
pub fn shard_batches(n: usize, shard_index: usize, num_shards: usize) -> (out: Vec<usize>)
    requires
        shard_index < num_shards,
    ensures
        out@ == shard_of(n as int, shard_index as int, num_shards as int),
{
    let mut out: Vec<usize> = Vec::new();
    let mut i: usize = 0;
    while i < n
        invariant
            i <= n,
            shard_index < num_shards,
            out@ == shard_of(i as int, shard_index as int, num_shards as int),
        decreases n - i,
    {
        if i % num_shards == shard_index {
            out.push(i);
        }
        i += 1;
    }
    out
}

/// The sum of a shard's numbers.
pub open spec fn shard_sum(numbers: Seq<int>, shard_index: int, num_shards: int) -> int
    decreases numbers.len(),
{
    if numbers.len() == 0 {
        0
    } else {
        shard_sum(numbers.drop_last(), shard_index, num_shards) + if (numbers.len() - 1)
            % num_shards == shard_index {
            numbers.last()
        } else {
            0
        }
    }
}

/// The sum of the numbers of the first `k` shards.
pub open spec fn shards_sum(numbers: Seq<int>, k: int, num_shards: int) -> int
    decreases k,
{
    if k <= 0 {
        0
    } else {
        shards_sum(numbers, k - 1, num_shards) + shard_sum(numbers, k - 1, num_shards)
    }
}

/// The sum of all numbers.
pub open spec fn sum(numbers: Seq<int>) -> int
    decreases numbers.len(),
{
    if numbers.len() == 0 {
        0
    } else {
        sum(numbers.drop_last()) + numbers.last()
    }
}

proof fn lemma_shards_sum(numbers: Seq<int>, k: int, num_shards: int)
    requires
        numbers.len() > 0,
        0 <= k <= num_shards,
        num_shards > 0,
    ensures
        shards_sum(numbers, k, num_shards) == shards_sum(numbers.drop_last(), k, num_shards) + if (
        numbers.len() - 1) % num_shards < k {
            numbers.last()
        } else {
            0
        },
    decreases k,
{
    if k > 0 {
        lemma_shards_sum(numbers, k - 1, num_shards);
    }
}

proof fn lemma_no_numbers(k: int, num_shards: int)
    ensures
        shards_sum(Seq::empty(), k, num_shards) == 0,
    decreases k,
{
    if k > 0 {
        lemma_no_numbers(k - 1, num_shards);
    }
}

/// What is summed shard by shard, whatever it is, comes to the sum over all
/// batches.
pub proof fn shards_partition_the_batches(numbers: Seq<int>, num_shards: int)
    requires
        num_shards > 0,
    ensures
        shards_sum(numbers, num_shards, num_shards) == sum(numbers),
    decreases numbers.len(),
{
    if numbers.len() == 0 {
        assert(numbers =~= Seq::empty());
        lemma_no_numbers(num_shards, num_shards);
    } else {
        lemma_shards_sum(numbers, num_shards, num_shards);
        shards_partition_the_batches(numbers.drop_last(), num_shards);
    }
}

/// Every batch belongs to exactly one shard.
pub proof fn shards_hold_each_batch_once(n: int, i: int, shard_index: int, num_shards: int)
    requires
        0 <= n <= usize::MAX,
        0 <= i < n,
        0 <= shard_index < num_shards,
    ensures
        shard_of(n, shard_index, num_shards).contains(i as usize) <==> i % num_shards
            == shard_index,
    decreases n,
{
    let before = shard_of(n - 1, shard_index, num_shards);
    let all = shard_of(n, shard_index, num_shards);
    if i < n - 1 {
        shards_hold_each_batch_once(n - 1, i, shard_index, num_shards);
        if before.contains(i as usize) {
            let k = choose|k: int| 0 <= k < before.len() && before[k] == i as usize;
            assert(all[k] == i as usize);
        }
        if all.contains(i as usize) {
            let k = choose|k: int| 0 <= k < all.len() && all[k] == i as usize;
            assert(k < before.len());
            assert(before[k] == i as usize);
        }
    } else {
        if i % num_shards == shard_index {
            assert(all.last() == i as usize);
        } else {
            lemma_shard_below(n - 1, shard_index, num_shards);
        }
    }
}

proof fn lemma_shard_below(n: int, shard_index: int, num_shards: int)
    requires
        n <= usize::MAX,
    ensures
        forall|k: int|
            0 <= k < shard_of(n, shard_index, num_shards).len() ==> #[trigger] shard_of(
                n,
                shard_index,
                num_shards,
            )[k] < n,
    decreases n,
{
    if n > 0 {
        lemma_shard_below(n - 1, shard_index, num_shards);
        let before = shard_of(n - 1, shard_index, num_shards);
        let all = shard_of(n, shard_index, num_shards);
        assert forall|k: int| 0 <= k < all.len() implies #[trigger] all[k] < n by {
            if k < before.len() {
                assert(before[k] < n - 1);
            }
        }
    }
}

/// One position counts once, with exactly the bytes of its target, unless its
/// target is negative.
pub proof fn positions_count_their_bytes(target: i64, token_bytes: Seq<u32>)
    requires
        target < token_bytes.len(),
    ensures
        target < 0 ==> {
            &&& valid_count(seq![target]) == 0
            &&& byte_count(seq![target], token_bytes) == 0
            &&& counted(target, token_bytes) == Counted::Ignored
        },
        target >= 0 ==> {
            &&& valid_count(seq![target]) == 1
            &&& byte_count(seq![target], token_bytes) == token_bytes[target as int]
            &&& counted(target, token_bytes) == Counted::Token <==> token_bytes[target as int] == 0
            &&& counted(target, token_bytes) == Counted::TokenAndBytes <==> token_bytes[target as int]
                > 0
        },
        valid_count(Seq::empty()) == 0,
        byte_count(Seq::empty(), token_bytes) == 0,
{
    assert(seq![target].drop_last() =~= Seq::empty());
    assert(valid_count(seq![target].drop_last()) == 0);
    assert(byte_count(seq![target].drop_last(), token_bytes) == 0);
}

/// The bytes that are counted are added up over the positions: with a position
/// more there are exactly the bytes of its target more.
pub proof fn each_position_adds_its_bytes(targets: Seq<i64>, target: i64, token_bytes: Seq<u32>)
    requires
        target < token_bytes.len(),
    ensures
        byte_count(targets.push(target), token_bytes) - byte_count(targets, token_bytes)
            == if target >= 0 {
            token_bytes[target as int] as int
        } else {
            0
        },
        valid_count(targets.push(target)) - valid_count(targets) == if target >= 0 {
            1int
        } else {
            0
        },
{
    assert(targets.push(target).drop_last() =~= targets);
}

/// A shard's batches come in order, each once.
pub proof fn shards_are_in_order(n: int, shard_index: int, num_shards: int, a: int, b: int)
    requires
        0 <= n <= usize::MAX,
        0 <= a < b < shard_of(n, shard_index, num_shards).len(),
    ensures
        shard_of(n, shard_index, num_shards)[a] < shard_of(n, shard_index, num_shards)[b] < n,
    decreases n,
{
    let before = shard_of(n - 1, shard_index, num_shards);
    lemma_shard_below(n - 1, shard_index, num_shards);
    if b < before.len() {
        shards_are_in_order(n - 1, shard_index, num_shards, a, b);
    }
}

} // verus!
