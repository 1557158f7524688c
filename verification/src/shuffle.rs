//! Seeded shuffling.
use rand::seq::SliceRandom;
use rand::SeedableRng;
use rand_chacha::ChaCha8Rng;
use vstd::prelude::*;

verus! {

/// What `SliceRandom::shuffle` makes of items with a `ChaCha8Rng` seeded from a
/// number.
pub uninterp spec fn shuffled(items: Seq<usize>, seed: u64) -> Seq<usize>;

/// `rand::seq::SliceRandom::shuffle` with the generator
/// `rand_chacha::ChaCha8Rng::seed_from_u64(seed)`: the items are rearranged.
/// The order is a function of the items and the seed.
#[verifier::external_body]
fn shuffle_seeded(items: &mut Vec<usize>, seed: u64)
    ensures
        final(items)@ == shuffled(old(items)@, seed),
        final(items)@.to_multiset() == old(items)@.to_multiset(),
{
    items.shuffle(&mut ChaCha8Rng::seed_from_u64(seed));
}

/// The numbers below `n`, in ascending order.
pub open spec fn numbers(n: nat) -> Seq<usize> {
    Seq::new(n, |i: int| i as usize)
}

/// Whether `order` lists every number below its length once.
pub open spec fn is_permutation(order: Seq<usize>) -> bool {
    &&& order.no_duplicates()
    &&& forall|i: int| 0 <= i < order.len() ==> (#[trigger] order[i]) < order.len()
}

/// The numbers below `n` in the order of the seed.
pub fn shuffled_numbers(n: usize, seed: u64) -> (order: Vec<usize>)
    ensures
        order@ == shuffled(numbers(n as nat), seed),
        order@.len() == n,
        is_permutation(order@),
{
    let mut order: Vec<usize> = Vec::new();
    let mut i: usize = 0;
    while i < n
        invariant
            i <= n,
            order@ == numbers(i as nat),
        decreases n - i,
    {
        order.push(i);
        i += 1;
        assert(order@ =~= numbers(i as nat));
    }
    let ghost before = order@;
    shuffle_seeded(&mut order, seed);
    proof {
        broadcast use vstd::seq_lib::group_to_multiset_ensures;

        assert(before.no_duplicates());
        before.lemma_multiset_has_no_duplicates();
        order@.lemma_multiset_has_no_duplicates_conv();
        assert(before.to_multiset().len() == before.len());
        assert(order@.to_multiset().len() == order@.len());
        assert forall|k: int| 0 <= k < order@.len() implies (#[trigger] order@[k]) < n by {
            assert(order@.contains(order@[k]));
            assert(before.to_multiset().count(order@[k]) > 0);
            assert(before.contains(order@[k]));
        }
    }
    order
}

/// The items in the given order.
pub open spec fn rearranged<T>(items: Seq<T>, order: Seq<usize>) -> Seq<T> {
    Seq::new(order.len(), |k: int| items[order[k] as int])
}

/// Rearranges items.
pub fn rearrange<T>(items: Vec<T>, order: &Vec<usize>) -> (out: Vec<T>)
    requires
        is_permutation(order@),
        order@.len() == items@.len(),
    ensures
        out@ == rearranged(items@, order@),
{
    let ghost given = items@;
    let mut rest = items;
    let mut slots: Vec<Option<T>> = Vec::new();
    // The items go into slots from the last to the first.
    while rest.len() > 0
        invariant
            rest@.len() + slots@.len() == given.len(),
            rest@ == given.take(rest@.len() as int),
            forall|k: int|
                0 <= k < slots@.len() ==> #[trigger] slots@[k] == Some(given[given.len() - 1 - k]),
        decreases rest@.len(),
    {
        let ghost before = slots@;
        match rest.pop() {
            None => {},
            Some(item) => {
                slots.push(Some(item));
                assert forall|k: int| 0 <= k < slots@.len() implies #[trigger] slots@[k] == Some(
                    given[given.len() - 1 - k],
                ) by {
                    if k < before.len() {
                        assert(slots@[k] == before[k]);
                    }
                }
            },
        }
    }
    let n: usize = slots.len();
    let mut out: Vec<T> = Vec::new();
    let mut i: usize = 0;
    while i < n
        invariant
            n == given.len(),
            n == order@.len(),
            n == slots@.len(),
            is_permutation(order@),
            i <= n,
            out@ == rearranged(given, order@).take(i as int),
            forall|j: int|
                i <= j < n ==> slots@[n - 1 - #[trigger] order@[j] as int] == Some(
                    given[order@[j] as int],
                ),
        decreases n - i,
    {
        let at: usize = n - 1 - order[i];
        let ghost before = slots@;
        assert(slots@[n - 1 - order@[i as int] as int] == Some(given[order@[i as int] as int]));
        let mut taken: Option<T> = None;
        std::mem::swap(&mut taken, &mut slots[at]);
        match taken {
            None => {
                assert(false);
            },
            Some(item) => {
                out.push(item);
            },
        }
        assert(out@ =~= rearranged(given, order@).take(i + 1));
        assert forall|j: int| i + 1 <= j < n implies slots@[n - 1 - #[trigger] order@[j] as int]
            == Some(given[order@[j] as int]) by {
            assert(order@[j] != order@[i as int]);
            assert(before[n - 1 - order@[j] as int] == Some(given[order@[j] as int]));
        }
        i += 1;
    }
    assert(rearranged(given, order@).take(n as int) =~= rearranged(given, order@));
    out
}

/// A rearrangement holds the same items, each as often as before.
pub proof fn rearranging_keeps_the_items<T>(items: Seq<T>, order: Seq<usize>)
    requires
        is_permutation(order),
        order.len() == items.len(),
    ensures
        rearranged(items, order).to_multiset() == items.to_multiset(),
{
    let ints = Seq::new(order.len(), |i: int| order[i] as int);
    lemma_rearranged_multiset(items, ints);
    assert(rearranged(items, order) =~= Seq::new(ints.len(), |k: int| items[ints[k]]));
}

proof fn lemma_rearranged_multiset<T>(items: Seq<T>, order: Seq<int>)
    requires
        order.len() == items.len(),
        order.no_duplicates(),
        forall|i: int| 0 <= i < order.len() ==> 0 <= #[trigger] order[i] < order.len(),
    ensures
        Seq::new(order.len(), |k: int| items[order[k]]).to_multiset() == items.to_multiset(),
    decreases items.len(),
{
    broadcast use vstd::seq_lib::group_to_multiset_ensures;

    let all = Seq::new(order.len(), |k: int| items[order[k]]);
    if items.len() == 0 {
        assert(all =~= items);
    } else {
        let n = order.len() - 1;
        let last = order[n];
        // Without the last of the order, and without the item it names.
        let fewer = items.remove(last);
        let shifted = Seq::new(
            n as nat,
            |k: int|
                if order[k] < last {
                    order[k]
                } else {
                    order[k] - 1
                },
        );
        assert forall|i: int| 0 <= i < n implies 0 <= #[trigger] shifted[i] < n by {
            assert(order[i] != order[n]);
        }
        assert forall|i: int, j: int| 0 <= i < n && 0 <= j < n && i != j implies shifted[i]
            != shifted[j] by {
            assert(order[i] != order[j]);
            assert(order[i] != order[n] && order[j] != order[n]);
        }
        lemma_rearranged_multiset(fewer, shifted);
        let head = Seq::new(shifted.len(), |k: int| fewer[shifted[k]]);
        assert(all.drop_last() =~= head) by {
            assert forall|k: int| 0 <= k < n implies all[k] == head[k] by {
                assert(order[k] != order[n]);
            }
        }
        assert(all =~= head.push(items[last]));
        assert(items.remove(last).to_multiset() =~= items.to_multiset().remove(items[last]));
        assert(items.to_multiset().count(items[last]) > 0) by {
            assert(items.contains(items[last]));
        }
        assert(all.to_multiset() =~= items.to_multiset());
    }
}

} // verus!
