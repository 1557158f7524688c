//! Stable sorting. A sorting is given by the positions of the items in
//! ascending order; equal items keep the order in which they came.
use vstd::prelude::*;

verus! {

/// A type with a total preorder.
pub trait Ordered: Sized {
    /// Whether `a` comes no later than `b`.
    spec fn no_later(a: Self, b: Self) -> bool;

    proof fn total(a: Self, b: Self)
        ensures
            Self::no_later(a, b) || Self::no_later(b, a),
    ;

    proof fn transitive(a: Self, b: Self, c: Self)
        requires
            Self::no_later(a, b),
            Self::no_later(b, c),
        ensures
            Self::no_later(a, c),
    ;

    fn is_no_later(&self, other: &Self) -> (r: bool)
        ensures
            r == Self::no_later(*self, *other),
    ;
}

impl Ordered for u32 {
    open spec fn no_later(a: Self, b: Self) -> bool {
        a <= b
    }

    proof fn total(a: Self, b: Self) {
    }

    proof fn transitive(a: Self, b: Self, c: Self) {
    }

    fn is_no_later(&self, other: &Self) -> (r: bool) {
        *self <= *other
    }
}

/// Whether `a` comes before `b` letter by letter, or is a prefix of it.
pub open spec fn text_no_later(a: Seq<char>, b: Seq<char>) -> bool
    decreases a.len(),
{
    if a.len() == 0 {
        true
    } else if b.len() == 0 {
        false
    } else if a[0] != b[0] {
        a[0] < b[0]
    } else {
        text_no_later(a.skip(1), b.skip(1))
    }
}

proof fn lemma_text_total(a: Seq<char>, b: Seq<char>)
    ensures
        text_no_later(a, b) || text_no_later(b, a),
    decreases a.len(),
{
    if a.len() > 0 && b.len() > 0 && a[0] == b[0] {
        lemma_text_total(a.skip(1), b.skip(1));
    }
}

proof fn lemma_text_transitive(a: Seq<char>, b: Seq<char>, c: Seq<char>)
    requires
        text_no_later(a, b),
        text_no_later(b, c),
    ensures
        text_no_later(a, c),
    decreases a.len(),
{
    if a.len() > 0 && b.len() > 0 && c.len() > 0 && a[0] == b[0] && b[0] == c[0] {
        lemma_text_transitive(a.skip(1), b.skip(1), c.skip(1));
    }
}

/// Of two texts with a common beginning, the one with the lesser character after
/// it comes first.
pub proof fn lemma_text_first_difference(a: Seq<char>, b: Seq<char>, k: int)
    requires
        0 <= k < a.len(),
        k < b.len(),
        forall|i: int| 0 <= i < k ==> a[i] == b[i],
        a[k] < b[k],
    ensures
        text_no_later(a, b),
        !text_no_later(b, a),
    decreases k,
{
    if k > 0 {
        let (x, y) = (a.skip(1), b.skip(1));
        assert forall|i: int| 0 <= i < k - 1 implies x[i] == y[i] by {
            assert(x[i] == a[i + 1]);
            assert(y[i] == b[i + 1]);
        }
        lemma_text_first_difference(x, y, k - 1);
    }
}

impl Ordered for Vec<char> {
    open spec fn no_later(a: Self, b: Self) -> bool {
        text_no_later(a@, b@)
    }

    proof fn total(a: Self, b: Self) {
        lemma_text_total(a@, b@);
    }

    proof fn transitive(a: Self, b: Self, c: Self) {
        lemma_text_transitive(a@, b@, c@);
    }

    fn is_no_later(&self, other: &Self) -> (r: bool) {
        let mut i: usize = 0;
        assert(self@.skip(0) == self@);
        assert(other@.skip(0) == other@);
        while i < self.len()
            invariant
                i <= self@.len(),
                i <= other@.len(),
                text_no_later(self@, other@) == text_no_later(
                    self@.skip(i as int),
                    other@.skip(i as int),
                ),
            decreases self@.len() - i,
        {
            if i == other.len() {
                return false;
            }
            if self[i] != other[i] {
                return self[i] < other[i];
            }
            assert(self@.skip(i as int).skip(1) == self@.skip(i + 1));
            assert(other@.skip(i as int).skip(1) == other@.skip(i + 1));
            i += 1;
        }
        true
    }
}

/// Whether the item at `i` is sorted before the item at `j`.
pub open spec fn goes_before<T: Ordered>(items: Seq<T>, i: int, j: int) -> bool {
    T::no_later(items[i], items[j]) && (!T::no_later(items[j], items[i]) || i < j)
}

/// Whether `order` lists the positions from `lo` up to `hi` in ascending order
/// of their items.
pub open spec fn sorts_range<T: Ordered>(
    items: Seq<T>,
    lo: int,
    hi: int,
    order: Seq<usize>,
) -> bool {
    &&& order.len() == hi - lo
    &&& forall|k: int| 0 <= k < order.len() ==> lo <= #[trigger] order[k] < hi
    &&& forall|i: usize| lo <= i < hi ==> order.contains(i)
    &&& forall|a: int, b: int|
        0 <= a < b < order.len() ==> goes_before(items, order[a] as int, order[b] as int)
}

/// Whether `order` lists all positions in ascending order of their items.
pub open spec fn sorts<T: Ordered>(items: Seq<T>, order: Seq<usize>) -> bool {
    sorts_range(items, 0, items.len() as int, order)
}

/// The positions in ascending order of their items.
pub open spec fn sorted_order<T: Ordered>(items: Seq<T>) -> Seq<usize> {
    choose|order: Seq<usize>| sorts(items, order)
}

proof fn lemma_before_transitive<T: Ordered>(items: Seq<T>, i: int, j: int, k: int)
    requires
        goes_before(items, i, j),
        goes_before(items, j, k),
    ensures
        goes_before(items, i, k),
{
    T::transitive(items[i], items[j], items[k]);
    if T::no_later(items[k], items[i]) {
        T::transitive(items[k], items[i], items[j]);
        T::transitive(items[j], items[k], items[i]);
    }
}

proof fn lemma_before_total<T: Ordered>(items: Seq<T>, i: int, j: int)
    requires
        i != j,
    ensures
        goes_before(items, i, j) || goes_before(items, j, i),
{
    T::total(items[i], items[j]);
}

/// There is one ascending order only.
pub proof fn lemma_sorts_unique<T: Ordered>(items: Seq<T>, a: Seq<usize>, b: Seq<usize>)
    requires
        sorts(items, a),
        sorts(items, b),
    ensures
        a == b,
{
    assert forall|k: int| 0 <= k < a.len() implies a[k] == b[k] by {
        lemma_sorts_unique_at(items, a, b, k);
    }
    assert(a =~= b);
}

proof fn lemma_sorts_unique_at<T: Ordered>(
    items: Seq<T>,
    a: Seq<usize>,
    b: Seq<usize>,
    k: int,
)
    requires
        sorts(items, a),
        sorts(items, b),
        0 <= k < a.len(),
    ensures
        a[k] == b[k],
    decreases k,
{
    assert forall|m: int| 0 <= m < k implies a[m] == b[m] by {
        lemma_sorts_unique_at(items, a, b, m);
    }
    if a[k] != b[k] {
        assert(b.contains(a[k]));
        assert(a.contains(b[k]));
        let m = choose|m: int| 0 <= m < b.len() && b[m] == a[k];
        let n = choose|n: int| 0 <= n < a.len() && a[n] == b[k];
        if m < k {
            assert(a[m] == b[m]);
            assert(goes_before(items, a[m] as int, a[k] as int));
        }
        if n < k {
            assert(a[n] == b[n]);
            assert(goes_before(items, b[n] as int, b[k] as int));
        }
        assert(goes_before(items, b[k] as int, b[m] as int));
        assert(goes_before(items, a[k] as int, a[n] as int));
    }
}

/// The positions in ascending order of their items.
pub fn sort<T: Ordered>(items: &Vec<T>) -> (order: Vec<usize>)
    ensures
        sorts(items@, order@),
        order@ == sorted_order(items@),
{
    let order = sort_range(items, 0, items.len());
    proof {
        assert(sorts(items@, order@));
        lemma_sorts_unique(items@, order@, sorted_order(items@));
    }
    order
}

fn sort_range<T: Ordered>(items: &Vec<T>, lo: usize, hi: usize) -> (order: Vec<usize>)
    requires
        lo <= hi <= items@.len(),
    ensures
        sorts_range(items@, lo as int, hi as int, order@),
    decreases hi - lo,
{
    let mut order: Vec<usize> = Vec::new();
    if hi - lo == 0 {
        return order;
    }
    if hi - lo == 1 {
        order.push(lo);
        assert(order@[0] == lo);
        assert(order@.contains(lo));
        return order;
    }
    let mid: usize = lo + (hi - lo) / 2;
    let left = sort_range(items, lo, mid);
    let right = sort_range(items, mid, hi);
    merge_orders(items, &left, &right, lo, mid, hi)
}

fn merge_orders<T: Ordered>(
    items: &Vec<T>,
    left: &Vec<usize>,
    right: &Vec<usize>,
    lo: usize,
    mid: usize,
    hi: usize,
) -> (order: Vec<usize>)
    requires
        lo <= mid <= hi <= items@.len(),
        sorts_range(items@, lo as int, mid as int, left@),
        sorts_range(items@, mid as int, hi as int, right@),
    ensures
        sorts_range(items@, lo as int, hi as int, order@),
{
    let mut order: Vec<usize> = Vec::new();
    let mut l: usize = 0;
    let mut r: usize = 0;
    while l < left.len() || r < right.len()
        invariant
            lo <= mid <= hi <= items@.len(),
            sorts_range(items@, lo as int, mid as int, left@),
            sorts_range(items@, mid as int, hi as int, right@),
            l <= left@.len(),
            r <= right@.len(),
            order@.len() == l + r,
            forall|k: int| 0 <= k < order@.len() ==> lo <= #[trigger] order@[k] < hi,
            forall|k: int| 0 <= k < l ==> order@.contains(#[trigger] left@[k]),
            forall|k: int| 0 <= k < r ==> order@.contains(#[trigger] right@[k]),
            forall|a: int, b: int|
                0 <= a < b < order@.len() ==> goes_before(
                    items@,
                    order@[a] as int,
                    order@[b] as int,
                ),
            forall|a: int, k: int|
                0 <= a < order@.len() && l <= k < left@.len() ==> goes_before(
                    items@,
                    #[trigger] order@[a] as int,
                    #[trigger] left@[k] as int,
                ),
            forall|a: int, k: int|
                0 <= a < order@.len() && r <= k < right@.len() ==> goes_before(
                    items@,
                    #[trigger] order@[a] as int,
                    #[trigger] right@[k] as int,
                ),
        decreases left@.len() - l + right@.len() - r,
    {
        let from_left: bool = if l == left.len() {
            false
        } else if r == right.len() {
            true
        } else {
            items[left[l]].is_no_later(&items[right[r]])
        };
        let ghost before = order@;
        if from_left {
            let x: usize = left[l];
            proof {
                assert forall|k: int| r <= k < right@.len() implies goes_before(
                    items@,
                    x as int,
                    #[trigger] right@[k] as int,
                ) by {
                    assert(goes_before(items@, x as int, right@[r as int] as int));
                    if k > r {
                        lemma_before_transitive(
                            items@,
                            x as int,
                            right@[r as int] as int,
                            right@[k] as int,
                        );
                    }
                }
            }
            order.push(x);
            l += 1;
            assert(order@[before.len() as int] == x);
        } else {
            let x: usize = right[r];
            proof {
                assert forall|k: int| l <= k < left@.len() implies goes_before(
                    items@,
                    x as int,
                    #[trigger] left@[k] as int,
                ) by {
                    let y = left@[l as int] as int;
                    lemma_before_total(items@, x as int, y);
                    assert(!T::no_later(items@[y], items@[x as int]));
                    if k > l {
                        lemma_before_transitive(items@, x as int, y, left@[k] as int);
                    }
                }
            }
            order.push(x);
            r += 1;
            assert(order@[before.len() as int] == x);
        }
        proof {
            assert forall|k: int| 0 <= k < before.len() implies order@[k] == before[k] by {}
            assert forall|k: int| 0 <= k < l implies order@.contains(#[trigger] left@[k]) by {
                if before.contains(left@[k]) {
                    let at = choose|at: int| 0 <= at < before.len() && before[at] == left@[k];
                    assert(order@[at] == left@[k]);
                }
            }
            assert forall|k: int| 0 <= k < r implies order@.contains(#[trigger] right@[k]) by {
                if before.contains(right@[k]) {
                    let at = choose|at: int| 0 <= at < before.len() && before[at] == right@[k];
                    assert(order@[at] == right@[k]);
                }
            }
        }
    }
    proof {
        assert forall|i: usize| lo <= i < hi implies order@.contains(i) by {
            if i < mid {
                assert(left@.contains(i));
                let at = choose|at: int| 0 <= at < left@.len() && left@[at] == i;
                assert(order@.contains(left@[at]));
            } else {
                assert(right@.contains(i));
                let at = choose|at: int| 0 <= at < right@.len() && right@[at] == i;
                assert(order@.contains(right@[at]));
            }
        }
    }
    order
}

/// Whether `order` lists the positions below `n` in ascending order of their
/// items.
proof fn lemma_order_exists_below<T: Ordered>(items: Seq<T>, n: int) -> (order: Seq<usize>)
    requires
        0 <= n <= items.len() <= usize::MAX,
    ensures
        sorts_range(items, 0, n, order),
    decreases n,
{
    if n == 0 {
        Seq::empty()
    } else {
        let before = lemma_order_exists_below(items, n - 1);
        let p = lemma_insertion_place(items, before, n - 1, 0);
        let order = before.insert(p, (n - 1) as usize);
        assert forall|i: usize| 0 <= i < n implies order.contains(i) by {
            if i == n - 1 {
                assert(order[p] == i);
            } else {
                assert(before.contains(i));
                let k = choose|k: int| 0 <= k < before.len() && before[k] == i;
                if k < p {
                    assert(order[k] == i);
                } else {
                    assert(order[k + 1] == i);
                }
            }
        }
        assert forall|a: int, b: int| 0 <= a < b < order.len() implies goes_before(
            items,
            order[a] as int,
            order[b] as int,
        ) by {
            let (x, y) = (
                if a < p {
                    a
                } else {
                    a - 1
                },
                if b < p {
                    b
                } else {
                    b - 1
                },
            );
            if a != p && b != p {
                assert(order[a] == before[x]);
                assert(order[b] == before[y]);
                assert(goes_before(items, before[x] as int, before[y] as int));
            } else if b == p {
                assert(order[a] == before[a]);
            } else {
                assert(order[b] == before[b - 1]);
                assert(!goes_before(items, before[b - 1] as int, n - 1));
                lemma_before_total(items, before[b - 1] as int, n - 1);
            }
        }
        order
    }
}

/// Where a new position comes into an order.
proof fn lemma_insertion_place<T: Ordered>(
    items: Seq<T>,
    order: Seq<usize>,
    new: int,
    from: int,
) -> (p: int)
    requires
        0 <= from <= order.len(),
        forall|k: int| 0 <= k < order.len() ==> 0 <= #[trigger] order[k] < new,
        forall|a: int, b: int|
            0 <= a < b < order.len() ==> goes_before(items, order[a] as int, order[b] as int),
        forall|k: int| 0 <= k < from ==> goes_before(items, #[trigger] order[k] as int, new),
    ensures
        0 <= p <= order.len(),
        forall|k: int| 0 <= k < p ==> goes_before(items, #[trigger] order[k] as int, new),
        forall|k: int| p <= k < order.len() ==> !goes_before(items, #[trigger] order[k] as int, new),
    decreases order.len() - from,
{
    if from == order.len() {
        from
    } else if goes_before(items, order[from] as int, new) {
        lemma_insertion_place(items, order, new, from + 1)
    } else {
        assert forall|k: int| from <= k < order.len() implies !goes_before(
            items,
            #[trigger] order[k] as int,
            new,
        ) by {
            if k > from && goes_before(items, order[k] as int, new) {
                lemma_before_transitive(items, order[from] as int, order[k] as int, new);
            }
        }
        from
    }
}

/// Items can be sorted: `sorted_order` lists all positions, and ascends.
pub proof fn lemma_sorted_order<T: Ordered>(items: Seq<T>)
    requires
        items.len() <= usize::MAX,
    ensures
        sorts(items, sorted_order(items)),
{
    let order = lemma_order_exists_below(items, items.len() as int);
    assert(sorts(items, order));
}

/// Texts are ordered as in a dictionary: a text comes before those that it begins, and
/// of two that differ the one with the lesser character at the first difference.
pub proof fn texts_are_ordered_as_in_a_dictionary(a: Seq<char>, b: Seq<char>)
    ensures
        text_no_later(a, b) <==> (a.len() <= b.len() && b.subrange(0, a.len() as int) == a) || (
        exists|k: int|
            0 <= k < a.len() && k < b.len() && (#[trigger] a[k]) < b[k] && a.subrange(0, k)
                == b.subrange(0, k)),
    decreases a.len(),
{
    if a.len() == 0 {
        assert(b.subrange(0, 0) =~= a);
    } else if b.len() > 0 && a[0] == b[0] {
        let (x, y) = (a.skip(1), b.skip(1));
        texts_are_ordered_as_in_a_dictionary(x, y);
        if a.len() <= b.len() {
            if y.subrange(0, x.len() as int) == x {
                assert(b.subrange(0, a.len() as int) =~= a) by {
                    assert forall|i: int| 0 < i < a.len() implies b[i] == a[i] by {
                        assert(y.subrange(0, x.len() as int)[i - 1] == x[i - 1]);
                    }
                }
            }
            if b.subrange(0, a.len() as int) == a {
                assert forall|i: int| 0 <= i < x.len() implies y[i] == x[i] by {
                    assert(b.subrange(0, a.len() as int)[i + 1] == a[i + 1]);
                }
                assert(y.subrange(0, x.len() as int) =~= x);
            }
        }
        if exists|k: int|
            0 <= k < x.len() && k < y.len() && (#[trigger] x[k]) < y[k] && x.subrange(0, k)
                == y.subrange(0, k) {
            let k = choose|k: int|
                0 <= k < x.len() && k < y.len() && (#[trigger] x[k]) < y[k] && x.subrange(0, k)
                    == y.subrange(0, k);
            assert(a[k + 1] < b[k + 1]);
            assert(a.subrange(0, k + 1) =~= b.subrange(0, k + 1)) by {
                assert forall|i: int| 0 < i < k + 1 implies a[i] == b[i] by {
                    assert(x.subrange(0, k)[i - 1] == y.subrange(0, k)[i - 1]);
                }
            }
        }
        if exists|k: int|
            0 <= k < a.len() && k < b.len() && (#[trigger] a[k]) < b[k] && a.subrange(0, k)
                == b.subrange(0, k) {
            let k = choose|k: int|
                0 <= k < a.len() && k < b.len() && (#[trigger] a[k]) < b[k] && a.subrange(0, k)
                    == b.subrange(0, k);
            assert(k > 0);
            assert(x[k - 1] < y[k - 1]);
            assert(x.subrange(0, k - 1) =~= y.subrange(0, k - 1)) by {
                assert forall|i: int| 0 <= i < k - 1 implies x[i] == y[i] by {
                    assert(a.subrange(0, k)[i + 1] == b.subrange(0, k)[i + 1]);
                }
            }
        }
    } else if b.len() > 0 {
        if a[0] < b[0] {
            assert(a.subrange(0, 0) =~= b.subrange(0, 0));
        }
        if a.len() <= b.len() && b.subrange(0, a.len() as int) == a {
            assert(b.subrange(0, a.len() as int)[0] == a[0]);
        }
        if exists|k: int|
            0 <= k < a.len() && k < b.len() && (#[trigger] a[k]) < b[k] && a.subrange(0, k)
                == b.subrange(0, k) {
            let k = choose|k: int|
                0 <= k < a.len() && k < b.len() && (#[trigger] a[k]) < b[k] && a.subrange(0, k)
                    == b.subrange(0, k);
            if k > 0 {
                assert(a.subrange(0, k)[0] == b.subrange(0, k)[0]);
            }
        }
    }
}

} // verus!
