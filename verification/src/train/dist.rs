//! Ranks, and the one order in which all of them walk the parameters.
use vstd::prelude::*;

use crate::order::{sort, text_no_later};
use crate::text::{chars_of, string_views};

verus! {

/// The place of a process among those that train together.
#[derive(Debug, Clone, Copy, PartialEq, Eq, Structural)]
pub struct DistCtx {
    pub rank: usize,
    pub world_size: usize,
}

impl DistCtx {
    /// The rank is one of the world.
    pub open spec fn wf(self) -> bool {
        self.rank < self.world_size
    }

    /// A process that trains alone.
    pub fn single() -> (r: DistCtx)
        ensures
            r.rank == 0,
            r.world_size == 1,
            r.wf(),
    {
        DistCtx { rank: 0, world_size: 1 }
    }

    /// Whether this rank owns the side effects.
    pub fn is_master(&self) -> (r: bool)
        ensures
            r == (self.rank == 0),
    {
        self.rank == 0
    }
}

/// Whether `order` lists all names in ascending order.
pub open spec fn is_name_order(names: Seq<Seq<char>>, order: Seq<usize>) -> bool {
    &&& order.len() == names.len()
    &&& forall|k: int| 0 <= k < order.len() ==> (#[trigger] order[k]) < names.len()
    &&& forall|i: usize| i < names.len() ==> order.contains(i)
    &&& forall|a: int, b: int|
        0 <= a < b < order.len() ==> text_no_later(
            names[#[trigger] order[a] as int],
            names[#[trigger] order[b] as int],
        )
}

/// The positions of the names in ascending order of the names.
pub fn canonical_order(names: &Vec<String>) -> (order: Vec<usize>)
    ensures
        is_name_order(string_views(names@), order@),
{
    let ghost all = string_views(names@);
    let mut texts: Vec<Vec<char>> = Vec::new();
    let mut i: usize = 0;
    while i < names.len()
        invariant
            i <= names@.len(),
            all == string_views(names@),
            texts@.len() == i,
            forall|k: int| 0 <= k < i ==> (#[trigger] texts@[k])@ == all[k],
        decreases names@.len() - i,
    {
        let ghost before = texts@;
        texts.push(chars_of(names[i].as_str()));
        assert forall|k: int| 0 <= k < i + 1 implies (#[trigger] texts@[k])@ == all[k] by {
            if k < i {
                assert(texts@[k] == before[k]);
            }
        }
        i += 1;
    }
    let order = sort(&texts);
    proof {
        assert forall|a: int, b: int| 0 <= a < b < order@.len() implies text_no_later(
            all[#[trigger] order@[a] as int],
            all[#[trigger] order@[b] as int],
        ) by {
            assert(crate::order::goes_before(texts@, order@[a] as int, order@[b] as int));
        }
    }
    order
}

/// Two ranks that hold the same names, each in an order of its own, walk them
/// in the same order: the names in ascending order do not depend on how they
/// were listed, as long as no name occurs twice.
pub proof fn name_order_is_common(
    a: Seq<Seq<char>>,
    b: Seq<Seq<char>>,
    order_a: Seq<usize>,
    order_b: Seq<usize>,
    k: int,
)
    requires
        is_name_order(a, order_a),
        is_name_order(b, order_b),
        a.len() == b.len(),
        a.len() <= usize::MAX,
        a.no_duplicates(),
        b.no_duplicates(),
        forall|x: Seq<char>| #[trigger] a.contains(x) <==> b.contains(x),
        0 <= k < a.len(),
    ensures
        a[order_a[k] as int] == b[order_b[k] as int],
    decreases k,
{
    assert forall|m: int| 0 <= m < k implies a[order_a[m] as int] == b[order_b[m] as int] by {
        name_order_is_common(a, b, order_a, order_b, m);
    }
    let x = a[order_a[k] as int];
    let y = b[order_b[k] as int];
    if x != y {
        assert(a.contains(x));
        assert(b.contains(x));
        assert(b.contains(y));
        assert(a.contains(y));
        let ix = choose|i: int| 0 <= i < b.len() && b[i] == x;
        let iy = choose|i: int| 0 <= i < a.len() && a[i] == y;
        assert(order_b.contains(ix as usize));
        assert(order_a.contains(iy as usize));
        let m = choose|m: int| 0 <= m < order_b.len() && order_b[m] == ix as usize;
        let n = choose|n: int| 0 <= n < order_a.len() && order_a[n] == iy as usize;
        if m < k {
            assert(a[order_a[m] as int] == x);
            assert(order_a[m] == order_a[k]);
            lemma_name_order_distinct(a, order_a, m, k);
        }
        if n < k {
            assert(b[order_b[n] as int] == y);
            assert(order_b[n] == order_b[k]);
            lemma_name_order_distinct(b, order_b, n, k);
        }
        assert(m > k && n > k) by {
            if m == k {
                assert(x == y);
            }
            if n == k {
                assert(x == y);
            }
        }
        assert(text_no_later(b[order_b[k] as int], b[order_b[m] as int]));
        assert(text_no_later(a[order_a[k] as int], a[order_a[n] as int]));
        lemma_text_antisymmetric(x, y);
    }
}

/// An order that lists all positions lists none twice.
proof fn lemma_name_order_distinct(names: Seq<Seq<char>>, order: Seq<usize>, i: int, j: int)
    requires
        is_name_order(names, order),
        names.len() <= usize::MAX,
        0 <= i < j < order.len(),
    ensures
        order[i] != order[j],
{
    if order[i] == order[j] {
        // With a repeat, the order has fewer than all positions.
        let fewer = order.remove(j);
        assert forall|x: usize| x < names.len() implies fewer.contains(x) by {
            assert(order.contains(x));
            let at = choose|at: int| 0 <= at < order.len() && order[at] == x;
            if at < j {
                assert(fewer[at] == x);
            } else if at == j {
                assert(fewer[i] == x);
            } else {
                assert(fewer[at - 1] == x);
            }
        }
        lemma_contains_all(fewer, names.len());
    }
}

/// A sequence that contains every number below `n` has at least `n` items.
proof fn lemma_contains_all(s: Seq<usize>, n: nat)
    requires
        n <= usize::MAX,
        forall|x: usize| x < n ==> s.contains(x),
    ensures
        s.len() >= n,
    decreases n,
{
    if n > 0 {
        let last = (n - 1) as usize;
        assert(s.contains(last));
        let at = choose|at: int| 0 <= at < s.len() && s[at] == last;
        let rest = s.remove(at);
        assert forall|x: usize| x < n - 1 implies rest.contains(x) by {
            assert(s.contains(x));
            let k = choose|k: int| 0 <= k < s.len() && s[k] == x;
            if k < at {
                assert(rest[k] == x);
            } else {
                assert(rest[k - 1] == x);
            }
        }
        lemma_contains_all(rest, (n - 1) as nat);
    }
}

proof fn lemma_text_antisymmetric(a: Seq<char>, b: Seq<char>)
    requires
        text_no_later(a, b),
        text_no_later(b, a),
    ensures
        a == b,
    decreases a.len(),
{
    if a.len() > 0 && b.len() > 0 {
        lemma_text_antisymmetric(a.skip(1), b.skip(1));
        assert(a =~= seq![a[0]] + a.skip(1));
        assert(b =~= seq![b[0]] + b.skip(1));
    } else {
        assert(a =~= b);
    }
}

} // verus!
