//! Sequences of sequences.
use vstd::prelude::*;

verus! {

/// All parts one after the other.
pub open spec fn concat<T>(parts: Seq<Seq<T>>) -> Seq<T>
    decreases parts.len(),
{
    if parts.len() == 0 {
        Seq::empty()
    } else {
        concat(parts.drop_last()) + parts.last()
    }
}

/// The parts of two lists, one list after the other.
pub proof fn lemma_concat_add<T>(a: Seq<Seq<T>>, b: Seq<Seq<T>>)
    ensures
        concat(a + b) == concat(a) + concat(b),
    decreases b.len(),
{
    if b.len() == 0 {
        assert(a + b == a);
        assert(concat(a) + concat(b) == concat(a));
    } else {
        lemma_concat_add(a, b.drop_last());
        assert((a + b).drop_last() == a + b.drop_last());
        assert(concat(a + b) == concat(a) + concat(b));
    }
}

/// A list of one part.
pub proof fn lemma_concat_one<T>(part: Seq<T>)
    ensures
        concat(seq![part]) == part,
{
    let one = seq![part];
    assert(one.drop_last() == Seq::<Seq<T>>::empty());
    assert(concat(one.drop_last()) == Seq::<T>::empty());
    assert(concat(one) == part);
}

/// Parts of one length each make up a whole of that many times the length.
pub proof fn lemma_concat_even_len<T>(parts: Seq<Seq<T>>, n: int)
    requires
        forall|i: int| 0 <= i < parts.len() ==> (#[trigger] parts[i]).len() == n,
    ensures
        concat(parts).len() == parts.len() * n,
    decreases parts.len(),
{
    if parts.len() > 0 {
        let k = parts.len() - 1;
        let head = parts.drop_last();
        assert forall|i: int| 0 <= i < head.len() implies (#[trigger] head[i]).len() == n by {
            assert(head[i] == parts[i]);
        }
        lemma_concat_even_len(head, n);
        assert((k + 1) * n == k * n + n) by (nonlinear_arith);
    } else {
        assert(parts.len() * n == 0) by (nonlinear_arith)
            requires
                parts.len() == 0,
        ;
    }
}

/// In a whole of parts of one length each, every part stands at its multiple.
pub proof fn lemma_concat_even_at<T>(parts: Seq<Seq<T>>, n: int, i: int)
    requires
        forall|k: int| 0 <= k < parts.len() ==> (#[trigger] parts[k]).len() == n,
        0 <= i < parts.len(),
    ensures
        0 <= i * n,
        i * n + n <= concat(parts).len(),
        concat(parts).subrange(i * n, i * n + n) == parts[i],
    decreases parts.len(),
{
    let k = parts.len() - 1;
    let head = parts.drop_last();
    assert forall|j: int| 0 <= j < head.len() implies (#[trigger] head[j]).len() == n by {
        assert(head[j] == parts[j]);
    }
    lemma_concat_even_len(head, n);
    let whole = concat(parts);
    assert(whole == concat(head) + parts.last());
    assert(parts[i].len() == n && parts.last().len() == n);
    assert(0 <= i * n) by (nonlinear_arith)
        requires
            0 <= i,
            0 <= n,
    ;
    if i < k {
        lemma_concat_even_at(head, n, i);
        assert(whole.subrange(i * n, i * n + n) =~= concat(head).subrange(i * n, i * n + n));
    } else {
        assert(whole.subrange(i * n, i * n + n) =~= parts[i]);
    }
}

} // verus!
