//! Byte-pair merging over a table of tokens: what the greedy merge of a piece
//! of text is, and a lookup table from bytes to token ids.
use vstd::prelude::*;
use vstd::slice::slice_subrange;

use crate::seqs::{concat, lemma_concat_add};
use crate::text::views;

verus! {

/// The id of the token with the bytes `key`: the last entry that holds them.
pub open spec fn token_of(entries: Seq<Seq<u8>>, key: Seq<u8>) -> Option<int>
    decreases entries.len(),
{
    if entries.len() == 0 {
        None
    } else if entries.last() == key {
        Some(entries.len() - 1)
    } else {
        token_of(entries.drop_last(), key)
    }
}

/// `token_of` finds an entry with these bytes, and the last one, if there is
/// any.
pub proof fn lemma_token_of(entries: Seq<Seq<u8>>, key: Seq<u8>)
    ensures
        match token_of(entries, key) {
            Some(i) => {
                &&& 0 <= i < entries.len()
                &&& entries[i] == key
                &&& forall|j: int| i < j < entries.len() ==> entries[j] != key
            },
            None => forall|j: int| 0 <= j < entries.len() ==> entries[j] != key,
        },
    decreases entries.len(),
{
    if entries.len() > 0 && entries.last() != key {
        let rest = entries.drop_last();
        lemma_token_of(rest, key);
        assert forall|j: int| 0 <= j < entries.len() - 1 implies entries[j] == rest[j] by {}
    }
}

/// An entry that holds `key`, with no later one that does, is its token.
pub proof fn lemma_token_of_last(entries: Seq<Seq<u8>>, key: Seq<u8>, i: int)
    requires
        0 <= i < entries.len(),
        entries[i] == key,
        forall|j: int| i < j < entries.len() ==> entries[j] != key,
    ensures
        token_of(entries, key) == Some(i),
{
    lemma_token_of(entries, key);
    if token_of(entries, key) is None {
        assert(entries[i] != key);
    } else {
        let k = token_of(entries, key)->0;
        if k < i {
            assert(entries[i] != key);
        } else if k > i {
            assert(entries[k] != key);
        }
    }
}

/// The token that two neighbours would merge into.
pub open spec fn pair_token(entries: Seq<Seq<u8>>, parts: Seq<Seq<u8>>, i: int) -> Option<int> {
    token_of(entries, parts[i] + parts[i + 1])
}

/// Whether the neighbours `i` and `i + 1` are the next to merge: of all
/// neighbours that form a token they form the one with the lowest id, and they
/// are the leftmost that do.
pub open spec fn is_best_pair(entries: Seq<Seq<u8>>, parts: Seq<Seq<u8>>, i: int) -> bool {
    &&& 0 <= i < parts.len() - 1
    &&& pair_token(entries, parts, i) is Some
    &&& forall|j: int|
        0 <= j < parts.len() - 1 && (#[trigger] pair_token(entries, parts, j)) is Some ==> {
            let a = pair_token(entries, parts, i)->0;
            let b = pair_token(entries, parts, j)->0;
            a < b || (a == b && i <= j)
        }
}

/// `parts` with the neighbours `i` and `i + 1` merged.
pub open spec fn merge_pair(parts: Seq<Seq<u8>>, i: int) -> Seq<Seq<u8>> {
    parts.take(i).push(parts[i] + parts[i + 1]) + parts.skip(i + 2)
}

/// `parts` after merging the best pair for as long as there is one.
pub open spec fn fully_merged(entries: Seq<Seq<u8>>, parts: Seq<Seq<u8>>) -> Seq<Seq<u8>>
    decreases parts.len(),
{
    if exists|i: int| is_best_pair(entries, parts, i) {
        let i = choose|i: int| is_best_pair(entries, parts, i);
        fully_merged(entries, merge_pair(parts, i))
    } else {
        parts
    }
}

/// Each byte of a piece by itself.
pub open spec fn single_parts(piece: Seq<u8>) -> Seq<Seq<u8>> {
    Seq::new(piece.len(), |i: int| seq![piece[i]])
}

/// The tokens of one piece. A piece of one byte is that byte's token; a longer
/// one is merged as far as it goes, and each part looked up.
pub open spec fn piece_tokens(entries: Seq<Seq<u8>>, piece: Seq<u8>) -> Seq<u32> {
    if piece.len() == 1 {
        seq![piece[0] as u32]
    } else {
        let parts = fully_merged(entries, single_parts(piece));
        Seq::new(parts.len(), |i: int| token_of(entries, parts[i])->0 as u32)
    }
}

/// The first 256 entries are the single bytes.
pub open spec fn has_single_bytes(entries: Seq<Seq<u8>>) -> bool {
    &&& entries.len() >= 256
    &&& forall|i: int| 0 <= i < 256 ==> #[trigger] entries[i] == seq![i as u8]
}

pub proof fn lemma_concat_singles(piece: Seq<u8>)
    ensures
        concat(single_parts(piece)) == piece,
    decreases piece.len(),
{
    if piece.len() > 0 {
        lemma_concat_singles(piece.drop_last());
        assert(single_parts(piece).drop_last() == single_parts(piece.drop_last()));
        assert(concat(single_parts(piece)) == piece);
    } else {
        assert(concat(single_parts(piece)) == piece);
    }
}

/// At most one pair is the best.
pub proof fn lemma_best_pair_unique(
    entries: Seq<Seq<u8>>,
    parts: Seq<Seq<u8>>,
    i: int,
    j: int,
)
    requires
        is_best_pair(entries, parts, i),
        is_best_pair(entries, parts, j),
    ensures
        i == j,
{
    assert(pair_token(entries, parts, i) is Some);
    assert(pair_token(entries, parts, j) is Some);
}

/// Merging a pair keeps the bytes in their order.
pub proof fn lemma_concat_merge(parts: Seq<Seq<u8>>, i: int)
    requires
        0 <= i < parts.len() - 1,
    ensures
        concat(merge_pair(parts, i)) == concat(parts),
{
    let head = parts.take(i);
    let tail = parts.skip(i + 2);
    let pair = seq![parts[i], parts[i + 1]];
    let one = seq![parts[i] + parts[i + 1]];
    assert(merge_pair(parts, i) == head + one + tail);
    assert(parts == head + pair + tail);
    lemma_concat_add(head + one, tail);
    lemma_concat_add(head, one);
    lemma_concat_add(head + pair, tail);
    lemma_concat_add(head, pair);
    assert(pair.drop_last() == seq![parts[i]]);
    assert(pair.drop_last().drop_last() == Seq::<Seq<u8>>::empty());
    assert(concat(pair.drop_last().drop_last()) == Seq::<u8>::empty());
    assert(concat(pair.drop_last()) == parts[i]);
    assert(concat(pair) == parts[i] + parts[i + 1]);
    assert(one.drop_last() == Seq::<Seq<u8>>::empty());
    assert(concat(one.drop_last()) == Seq::<u8>::empty());
    assert(concat(one) == parts[i] + parts[i + 1]);
}

/// Merging as far as it goes keeps the bytes in their order, and leaves tokens
/// where there were tokens.
pub proof fn lemma_fully_merged(entries: Seq<Seq<u8>>, parts: Seq<Seq<u8>>)
    requires
        forall|k: int| 0 <= k < parts.len() ==> (#[trigger] token_of(entries, parts[k])) is Some,
    ensures
        concat(fully_merged(entries, parts)) == concat(parts),
        forall|k: int|
            0 <= k < fully_merged(entries, parts).len() ==> (#[trigger] token_of(
                entries,
                fully_merged(entries, parts)[k],
            )) is Some,
    decreases parts.len(),
{
    if exists|i: int| is_best_pair(entries, parts, i) {
        let i = choose|i: int| is_best_pair(entries, parts, i);
        let next = merge_pair(parts, i);
        assert forall|k: int| 0 <= k < next.len() implies (#[trigger] token_of(
            entries,
            next[k],
        )) is Some by {
            if k < i {
                assert(next[k] == parts[k]);
            } else if k == i {
                assert(next[k] == parts[i] + parts[i + 1]);
                assert(pair_token(entries, parts, i) is Some);
            } else {
                assert(next[k] == parts[k + 1]);
            }
        }
        lemma_concat_merge(parts, i);
        lemma_fully_merged(entries, next);
    }
}

/// Every single byte is a token of a vocabulary that holds the single bytes.
pub proof fn lemma_single_tokens(entries: Seq<Seq<u8>>, piece: Seq<u8>)
    requires
        has_single_bytes(entries),
    ensures
        forall|k: int|
            0 <= k < piece.len() ==> (#[trigger] token_of(entries, single_parts(piece)[k])) is Some,
{
    assert forall|k: int| 0 <= k < piece.len() implies (#[trigger] token_of(
        entries,
        single_parts(piece)[k],
    )) is Some by {
        let key = single_parts(piece)[k];
        lemma_token_of(entries, key);
        let b = piece[k] as int;
        assert(entries[b] == seq![b as u8]);
        assert(entries[b] == key);
    }
}

/// The bytes of a sequence of ids.
pub open spec fn token_bytes(entries: Seq<Seq<u8>>, ids: Seq<u32>) -> Seq<u8> {
    concat(Seq::new(ids.len(), |i: int| entries[ids[i] as int]))
}

pub proof fn lemma_token_bytes_add(entries: Seq<Seq<u8>>, a: Seq<u32>, b: Seq<u32>)
    ensures
        token_bytes(entries, a + b) == token_bytes(entries, a) + token_bytes(entries, b),
{
    let f = |ids: Seq<u32>| Seq::new(ids.len(), |i: int| entries[ids[i] as int]);
    assert(f(a + b) == f(a) + f(b));
    lemma_concat_add(f(a), f(b));
}

/// The tokens of a piece are ids of the table, and their bytes are the piece.
pub proof fn lemma_piece_tokens(entries: Seq<Seq<u8>>, piece: Seq<u8>)
    requires
        has_single_bytes(entries),
        entries.len() <= u32::MAX,
    ensures
        token_bytes(entries, piece_tokens(entries, piece)) == piece,
        forall|k: int|
            0 <= k < piece_tokens(entries, piece).len() ==> (#[trigger] piece_tokens(
                entries,
                piece,
            )[k]) < entries.len(),
{
    let ids = piece_tokens(entries, piece);
    let bytes = Seq::new(ids.len(), |i: int| entries[ids[i] as int]);
    if piece.len() == 1 {
        let b = piece[0] as int;
        assert(entries[b] == seq![b as u8]);
        assert(bytes.drop_last() == Seq::<Seq<u8>>::empty());
        assert(concat(bytes.drop_last()) == Seq::<u8>::empty());
        assert(concat(bytes) == piece);
    } else {
        let parts = fully_merged(entries, single_parts(piece));
        lemma_single_tokens(entries, piece);
        lemma_fully_merged(entries, single_parts(piece));
        lemma_concat_singles(piece);
        assert forall|k: int| 0 <= k < parts.len() implies ids[k] < entries.len() && bytes[k]
            == parts[k] by {
            lemma_token_of(entries, parts[k]);
            assert(token_of(entries, parts[k]) is Some);
        }
        assert(bytes == parts);
    }
}

// ---------------------------------------------------------------------------
// From bytes to ids
// ---------------------------------------------------------------------------

pub const HASH_START: u64 = 0xcbf2_9ce4_8422_2325;

pub const HASH_PRIME: u64 = 0x0000_0100_0000_01b3;

/// The hash by which the lookup table finds a key's bucket.
pub open spec fn key_hash(key: Seq<u8>) -> u64
    decreases key.len(),
{
    if key.len() == 0 {
        HASH_START
    } else {
        (key_hash(key.drop_last()) ^ (key.last() as u64)).wrapping_mul(HASH_PRIME)
    }
}

fn hash_key(key: &[u8]) -> (h: u64)
    ensures
        h == key_hash(key@),
{
    let mut h: u64 = HASH_START;
    let mut i: usize = 0;
    assert(key@.take(0) == Seq::<u8>::empty());
    while i < key.len()
        invariant
            i <= key@.len(),
            h == key_hash(key@.take(i as int)),
        decreases key@.len() - i,
    {
        assert(key@.take(i + 1).drop_last() == key@.take(i as int));
        h = (h ^ (key[i] as u64)).wrapping_mul(HASH_PRIME);
        i += 1;
    }
    assert(key@.take(i as int) == key@);
    h
}

fn same_bytes(a: &[u8], b: &[u8]) -> (r: bool)
    ensures
        r == (a@ == b@),
{
    if a.len() != b.len() {
        return false;
    }
    let mut i: usize = 0;
    while i < a.len()
        invariant
            i <= a@.len(),
            a@.len() == b@.len(),
            forall|k: int| 0 <= k < i ==> a@[k] == b@[k],
        decreases a@.len() - i,
    {
        if a[i] != b[i] {
            assert(a@[i as int] != b@[i as int]);
            return false;
        }
        i += 1;
    }
    assert(a@ =~= b@);
    true
}

/// A lookup table from bytes to token ids.
pub struct TokenIndex {
    buckets: Vec<Vec<u32>>,
}

impl TokenIndex {
    /// The bucket of `key`.
    closed spec fn bucket(self, key: Seq<u8>) -> Seq<u32> {
        self.buckets@[key_hash(key) as int % self.buckets@.len() as int]@
    }

    /// Whether every entry is in its bucket, in ascending order of the ids.
    pub closed spec fn indexes(self, entries: Seq<Seq<u8>>) -> bool {
        &&& self.buckets@.len() > 0
        &&& forall|id: int|
            #![trigger entries[id]]
            0 <= id < entries.len() ==> self.bucket(entries[id]).contains(id as u32)
        &&& forall|b: int, k: int|
            0 <= b < self.buckets@.len() && 0 <= k < self.buckets@[b]@.len()
                ==> (#[trigger] self.buckets@[b]@[k]) < entries.len()
        &&& forall|b: int, j: int, k: int|
            0 <= b < self.buckets@.len() && 0 <= j < k < self.buckets@[b]@.len()
                ==> (#[trigger] self.buckets@[b]@[j]) < (#[trigger] self.buckets@[b]@[k])
    }

    /// Builds the table of `entries`.
    pub fn build(entries: &Vec<Vec<u8>>) -> (r: TokenIndex)
        requires
            entries@.len() <= u32::MAX,
        ensures
            r.indexes(views(entries@)),
    {
        let n: usize = if entries.len() == 0 {
            1
        } else {
            entries.len()
        };
        let mut buckets: Vec<Vec<u32>> = Vec::new();
        let mut i: usize = 0;
        while i < n
            invariant
                i <= n,
                buckets@.len() == i,
                forall|b: int| 0 <= b < i ==> (#[trigger] buckets@[b])@.len() == 0,
            decreases n - i,
        {
            buckets.push(Vec::new());
            i += 1;
        }
        let mut r = TokenIndex { buckets };
        let ghost all = views(entries@);
        let mut id: usize = 0;
        assert(r.indexes(all.take(0)));
        while id < entries.len()
            invariant
                id <= entries@.len(),
                entries@.len() <= u32::MAX,
                n > 0,
                r.buckets@.len() == n,
                all == views(entries@),
                r.indexes(all.take(id as int)),
            decreases entries@.len() - id,
        {
            let ghost before = r;
            let ghost done = all.take(id as int);
            let h: u64 = hash_key(entries[id].as_slice());
            let b: usize = (h % (n as u64)) as usize;
            let mut bucket: Vec<u32> = Vec::new();
            std::mem::swap(&mut bucket, &mut r.buckets[b]);
            assert(bucket@ == before.buckets@[b as int]@);
            bucket.push(id as u32);
            std::mem::swap(&mut bucket, &mut r.buckets[b]);
            id += 1;
            proof {
                let now = all.take(id as int);
                assert(now == done.push(all[id - 1]));
                assert(r.buckets@[b as int]@ == before.buckets@[b as int]@.push((id - 1) as u32));
                assert forall|c: int| 0 <= c < n && c != b implies (#[trigger] r.buckets@[c])
                    == before.buckets@[c] by {}
                assert forall|k: int| #![trigger now[k]] 0 <= k < now.len() implies r.bucket(
                    now[k],
                ).contains(k as u32) by {
                    let c = key_hash(now[k]) as int % n as int;
                    if k < id - 1 {
                        assert(now[k] == done[k]);
                        assert(before.bucket(done[k]).contains(k as u32));
                        let at = choose|at: int|
                            0 <= at < before.bucket(done[k]).len() && before.bucket(done[k])[at]
                                == k as u32;
                        assert(r.bucket(now[k])[at] == k as u32);
                    } else {
                        assert(c == b);
                        let last = r.bucket(now[k]).len() - 1;
                        assert(r.bucket(now[k])[last] == k as u32);
                    }
                }
            }
        }
        assert(all.take(id as int) == all);
        r
    }

    /// The id of the token with the bytes `key`.
    pub fn get(&self, entries: &Vec<Vec<u8>>, key: &[u8]) -> (r: Option<u32>)
        requires
            self.indexes(views(entries@)),
            entries@.len() <= u32::MAX,
        ensures
            match r {
                Some(id) => token_of(views(entries@), key@) == Some(id as int),
                None => token_of(views(entries@), key@) is None,
            },
    {
        let ghost all = views(entries@);
        let h: u64 = hash_key(key);
        let b: usize = (h % (self.buckets.len() as u64)) as usize;
        let bucket: &Vec<u32> = &self.buckets[b];
        assert(bucket@ == self.bucket(key@));
        let mut k: usize = bucket.len();
        while k > 0
            invariant
                k <= bucket@.len(),
                bucket@ == self.bucket(key@),
                bucket@ == self.buckets@[b as int]@,
                0 <= b < self.buckets@.len(),
                all == views(entries@),
                self.indexes(all),
                entries@.len() <= u32::MAX,
                forall|j: int| k <= j < bucket@.len() ==> all[#[trigger] bucket@[j] as int] != key@,
            decreases k,
        {
            k -= 1;
            let id: u32 = bucket[k];
            assert(self.buckets@[b as int]@[k as int] < all.len());
            if same_bytes(entries[id as usize].as_slice(), key) {
                proof {
                    assert forall|j: int| id < j < all.len() implies all[j] != key@ by {
                        if all[j] == key@ {
                            assert(self.bucket(all[j]).contains(j as u32));
                            let at = choose|at: int|
                                0 <= at < bucket@.len() && bucket@[at] == j as u32;
                            if at <= k {
                                if at < k {
                                    assert(self.buckets@[b as int]@[at]
                                        < self.buckets@[b as int]@[k as int]);
                                }
                            } else {
                                assert(all[bucket@[at] as int] != key@);
                            }
                        }
                    }
                    lemma_token_of_last(all, key@, id as int);
                }
                return Some(id);
            }
        }
        proof {
            lemma_token_of(all, key@);
            if token_of(all, key@) is Some {
                let j = token_of(all, key@)->0;
                assert(all[j] == key@);
                assert(self.bucket(all[j]).contains(j as u32));
                let at = choose|at: int| 0 <= at < bucket@.len() && bucket@[at] == j as u32;
                assert(all[bucket@[at] as int] != key@);
            }
        }
        None
    }
}


// ---------------------------------------------------------------------------
// The merge itself
// ---------------------------------------------------------------------------

/// Where part `i` of a piece of `n` bytes starts: at its cut, or at the end of
/// the piece after the last part.
spec fn cut_at(cuts: Seq<usize>, n: int, i: int) -> int {
    if i < cuts.len() {
        cuts[i] as int
    } else {
        n
    }
}

/// The parts of `piece` that start at the cuts.
spec fn cut_parts(piece: Seq<u8>, cuts: Seq<usize>) -> Seq<Seq<u8>> {
    Seq::new(
        cuts.len(),
        |i: int| piece.subrange(cuts[i] as int, cut_at(cuts, piece.len() as int, i + 1)),
    )
}

/// Whether `cuts` starts at the start of `piece` and ascends within it.
spec fn is_cut(piece: Seq<u8>, cuts: Seq<usize>) -> bool {
    &&& (cuts.len() == 0 <==> piece.len() == 0)
    &&& cuts.len() > 0 ==> cuts[0] == 0
    &&& forall|i: int| 0 <= i < cuts.len() ==> #[trigger] cuts[i] < piece.len()
    &&& forall|i: int, j: int| 0 <= i < j < cuts.len() ==> cuts[i] < cuts[j]
}

/// The end of part `i` of a cut piece of `n` bytes.
fn part_end(cuts: &Vec<usize>, n: usize, i: usize) -> (e: usize)
    requires
        i < cuts@.len(),
    ensures
        e == cut_at(cuts@, n as int, i + 1),
{
    let count: usize = cuts.len();
    if i < count - 1 {
        cuts[i + 1]
    } else {
        n
    }
}

/// Whether `ranks[i]` is the token that the parts `i` and `i + 1` form.
spec fn ranks_match(
    entries: Seq<Seq<u8>>,
    parts: Seq<Seq<u8>>,
    ranks: Seq<Option<u32>>,
    i: int,
) -> bool {
    match ranks[i] {
        Some(r) => pair_token(entries, parts, i) == Some(r as int),
        None => pair_token(entries, parts, i) is None,
    }
}

/// The id of the token that the parts `i` and `i + 1` of the cut piece form.
fn pair_rank(
    index: &TokenIndex,
    entries: &Vec<Vec<u8>>,
    piece: &[u8],
    cuts: &Vec<usize>,
    i: usize,
) -> (r: Option<u32>)
    requires
        index.indexes(views(entries@)),
        entries@.len() <= u32::MAX,
        is_cut(piece@, cuts@),
        i + 1 < cuts@.len(),
    ensures
        match r {
            Some(id) => pair_token(views(entries@), cut_parts(piece@, cuts@), i as int) == Some(
                id as int,
            ),
            None => pair_token(views(entries@), cut_parts(piece@, cuts@), i as int) is None,
        },
{
    let count: usize = cuts.len();
    assert(i + 1 < count);
    let end: usize = part_end(cuts, piece.len(), i + 1);
    proof {
        assert(cuts@[i as int] < cuts@[i + 1]);
        let parts = cut_parts(piece@, cuts@);
        assert(cuts@[i + 1] < end <= piece@.len());
        assert(parts[i as int] + parts[i + 1] == piece@.subrange(
            cuts@[i as int] as int,
            end as int,
        ));
    }
    index.get(entries, slice_subrange(piece, cuts[i], end))
}

/// The position of the best pair, by the ids that the pairs form.
fn find_best(ranks: &Vec<Option<u32>>) -> (r: Option<usize>)
    ensures
        match r {
            Some(i) => {
                &&& i < ranks@.len()
                &&& ranks@[i as int] is Some
                &&& forall|j: int|
                    0 <= j < ranks@.len() && (#[trigger] ranks@[j]) is Some ==> ranks@[i as int]->0
                        < ranks@[j]->0 || (ranks@[i as int]->0 == ranks@[j]->0 && i <= j)
            },
            None => forall|j: int| 0 <= j < ranks@.len() ==> (#[trigger] ranks@[j]) is None,
        },
{
    let mut best: Option<usize> = None;
    let mut k: usize = 0;
    while k < ranks.len()
        invariant
            k <= ranks@.len(),
            match best {
                Some(i) => {
                    &&& i < k
                    &&& ranks@[i as int] is Some
                    &&& forall|j: int|
                        0 <= j < k && (#[trigger] ranks@[j]) is Some ==> ranks@[i as int]->0
                            < ranks@[j]->0 || (ranks@[i as int]->0 == ranks@[j]->0 && i <= j)
                },
                None => forall|j: int| 0 <= j < k ==> (#[trigger] ranks@[j]) is None,
            },
        decreases ranks@.len() - k,
    {
        if let Some(r) = ranks[k] {
            match best {
                None => {
                    best = Some(k);
                },
                Some(i) => {
                    if let Some(b) = ranks[i] {
                        if r < b {
                            best = Some(k);
                        }
                    }
                },
            }
        }
        k += 1;
    }
    best
}

/// Whether `cuts` cuts the piece and `ranks` holds the token of each pair.
spec fn is_ranked_cut(
    entries: Seq<Seq<u8>>,
    piece: Seq<u8>,
    cuts: Seq<usize>,
    ranks: Seq<Option<u32>>,
) -> bool {
    &&& is_cut(piece, cuts)
    &&& ranks.len() == (if cuts.len() >= 1 { cuts.len() - 1 } else { 0 })
    &&& forall|k: int|
        0 <= k < ranks.len() ==> #[trigger] ranks_match(entries, cut_parts(piece, cuts), ranks, k)
}

/// Cuts a piece into its single bytes.
fn initial_cuts(n: usize) -> (cuts: Vec<usize>)
    ensures
        cuts@.len() == n,
        forall|k: int| 0 <= k < n ==> #[trigger] cuts@[k] == k,
{
    let mut cuts: Vec<usize> = Vec::new();
    let mut i: usize = 0;
    while i < n
        invariant
            i <= n,
            cuts@.len() == i,
            forall|k: int| 0 <= k < i ==> #[trigger] cuts@[k] == k,
        decreases n - i,
    {
        cuts.push(i);
        i += 1;
    }
    cuts
}

/// The token of each pair of a cut piece.
fn initial_ranks(
    index: &TokenIndex,
    entries: &Vec<Vec<u8>>,
    piece: &[u8],
    cuts: &Vec<usize>,
) -> (ranks: Vec<Option<u32>>)
    requires
        index.indexes(views(entries@)),
        entries@.len() <= u32::MAX,
        is_cut(piece@, cuts@),
    ensures
        is_ranked_cut(views(entries@), piece@, cuts@, ranks@),
{
    let ghost all = views(entries@);
    let mut ranks: Vec<Option<u32>> = Vec::new();
    let mut i: usize = 0;
    let count: usize = cuts.len();
    while count >= 1 && i < count - 1
        invariant
            count == cuts@.len(),
            count < 1 ==> i == 0,
            count >= 1 ==> i <= count - 1,
            is_cut(piece@, cuts@),
            ranks@.len() == i,
            all == views(entries@),
            index.indexes(all),
            entries@.len() <= u32::MAX,
            forall|k: int|
                0 <= k < i ==> #[trigger] ranks_match(all, cut_parts(piece@, cuts@), ranks@, k),
        decreases count - i,
    {
        let r = pair_rank(index, entries, piece, cuts, i);
        let ghost old_ranks = ranks@;
        ranks.push(r);
        assert forall|k: int| 0 <= k < i + 1 implies #[trigger] ranks_match(
            all,
            cut_parts(piece@, cuts@),
            ranks@,
            k,
        ) by {
            if k < i {
                assert(ranks_match(all, cut_parts(piece@, cuts@), old_ranks, k));
            }
        }
        i += 1;
    }
    ranks
}

/// Merges the parts `b` and `b + 1`.
fn apply_merge(
    index: &TokenIndex,
    entries: &Vec<Vec<u8>>,
    piece: &[u8],
    cuts: &mut Vec<usize>,
    ranks: &mut Vec<Option<u32>>,
    b: usize,
)
    requires
        index.indexes(views(entries@)),
        entries@.len() <= u32::MAX,
        is_ranked_cut(views(entries@), piece@, old(cuts)@, old(ranks)@),
        b < old(ranks)@.len(),
    ensures
        is_ranked_cut(views(entries@), piece@, final(cuts)@, final(ranks)@),
        final(cuts)@.len() == old(cuts)@.len() - 1,
        cut_parts(piece@, final(cuts)@) == merge_pair(cut_parts(piece@, old(cuts)@), b as int),
{
    let ghost all = views(entries@);
    let ghost parts = cut_parts(piece@, cuts@);
    let ghost old_ranks = ranks@;
    let ghost old_cuts = cuts@;
    let count: usize = cuts.len();
    assert(b + 1 < count);
    cuts.remove(b + 1);
    ranks.remove(b);
    let ghost merged = cut_parts(piece@, cuts@);
    proof {
        lemma_remove_cut(piece@, old_cuts, b as int);
        assert(merged == merge_pair(parts, b as int));
    }
    if b < ranks.len() {
        let r = pair_rank(index, entries, piece, cuts, b);
        ranks.set(b, r);
    }
    if b > 0 {
        let r = pair_rank(index, entries, piece, cuts, b - 1);
        ranks.set(b - 1, r);
    }
    assert forall|k: int| 0 <= k < ranks@.len() implies #[trigger] ranks_match(
        all,
        merged,
        ranks@,
        k,
    ) by {
        if k < b - 1 {
            assert(ranks_match(all, parts, old_ranks, k));
            assert(merged[k] == parts[k] && merged[k + 1] == parts[k + 1]);
        } else if k > b {
            assert(ranks_match(all, parts, old_ranks, k + 1));
            assert(merged[k] == parts[k + 1] && merged[k + 1] == parts[k + 2]);
        }
    }
}

/// The best pair by the ids that the pairs form is the best pair.
proof fn lemma_best_by_rank(
    entries: Seq<Seq<u8>>,
    parts: Seq<Seq<u8>>,
    ranks: Seq<Option<u32>>,
    b: int,
)
    requires
        ranks.len() == (if parts.len() >= 1 { parts.len() - 1 } else { 0 }),
        forall|k: int| 0 <= k < ranks.len() ==> #[trigger] ranks_match(entries, parts, ranks, k),
        0 <= b < ranks.len(),
        ranks[b] is Some,
        forall|j: int|
            0 <= j < ranks.len() && (#[trigger] ranks[j]) is Some ==> ranks[b]->0 < ranks[j]->0
                || (ranks[b]->0 == ranks[j]->0 && b <= j),
    ensures
        fully_merged(entries, parts) == fully_merged(entries, merge_pair(parts, b)),
{
    assert(ranks_match(entries, parts, ranks, b));
    assert forall|j: int|
        0 <= j < parts.len() - 1 && (#[trigger] pair_token(entries, parts, j)) is Some implies {
        let x = pair_token(entries, parts, b)->0;
        let y = pair_token(entries, parts, j)->0;
        x < y || (x == y && b <= j)
    } by {
        assert(ranks_match(entries, parts, ranks, j));
        assert(ranks[j] is Some);
    }
    assert(is_best_pair(entries, parts, b));
    let c = choose|c: int| is_best_pair(entries, parts, c);
    lemma_best_pair_unique(entries, parts, b, c);
}

/// Encodes one piece: the greedy merge of its bytes.
pub fn encode_piece(index: &TokenIndex, entries: &Vec<Vec<u8>>, piece: &[u8]) -> (ids: Vec<u32>)
    requires
        index.indexes(views(entries@)),
        has_single_bytes(views(entries@)),
        entries@.len() <= u32::MAX,
    ensures
        ids@ == piece_tokens(views(entries@), piece@),
{
    let ghost all = views(entries@);
    let mut ids: Vec<u32> = Vec::new();
    if piece.len() == 1 {
        ids.push(piece[0] as u32);
        return ids;
    }
    let mut cuts: Vec<usize> = initial_cuts(piece.len());
    assert(cut_parts(piece@, cuts@) == single_parts(piece@)) by {
        assert forall|k: int| 0 <= k < piece@.len() implies cut_parts(piece@, cuts@)[k]
            == seq![piece@[k]] by {
            assert(cuts@[k] == k);
            if k + 1 < piece@.len() {
                assert(cuts@[k + 1] == k + 1);
            }
        }
    }
    let mut ranks: Vec<Option<u32>> = initial_ranks(index, entries, piece, &cuts);
    proof {
        lemma_single_tokens(all, piece@);
    }
    let ghost whole = fully_merged(all, single_parts(piece@));
    let mut best: Option<usize> = find_best(&ranks);
    while best.is_some()
        invariant
            is_ranked_cut(all, piece@, cuts@, ranks@),
            all == views(entries@),
            index.indexes(all),
            entries@.len() <= u32::MAX,
            fully_merged(all, cut_parts(piece@, cuts@)) == whole,
            match best {
                Some(i) => {
                    &&& i < ranks@.len()
                    &&& ranks@[i as int] is Some
                    &&& forall|j: int|
                        0 <= j < ranks@.len() && (#[trigger] ranks@[j]) is Some
                            ==> ranks@[i as int]->0 < ranks@[j]->0 || (ranks@[i as int]->0
                            == ranks@[j]->0 && i <= j)
                },
                None => forall|j: int| 0 <= j < ranks@.len() ==> (#[trigger] ranks@[j]) is None,
            },
        decreases cuts@.len(),
    {
        let b: usize = best.unwrap();
        proof {
            lemma_best_by_rank(all, cut_parts(piece@, cuts@), ranks@, b as int);
        }
        apply_merge(index, entries, piece, &mut cuts, &mut ranks, b);
        best = find_best(&ranks);
    }
    let ghost parts = cut_parts(piece@, cuts@);
    proof {
        assert forall|j: int| !is_best_pair(all, parts, j) by {
            if 0 <= j < parts.len() - 1 {
                assert(ranks_match(all, parts, ranks@, j));
                assert(ranks@[j] is None);
            }
        }
        lemma_fully_merged(all, single_parts(piece@));
    }
    let mut i: usize = 0;
    while i < cuts.len()
        invariant
            i <= cuts@.len(),
            is_cut(piece@, cuts@),
            parts == cut_parts(piece@, cuts@),
            all == views(entries@),
            index.indexes(all),
            entries@.len() <= u32::MAX,
            forall|k: int| 0 <= k < parts.len() ==> (#[trigger] token_of(all, parts[k])) is Some,
            ids@.len() == i,
            forall|k: int|
                0 <= k < i ==> #[trigger] ids@[k] == token_of(all, parts[k])->0 as u32,
        decreases cuts@.len() - i,
    {
        let end: usize = part_end(&cuts, piece.len(), i);
        proof {
            if i + 1 < cuts@.len() {
                assert(cuts@[i as int] < cuts@[i + 1]);
            }
            assert(token_of(all, parts[i as int]) is Some);
        }
        match index.get(entries, slice_subrange(piece, cuts[i], end)) {
            Some(id) => {
                ids.push(id);
            },
            None => {
                assert(false);
            },
        }
        i += 1;
    }
    assert(ids@ == piece_tokens(all, piece@));
    ids
}

/// Taking out the cut between two parts merges them.
proof fn lemma_remove_cut(piece: Seq<u8>, cuts: Seq<usize>, b: int)
    requires
        is_cut(piece, cuts),
        0 <= b,
        b + 1 < cuts.len(),
    ensures
        is_cut(piece, cuts.remove(b + 1)),
        cut_parts(piece, cuts.remove(b + 1)) == merge_pair(cut_parts(piece, cuts), b),
{
    let next = cuts.remove(b + 1);
    let parts = cut_parts(piece, cuts);
    let want = merge_pair(parts, b);
    assert forall|k: int| 0 <= k < next.len() implies #[trigger] next[k] == (if k <= b {
        cuts[k]
    } else {
        cuts[k + 1]
    }) by {}
    let got = cut_parts(piece, next);
    assert(got.len() == want.len());
    assert forall|k: int| 0 <= k < got.len() implies got[k] == want[k] by {
        if k == b {
            assert(cuts[b] < cuts[b + 1]);
            let end = cut_at(cuts, piece.len() as int, b + 2);
            assert(cuts[b + 1] < end <= piece.len());
            assert(piece.subrange(cuts[b] as int, end) == parts[b] + parts[b + 1]);
        }
    }
    assert(got =~= want);
}

} // verus!
