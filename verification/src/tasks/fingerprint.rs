//! What the fingerprint of a pack tells apart.
use vstd::prelude::*;

use super::pack::{digest_fold, digest_step};
use crate::tokenizer::merge::HASH_PRIME;

verus! {

/// Two to the power of 64.
pub open spec fn wrap() -> int {
    0x1_0000_0000_0000_0000
}

/// The number that undoes a multiplication by the prime.
spec fn inverse() -> int {
    0xce96_5057_aff6_957b
}

/// Multiplying by the prime tells all numbers apart.
proof fn lemma_products_differ(a: u64, b: u64)
    requires
        a.wrapping_mul(HASH_PRIME) == b.wrapping_mul(HASH_PRIME),
    ensures
        a == b,
{
    let p = HASH_PRIME as int;
    let (x, y) = (a as int, b as int);
    assert((x * p) % wrap() == (y * p) % wrap());
    assert(p * inverse() == 887285111055 * wrap() + 1) by (nonlinear_arith)
        requires
            p == 0x0000_0100_0000_01b3,
            inverse() == 0xce96_5057_aff6_957b,
            wrap() == 0x1_0000_0000_0000_0000,
    ;
    lemma_undo(x, p);
    lemma_undo(y, p);
    vstd::arithmetic::div_mod::lemma_mul_mod_noop_left(x * p, inverse(), wrap());
    vstd::arithmetic::div_mod::lemma_mul_mod_noop_left(y * p, inverse(), wrap());
}

proof fn lemma_undo(x: int, p: int)
    requires
        0 <= x < wrap(),
        p * inverse() == 887285111055 * wrap() + 1,
    ensures
        (x * p * inverse()) % wrap() == x,
{
    let k = x * 887285111055;
    assert(x * p * inverse() == k * wrap() + x) by (nonlinear_arith)
        requires
            p * inverse() == 887285111055 * wrap() + 1,
            k == x * 887285111055,
    ;
    vstd::arithmetic::div_mod::lemma_fundamental_div_mod_converse(x * p * inverse(), wrap(), k, x);
}

/// A step tells apart what came before it.
proof fn lemma_step_keeps_apart(g: u64, h: u64, token: (u32, bool))
    requires
        digest_step(g, token) == digest_step(h, token),
    ensures
        g == h,
{
    let t: u64 = (token.0 as u64) | (if token.1 {
        0x1_0000_0000u64
    } else {
        0u64
    });
    lemma_products_differ(g ^ t, h ^ t);
    assert(g ^ t == h ^ t ==> g == h) by (bit_vector);
}

/// A step tells apart the tokens that it takes, by their ids and by their masks.
proof fn lemma_step_sees_the_token(h: u64, a: (u32, bool), b: (u32, bool))
    requires
        digest_step(h, a) == digest_step(h, b),
    ensures
        a == b,
{
    let (x, y) = (a.0, b.0);
    let m: u64 = if a.1 {
        0x1_0000_0000u64
    } else {
        0u64
    };
    let n: u64 = if b.1 {
        0x1_0000_0000u64
    } else {
        0u64
    };
    let s: u64 = (x as u64) | m;
    let t: u64 = (y as u64) | n;
    lemma_products_differ(h ^ s, h ^ t);
    assert(h ^ s == h ^ t ==> s == t) by (bit_vector);
    assert(((x as u64) | m) == ((y as u64) | n) ==> x == y && m == n) by (bit_vector)
        requires
            m == 0 || m == 0x1_0000_0000u64,
            n == 0 || n == 0x1_0000_0000u64,
    ;
}

/// Packs that differ in one token, in its id or in its mask, have different
/// fingerprints, before these are cut, wherever it stands.
pub proof fn fingerprints_see_every_token(a: Seq<(u32, bool)>, b: Seq<(u32, bool)>, k: int)
    requires
        a.len() == b.len(),
        0 <= k < a.len(),
        a[k] != b[k],
        forall|i: int| 0 <= i < a.len() && i != k ==> a[i] == b[i],
    ensures
        digest_fold(a) != digest_fold(b),
    decreases a.len(),
{
    let (x, y) = (a.drop_last(), b.drop_last());
    if k == a.len() - 1 {
        assert(x =~= y);
        if digest_fold(a) == digest_fold(b) {
            lemma_step_sees_the_token(digest_fold(x), a.last(), b.last());
        }
    } else {
        fingerprints_see_every_token(x, y, k);
        assert(a.last() == b.last());
        if digest_fold(a) == digest_fold(b) {
            lemma_step_keeps_apart(digest_fold(x), digest_fold(y), a.last());
        }
    }
}

} // verus!
