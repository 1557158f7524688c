//! How near rounded numbers are, and what numbers are by their bits.
use vstd::prelude::*;

use crate::binary64::{
    coarse_unit, fine_unit, fixed, half_even, half_up, nearest, total_place, whole, Real, Real32,
    LEAST_MANTISSA, TOP_MANTISSA,
};
use crate::text::{decimal, zero_padded};

verus! {

// ---------------------------------------------------------------------------
// Rounding
// ---------------------------------------------------------------------------

/// Rounding to a whole number is off by half at most. Where two are equally near,
/// one rounding takes the even and the other the greater.
pub proof fn rounding_is_off_by_half_at_most(num: nat, den: nat)
    requires
        den > 0,
    ensures
        -(den as int) <= 2 * (half_even(num, den) * den - num) <= den,
        -(den as int) < 2 * (half_up(num, den) * den - num) <= den,
        2 * (half_even(num, den) * den - num) == den || 2 * (num - half_even(num, den) * den) == den
            ==> half_even(num, den) % 2 == 0,
{
    let (n, d) = (num as int, den as int);
    vstd::arithmetic::div_mod::lemma_fundamental_div_mod(n, d);
    vstd::arithmetic::div_mod::lemma_mod_bound(n, d);
    let q = n / d;
    let r = n % d;
    assert((q + 1) * d == d * q + d && q * d == d * q) by (nonlinear_arith);
    let h = (2 * n + d) / (2 * d);
    vstd::arithmetic::div_mod::lemma_fundamental_div_mod(2 * n + d, 2 * d);
    vstd::arithmetic::div_mod::lemma_mod_bound(2 * n + d, 2 * d);
    let s = (2 * n + d) % (2 * d);
    assert((2 * d) * h == 2 * (h * d)) by (nonlinear_arith);
}

proof fn lemma_fine_unit(num: nat, den: nat, unit: nat)
    requires
        unit > 0,
        num > 0,
        den > 0,
    ensures
        fine_unit(num, den, unit) >= unit,
        num * fine_unit(num, den, unit) >= LEAST_MANTISSA * den,
        fine_unit(num, den, unit) == unit || num * fine_unit(num, den, unit) < TOP_MANTISSA * den,
    decreases 2 * (LEAST_MANTISSA * den) - num * unit,
{
    if num * unit < LEAST_MANTISSA * den {
        assert(num * (2 * unit) == 2 * (num * unit)) by (nonlinear_arith);
        assert(num * unit > 0) by (nonlinear_arith)
            requires
                num > 0,
                unit > 0,
        ;
        lemma_fine_unit(num, den, 2 * unit);
    }
}

/// The double-precision number nearest to a quotient below two to the power of 53 is
/// off by half a unit at most, where the number itself is two to the power of 52
/// units or more: a part in two to the power of 53.
pub proof fn quotients_are_off_by_half_a_unit_at_most(num: nat, den: nat)
    requires
        den > 0,
        num < TOP_MANTISSA * den,
    ensures
        ({
            let (m, u) = nearest(num, den);
            &&& u > 0
            &&& -(den as int) <= 2 * (m * den - num * u) <= den
            &&& num > 0 ==> num * u >= LEAST_MANTISSA * den
            &&& num == 0 ==> m == 0
        }),
{
    let u = fine_unit(num, den, 1);
    if num > 0 {
        lemma_fine_unit(num, den, 1);
    }
    rounding_is_off_by_half_at_most(num * u, den);
}

/// A whole number of no more than 53 binary digits is a double-precision number
/// itself.
pub proof fn small_whole_numbers_are_exact(n: nat)
    requires
        n < TOP_MANTISSA,
    ensures
        whole(n) == n,
{
    assert(coarse_unit(n, 1, 1) == 1);
    assert(half_even(n, 1) == n);
}

/// A number with a number of decimal places is shown as the nearest that has no
/// more: its digits before and behind the point make up a whole number of tenths,
/// hundredths or thousandths that is off by half at most.
pub proof fn shown_numbers_are_off_by_half_a_place_at_most(d: (nat, nat), digits: nat) -> (q: nat)
    requires
        d.1 > 0,
        1 <= digits <= 3,
    ensures
        ({
            let ten: nat = if digits == 1 {
                10
            } else if digits == 2 {
                100
            } else {
                1000
            };
            &&& -(d.1 as int) <= 2 * (q * d.1 - d.0 * ten) <= d.1
            &&& fixed(d, digits) == decimal(q / ten) + seq!['.'] + zero_padded(q % ten, digits)
        }),
{
    let ten: nat = if digits == 1 {
        10
    } else if digits == 2 {
        100
    } else {
        1000
    };
    let q = half_even(d.0 * ten, d.1);
    rounding_is_off_by_half_at_most(d.0 * ten, d.1);
    reveal_strlit(".");
    assert("."@ =~= seq!['.']);
    q
}

// ---------------------------------------------------------------------------
// Numbers by their bits
// ---------------------------------------------------------------------------

/// What a number is can be told from its bits: finite below the bits of infinity,
/// above zero without a sign, and at most one up to the bits of one. A zero may have
/// a sign.
pub proof fn numbers_are_told_by_their_bits(r: Real)
    ensures
        r.finite() <==> r.bits % 0x8000_0000_0000_0000 < 0x7ff0_0000_0000_0000,
        r.is_number() <==> r.bits % 0x8000_0000_0000_0000 <= 0x7ff0_0000_0000_0000,
        r.above_zero() <==> 0 < r.bits <= 0x7ff0_0000_0000_0000,
        r.in_unit() <==> r.bits <= 0x3ff0_0000_0000_0000 || r.bits == 0x8000_0000_0000_0000,
        r.is_number() && r.place() < 0 <==> 0x8000_0000_0000_0000 < r.bits <= 0xfff0_0000_0000_0000,
{
}

/// Of two numbers without a sign the one with the lesser bits is less; of two with a
/// sign, the one with the greater; and a number with a sign is less than one without,
/// unless both are zero.
pub proof fn numbers_are_ordered_by_their_bits(a: Real, b: Real)
    requires
        a.bits % 0x8000_0000_0000_0000 <= 0x7ff0_0000_0000_0000,
        b.bits % 0x8000_0000_0000_0000 <= 0x7ff0_0000_0000_0000,
    ensures
        ({
            let sign = 0x8000_0000_0000_0000u64;
            &&& a.bits < sign && b.bits < sign ==> (a.below(b) <==> a.bits < b.bits)
            &&& a.bits >= sign && b.bits >= sign ==> (a.below(b) <==> b.bits < a.bits)
            &&& a.bits >= sign && b.bits < sign ==> (a.below(b) <==> !(a.bits == sign && b.bits == 0))
            &&& a.bits < sign && b.bits >= sign ==> !a.below(b)
        }),
{
}

/// What is no number is neither less nor greater than anything.
pub proof fn what_is_no_number_is_not_compared(a: Real, b: Real)
    requires
        a.bits % 0x8000_0000_0000_0000 > 0x7ff0_0000_0000_0000,
    ensures
        !a.below(b),
        !b.below(a),
        !a.in_unit(),
        !a.above_zero(),
        !a.finite(),
{
}

/// Scores are ordered as their bits are: those without a sign by their bits, those
/// with a sign the other way round and below all without.
pub proof fn scores_are_ordered_by_their_bits(a: Real32, b: Real32)
    ensures
        a.bits < 0x8000_0000 && b.bits < 0x8000_0000 ==> (total_place(a) <= total_place(b) <==> a.bits
            <= b.bits),
        a.bits >= 0x8000_0000 && b.bits >= 0x8000_0000 ==> (total_place(a) <= total_place(b) <==> b.bits
            <= a.bits),
        a.bits >= 0x8000_0000 && b.bits < 0x8000_0000 ==> total_place(a) < total_place(b),
        a.finite() <==> a.bits % 0x8000_0000 < 0x7f80_0000,
{
}

} // verus!
