//! Double-precision numbers in integers: what a quotient or a product of
//! whole numbers rounds to, and how such a number is shown.
use vstd::prelude::*;

use crate::text::{decimal, push_wide_decimal, push_zero_padded, zero_padded};

verus! {

/// Two to the power of 52: the least mantissa of a normal number.
pub const LEAST_MANTISSA: u128 = 0x10_0000_0000_0000;

/// Two to the power of 53, above all mantissas.
pub const TOP_MANTISSA: u128 = 0x20_0000_0000_0000;

/// Two to the power of 67, above all mantissas of quotients of whole numbers.
pub const WIDEST: u128 = 0x8_0000_0000_0000_0000;

/// A number that is a whole number of units: `mantissa / unit`.
#[derive(Debug, Clone, Copy, PartialEq, Eq, Structural)]
pub struct Double {
    pub mantissa: u128,
    pub unit: u128,
}

/// The whole number nearest to `num / den`, the even one of two that are
/// equally near.
pub open spec fn half_even(num: nat, den: nat) -> nat {
    let q = num / den;
    let r = num % den;
    if 2 * r > den || (2 * r == den && q % 2 == 1) {
        q + 1
    } else {
        q
    }
}

/// The whole number nearest to `num / den`, the greater one of two that are
/// equally near.
pub open spec fn half_up(num: nat, den: nat) -> nat {
    (2 * num + den) / (2 * den)
}

/// The least doubling of `unit` in which `num / den` has 53 binary digits.
pub open spec fn fine_unit(num: nat, den: nat, unit: nat) -> nat
    decreases 2 * (LEAST_MANTISSA * den) - num * unit,
{
    if num == 0 || unit == 0 || num * unit >= LEAST_MANTISSA * den {
        unit
    } else {
        proof {
            assert(num * (2 * unit) == 2 * (num * unit)) by (nonlinear_arith);
            assert(num * unit > 0) by (nonlinear_arith)
                requires
                    num > 0,
                    unit > 0,
            ;
        }
        fine_unit(num, den, 2 * unit)
    }
}

/// The least doubling of `unit` in which `num / den` has no more than 53 binary
/// digits before its point.
pub open spec fn coarse_unit(num: nat, den: nat, unit: nat) -> nat
    decreases num - den * unit,
{
    if den == 0 || unit == 0 || num < TOP_MANTISSA * (den * unit) {
        unit
    } else {
        proof {
            assert(den * (2 * unit) == 2 * (den * unit)) by (nonlinear_arith);
            assert(den * unit > 0) by (nonlinear_arith)
                requires
                    den > 0,
                    unit > 0,
            ;
        }
        coarse_unit(num, den, 2 * unit)
    }
}

/// The double-precision number nearest to `num / den`.
pub open spec fn nearest(num: nat, den: nat) -> (nat, nat) {
    if num < TOP_MANTISSA * den {
        let unit = fine_unit(num, den, 1);
        (half_even(num * unit, den), unit)
    } else {
        let unit = coarse_unit(num, den, 1);
        (half_even(num, den * unit) * unit, 1)
    }
}

fn round_half_even(num: u128, den: u128) -> (r: u128)
    requires
        0 < den <= u128::MAX / 2,
    ensures
        r == half_even(num as nat, den as nat),
{
    let q: u128 = num / den;
    let r: u128 = num % den;
    if 2 * r > den || (2 * r == den && q % 2 == 1) {
        proof {
            if q == u128::MAX {
                assert(den == 1) by (nonlinear_arith)
                    requires
                        q == num / den,
                        q == u128::MAX,
                        num <= u128::MAX,
                        den > 0,
                ;
            }
        }
        q + 1
    } else {
        q
    }
}

impl Double {
    pub open spec fn view(self) -> (nat, nat) {
        (self.mantissa as nat, self.unit as nat)
    }

    /// The double-precision number nearest to a quotient below two to the power
    /// of 53.
    pub fn quotient(num: u128, den: u128) -> (d: Double)
        requires
            0 < den <= 0x400_0000_0000_0000_0000,
            num < TOP_MANTISSA * den,
        ensures
            d@ == nearest(num as nat, den as nat),
            d.unit > 0,
            d.mantissa <= 2 * LEAST_MANTISSA,
            num > 0 ==> d.unit <= 2 * LEAST_MANTISSA * den,
            num == 0 ==> d.unit == 1,
            d.mantissa * den <= num * d.unit + den,
    {
        let goal: u128 = LEAST_MANTISSA * den;
        let mut x: u128 = num;
        let mut unit: u128 = 1;
        proof {
            assert(num * 1 == num);
        }
        while num > 0 && x < goal
            invariant
                0 < den <= 0x400_0000_0000_0000_0000,
                goal == LEAST_MANTISSA * den,
                num < 2 * goal,
                unit > 0,
                x == num * unit,
                x <= 2 * goal,
                num == 0 ==> unit == 1,
                num > 0 ==> unit <= x,
                fine_unit(num as nat, den as nat, 1) == fine_unit(
                    num as nat,
                    den as nat,
                    unit as nat,
                ),
            decreases 2 * goal - x,
        {
            proof {
                assert(num * (2 * unit) == 2 * (num * unit)) by (nonlinear_arith);
            }
            x = x * 2;
            unit = unit * 2;
            proof {
                assert(unit <= x) by (nonlinear_arith)
                    requires
                        x == num * unit,
                        num >= 1,
                        unit > 0,
                ;
            }
        }
        let mantissa: u128 = round_half_even(x, den);
        proof {
            let g = 2 * LEAST_MANTISSA;
            assert(mantissa <= g) by {
                let q = x as int / den as int;
                vstd::arithmetic::div_mod::lemma_fundamental_div_mod(x as int, den as int);
                vstd::arithmetic::div_mod::lemma_mod_bound(x as int, den as int);
                let r = x as int % den as int;
                assert(q <= g && (q == g ==> r == 0)) by (nonlinear_arith)
                    requires
                        x == den * q + r,
                        0 <= r < den,
                        x <= g * den,
                        den > 0,
                ;
            }
        }
        proof {
            let q = x as int / den as int;
            let r = x as int % den as int;
            vstd::arithmetic::div_mod::lemma_fundamental_div_mod(x as int, den as int);
            vstd::arithmetic::div_mod::lemma_mod_bound(x as int, den as int);
            assert(mantissa * den <= x + den) by (nonlinear_arith)
                requires
                    x == den * q + r,
                    0 <= r,
                    mantissa <= q + 1,
                    den > 0,
            ;
        }
        Double { mantissa, unit }
    }

    /// The double-precision number nearest to a quotient.
    pub fn wide_quotient(num: u128, den: u128) -> (d: Double)
        requires
            0 < den <= WIDEST / 4,
            num <= WIDEST / 4,
        ensures
            d@ == nearest(num as nat, den as nat),
            0 < d.unit <= u128::MAX / 2,
            d.mantissa <= WIDEST,
    {
        if num < TOP_MANTISSA * den {
            return Double::quotient(num, den);
        }
        let mut unit: u128 = 1;
        let mut step: u128 = den;
        while num >= TOP_MANTISSA * step
            invariant
                0 < den,
                num <= WIDEST / 4,
                0 < unit <= step <= WIDEST / 4,
                step == den * unit,
                step <= num,
                coarse_unit(num as nat, den as nat, 1) == coarse_unit(
                    num as nat,
                    den as nat,
                    unit as nat,
                ),
            decreases num - step,
        {
            proof {
                assert(den * (2 * unit) == 2 * (den * unit)) by (nonlinear_arith);
                assert(2 * unit <= 2 * step);
            }
            unit = unit * 2;
            step = step * 2;
        }
        let q: u128 = round_half_even(num, step);
        proof {
            let d = num as int / step as int;
            let r = num as int % step as int;
            let (n, t, u) = (num as int, step as int, unit as int);
            vstd::arithmetic::div_mod::lemma_fundamental_div_mod(n, t);
            vstd::arithmetic::div_mod::lemma_mod_bound(n, t);
            assert(0 <= q * u <= n + t) by (nonlinear_arith)
                requires
                    n == t * d + r,
                    0 <= r,
                    0 <= q <= d + 1,
                    0 < u <= t,
                    d >= 0,
            ;
        }
        Double { mantissa: q * unit, unit: 1 }
    }

    /// The double-precision number nearest to this number times `k`.
    pub fn times(self, k: u128) -> (d: Double)
        requires
            0 < self.unit <= 0x400_0000_0000_0000_0000,
            self.mantissa * k < TOP_MANTISSA * self.unit,
            self.mantissa * k <= u128::MAX,
        ensures
            d@ == nearest((self.mantissa * k) as nat, self.unit as nat),
            d.unit > 0,
            d.mantissa <= 2 * LEAST_MANTISSA,
            d.unit == 1 || d.unit <= 2 * LEAST_MANTISSA * self.unit,
    {
        Double::quotient(self.mantissa * k, self.unit)
    }

    /// The nearest whole number, the greater one of two that are equally near.
    pub fn round(self) -> (r: u128)
        requires
            0 < self.unit <= u128::MAX / 4,
            self.mantissa <= u128::MAX / 4,
        ensures
            r == half_up(self.mantissa as nat, self.unit as nat),
    {
        (2 * self.mantissa + self.unit) / (2 * self.unit)
    }

    /// Appends the number with `digits` decimal places, at most three.
    pub fn push_fixed(self, s: &mut String, digits: u64)
        requires
            0 < self.unit <= u128::MAX / 2,
            self.mantissa <= WIDEST,
            1 <= digits <= 3,
        ensures
            final(s)@ == old(s)@ + fixed(self@, digits as nat),
    {
        let ten: u128 = if digits == 1 {
            10
        } else if digits == 2 {
            100
        } else {
            1000
        };
        let q: u128 = round_half_even(self.mantissa * ten, self.unit);
        push_wide_decimal(s, q / ten);
        s.append(".");
        push_zero_padded(s, (q % ten) as u64, digits);
        assert(s@ =~= old(s)@ + fixed(self@, digits as nat));
    }
}

/// A number with `digits` decimal places, at most three.
pub open spec fn fixed(d: (nat, nat), digits: nat) -> Seq<char> {
    let ten: nat = if digits == 1 {
        10
    } else if digits == 2 {
        100
    } else {
        1000
    };
    let q = half_even(d.0 * ten, d.1);
    decimal(q / ten) + "."@ + zero_padded(q % ten, digits)
}

/// A whole number as a double-precision number: with no more than 53 binary
/// digits, the last of them rounded.
pub open spec fn whole(n: nat) -> nat {
    half_even(n, coarse_unit(n, 1, 1)) * coarse_unit(n, 1, 1)
}

/// A whole number as a double-precision number.
pub fn to_double(n: u64) -> (r: u128)
    ensures
        r == whole(n as nat),
        r <= 2 * n,
        n <= 2 * r,
{
    let mut unit: u128 = 1;
    while n as u128 >= TOP_MANTISSA * unit
        invariant
            0 < unit,
            unit == 1 || 0x10_0000_0000_0000 * unit <= n,
            coarse_unit(n as nat, 1, 1) == coarse_unit(n as nat, 1, unit as nat),
        decreases n - unit,
    {
        unit = unit * 2;
    }
    let q: u128 = round_half_even(n as u128, unit);
    proof {
        let m = n as int;
        let u = unit as int;
        vstd::arithmetic::div_mod::lemma_fundamental_div_mod(m, u);
        vstd::arithmetic::div_mod::lemma_mod_bound(m, u);
        let d = m / u;
        let r = m % u;
        assert(q <= d + 1);
        assert(unit == 1 ==> q == n);
        assert(d * u <= m) by (nonlinear_arith)
            requires
                m == u * d + r,
                0 <= r,
        ;
        assert(q * u <= m + u) by (nonlinear_arith)
            requires
                q <= d + 1,
                d * u <= m,
                u > 0,
        ;
        assert(q * u > m - u) by (nonlinear_arith)
            requires
                q >= d,
                m == u * d + r,
                r < u,
                u > 0,
        ;
        assert(q * u >= 0) by (nonlinear_arith)
            requires
                q >= 0,
                u > 0,
        ;
    }
    q * unit
}

// ---------------------------------------------------------------------------
// Numbers by their bits
// ---------------------------------------------------------------------------

/// A double-precision number, given by its 64 bits: the sign, then the size,
/// which grows with the number. Sizes above that of infinity stand for no
/// number.
#[derive(Debug, Clone, Copy, PartialEq, Eq, Structural)]
pub struct Real {
    pub bits: u64,
}

/// The bit that marks a negative number.
pub const SIGN_BIT: u64 = 0x8000_0000_0000_0000;

/// The size of infinity.
pub const INFINITE_SIZE: u64 = 0x7ff0_0000_0000_0000;

/// The size of one.
pub const ONE_SIZE: u64 = 0x3ff0_0000_0000_0000;

impl Real {
    /// Whether the sign is negative.
    pub open spec fn negative(self) -> bool {
        self.bits >= SIGN_BIT
    }

    /// The bits without the sign.
    pub open spec fn size(self) -> int {
        if self.negative() {
            self.bits - SIGN_BIT
        } else {
            self.bits as int
        }
    }

    /// Whether it is a number at all.
    pub open spec fn is_number(self) -> bool {
        self.size() <= INFINITE_SIZE
    }

    /// Whether it is a number other than the infinities.
    pub open spec fn finite(self) -> bool {
        self.size() < INFINITE_SIZE
    }

    /// The place of a number among all numbers; both zeros have place 0.
    pub open spec fn place(self) -> int {
        if self.negative() {
            -self.size()
        } else {
            self.size()
        }
    }

    /// Whether this number is less than another; never, if one is no number.
    pub open spec fn below(self, other: Real) -> bool {
        self.is_number() && other.is_number() && self.place() < other.place()
    }

    /// Whether the number is above zero.
    pub open spec fn above_zero(self) -> bool {
        self.is_number() && self.place() > 0
    }

    /// Whether the number lies between 0 and 1, both included.
    pub open spec fn in_unit(self) -> bool {
        self.is_number() && 0 <= self.place() <= ONE_SIZE
    }

    fn magnitude(&self) -> (r: u64)
        ensures
            r == self.size(),
    {
        if self.bits >= SIGN_BIT {
            self.bits - SIGN_BIT
        } else {
            self.bits
        }
    }

    pub fn is_finite(&self) -> (r: bool)
        ensures
            r == self.finite(),
    {
        self.magnitude() < INFINITE_SIZE
    }

    /// Whether the number is above zero.
    pub fn is_positive(&self) -> (r: bool)
        ensures
            r == self.above_zero(),
    {
        self.bits < SIGN_BIT && 0 < self.bits && self.bits <= INFINITE_SIZE
    }

    /// Whether the number is below zero.
    pub fn is_below_zero(&self) -> (r: bool)
        ensures
            r == (self.is_number() && self.place() < 0),
    {
        self.bits > SIGN_BIT && self.magnitude() <= INFINITE_SIZE
    }

    /// Whether the number lies between 0 and 1, both included.
    pub fn is_fraction(&self) -> (r: bool)
        ensures
            r == self.in_unit(),
    {
        self.bits == SIGN_BIT || self.bits <= ONE_SIZE
    }

    /// Whether this number is less than another; never, if one is no number.
    pub fn is_less(&self, other: &Real) -> (r: bool)
        ensures
            r == self.below(*other),
    {
        let a: u64 = self.magnitude();
        let b: u64 = other.magnitude();
        if a > INFINITE_SIZE || b > INFINITE_SIZE {
            return false;
        }
        if self.bits >= SIGN_BIT {
            if other.bits >= SIGN_BIT {
                b < a
            } else {
                a > 0 || b > 0
            }
        } else if other.bits >= SIGN_BIT {
            false
        } else {
            a < b
        }
    }
}

/// Less-than on numbers is a strict order.
pub proof fn below_is_a_strict_order(a: Real, b: Real, c: Real)
    ensures
        !a.below(a),
        a.below(b) ==> !b.below(a),
        a.below(b) && b.below(c) ==> a.below(c),
{
}

/// A single-precision number, given by its 32 bits.
#[derive(Debug, Clone, Copy, PartialEq, Eq, Structural)]
pub struct Real32 {
    pub bits: u32,
}

/// The place of a single-precision bit pattern in the total order of all of
/// them: from the negative with the greatest size up to the positive.
pub open spec fn total_place(r: Real32) -> int {
    if r.bits >= 0x8000_0000 {
        -(r.bits - 0x8000_0000) - 1
    } else {
        r.bits as int
    }
}

impl Real32 {
    /// Whether it is a number other than the infinities.
    pub open spec fn finite(self) -> bool {
        self.bits % 0x8000_0000 < 0x7f80_0000
    }

    pub fn is_finite(&self) -> (r: bool)
        ensures
            r == self.finite(),
    {
        self.bits % 0x8000_0000 < 0x7f80_0000
    }

    /// The place in the total order.
    pub fn order_key(&self) -> (k: i64)
        ensures
            k == total_place(*self),
    {
        if self.bits >= 0x8000_0000 {
            -((self.bits - 0x8000_0000) as i64) - 1
        } else {
            self.bits as i64
        }
    }
}

} // verus!
