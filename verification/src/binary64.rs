//! IEEE-754 doubles as bit patterns.
//!
//! Altitudes, angles and coordinates arrive as doubles. The library carries
//! the bit pattern and compares by it, which is exact; what little it
//! computes with them is in [`crate::arithmetic`].
use vstd::arithmetic::div_mod::{lemma_fundamental_div_mod, lemma_fundamental_div_mod_converse};
use vstd::arithmetic::power2::{
    lemma2_to64, lemma2_to64_rest, lemma_pow2_adds, lemma_pow2_pos, lemma_pow2_strictly_increases,
    lemma_pow2_unfold, pow2,
};
use vstd::prelude::*;

verus! {

/// A double, as its IEEE-754 binary64 encoding.
///
/// `==` on this type compares encodings; [`Binary64::lt`] and its relatives
/// compare the numbers.
#[derive(Debug, Clone, Copy, PartialEq, Eq, Structural)]
pub struct Binary64 {
    pub bits: u64,
}

/// The weight of the sign bit.
pub const SIGN_BIT: u64 = 0x8000_0000_0000_0000;

/// The encoding of positive infinity; a larger magnitude is a NaN.
pub const INFINITY_BITS: u64 = 0x7ff0_0000_0000_0000;

/// The number of significand steps between two powers of two.
pub const SIGNIFICAND_STEPS: u64 = 0x10_0000_0000_0000;

/// The encoding of 0.0.
pub const ZERO_BITS: u64 = 0;

/// The encoding of 1.0.
pub const ONE_BITS: u64 = 0x3FF0_0000_0000_0000;

/// The encoding of 24.0.
pub const TWENTY_FOUR_BITS: u64 = 0x4038_0000_0000_0000;

/// The encoding of 90.0.
pub const NINETY_BITS: u64 = 0x4056_8000_0000_0000;

/// The encoding of -90.0.
pub const MINUS_NINETY_BITS: u64 = 0xC056_8000_0000_0000;

/// The encoding of -18.0.
pub const MINUS_EIGHTEEN_BITS: u64 = 0xC032_0000_0000_0000;

/// What a positive encoding of the given magnitude stands for, in units of
/// 2^-1074 (the smallest positive double).
pub open spec fn scaled_magnitude(magnitude: nat) -> nat {
    let exponent = magnitude / SIGNIFICAND_STEPS as nat;
    let significand = magnitude % SIGNIFICAND_STEPS as nat;
    if exponent == 0 {
        significand
    } else {
        (SIGNIFICAND_STEPS + significand) as nat * pow2((exponent - 1) as nat)
    }
}

impl Binary64 {
    /// 0.0
    pub open spec fn zero() -> Binary64 {
        Binary64 { bits: ZERO_BITS }
    }

    pub open spec fn is_negative(self) -> bool {
        self.bits >= SIGN_BIT
    }

    /// The encoding without its sign bit.
    pub open spec fn magnitude(self) -> nat {
        if self.is_negative() {
            (self.bits - SIGN_BIT) as nat
        } else {
            self.bits as nat
        }
    }

    pub open spec fn nan(self) -> bool {
        self.magnitude() > INFINITY_BITS
    }

    pub open spec fn finite(self) -> bool {
        self.magnitude() < INFINITY_BITS
    }

    /// The place of a number that is no NaN among all of them; both zeros
    /// have the same place.
    pub open spec fn rank(self) -> int {
        if self.is_negative() {
            -(self.magnitude() as int)
        } else {
            self.magnitude() as int
        }
    }

    /// What a finite encoding stands for, in units of 2^-1074.
    pub open spec fn scaled(self) -> int {
        if self.is_negative() {
            -(scaled_magnitude(self.magnitude()) as int)
        } else {
            scaled_magnitude(self.magnitude()) as int
        }
    }

    /// The number is less than the other; false where either is a NaN.
    pub open spec fn less(self, other: Binary64) -> bool {
        !self.nan() && !other.nan() && self.rank() < other.rank()
    }

    /// The number is at most the other; false where either is a NaN.
    pub open spec fn at_most(self, other: Binary64) -> bool {
        !self.nan() && !other.nan() && self.rank() <= other.rank()
    }

    fn parts(self) -> (r: (bool, u64))
        ensures
            r.0 == self.is_negative(),
            r.1 == self.magnitude(),
    {
        if self.bits >= SIGN_BIT {
            (true, self.bits - SIGN_BIT)
        } else {
            (false, self.bits)
        }
    }

    pub fn is_nan(self) -> (r: bool)
        ensures
            r == self.nan(),
    {
        self.parts().1 > INFINITY_BITS
    }

    pub fn is_finite(self) -> (r: bool)
        ensures
            r == self.finite(),
    {
        self.parts().1 < INFINITY_BITS
    }

    /// Finite and greater than zero.
    pub fn is_positive_finite(self) -> (r: bool)
        ensures
            r == (self.finite() && Binary64::zero().less(self)),
    {
        let (negative, magnitude) = self.parts();
        !negative && 0 < magnitude && magnitude < INFINITY_BITS
    }

    /// `self < other` as doubles compare.
    pub fn lt(self, other: Binary64) -> (r: bool)
        ensures
            r == self.less(other),
    {
        if self.is_nan() || other.is_nan() {
            return false;
        }
        let (sn, sm) = self.parts();
        let (on, om) = other.parts();
        if sn {
            if on {
                sm > om
            } else {
                sm > 0 || om > 0
            }
        } else {
            !on && sm < om
        }
    }

    /// `self <= other` as doubles compare.
    pub fn le(self, other: Binary64) -> (r: bool)
        ensures
            r == self.at_most(other),
    {
        if self.is_nan() || other.is_nan() {
            return false;
        }
        !other.lt(self)
    }
}

/// A greater magnitude stands for a greater number.
pub(crate) proof fn lemma_scaled_magnitude_increases(a: nat, b: nat)
    requires
        a < b,
    ensures
        scaled_magnitude(a) < scaled_magnitude(b),
{
    let steps = SIGNIFICAND_STEPS as nat;
    let (ea, sa) = (a / steps, a % steps);
    let (eb, sb) = (b / steps, b % steps);
    if ea == eb {
        if ea > 0 {
            lemma_pow2_pos((ea - 1) as nat);
            let p = pow2((ea - 1) as nat);
            assert((steps + sa) * p < (steps + sb) * p) by (nonlinear_arith)
                requires
                    sa < sb,
                    p > 0,
            ;
        }
    } else {
        assert(ea < eb);
        let pb = pow2((eb - 1) as nat);
        lemma_pow2_pos((eb - 1) as nat);
        assert(steps * pb <= (steps + sb) * pb) by (nonlinear_arith);
        if ea == 0 {
            assert(steps <= steps * pb) by (nonlinear_arith)
                requires
                    pb > 0,
            ;
        } else {
            let pa = pow2((ea - 1) as nat);
            lemma_pow2_pos((ea - 1) as nat);
            lemma_pow2_unfold(ea);
            if ea < eb - 1 {
                lemma_pow2_strictly_increases(ea, (eb - 1) as nat);
            }
            assert((steps + sa) * pa < steps * pb) by (nonlinear_arith)
                requires
                    pa > 0,
                    2 * pa <= pb,
                    sa < steps,
            ;
        }
    }
}

/// Comparing encodings is comparing numbers: of two finite doubles, the one
/// with the lower place stands for the lesser number, and two with the same
/// place stand for the same number.
pub proof fn rank_orders_numbers(a: Binary64, b: Binary64)
    requires
        a.finite(),
        b.finite(),
    ensures
        a.less(b) <==> a.scaled() < b.scaled(),
        a.at_most(b) <==> a.scaled() <= b.scaled(),
{
    let (ma, mb) = (a.magnitude(), b.magnitude());
    if ma < mb {
        lemma_scaled_magnitude_increases(ma, mb);
    }
    if mb < ma {
        lemma_scaled_magnitude_increases(mb, ma);
    }
    assert(scaled_magnitude(0) == 0);
    if ma > 0 {
        lemma_scaled_magnitude_increases(0, ma);
    }
    if mb > 0 {
        lemma_scaled_magnitude_increases(0, mb);
    }
}

/// The named encodings stand for the numbers that they are named after.
pub proof fn named_doubles()
    ensures
        (Binary64 { bits: ONE_BITS }).scaled() == pow2(1074),
        (Binary64 { bits: TWENTY_FOUR_BITS }).scaled() == 24 * pow2(1074),
        (Binary64 { bits: NINETY_BITS }).scaled() == 90 * pow2(1074),
        (Binary64 { bits: MINUS_NINETY_BITS }).scaled() == -90 * pow2(1074),
        (Binary64 { bits: MINUS_EIGHTEEN_BITS }).scaled() == -18 * pow2(1074),
{
    lemma2_to64();
    lemma2_to64_rest();
    lemma_pow2_adds(52, 1022);
    lemma_pow2_adds(48, 1026);
    lemma_pow2_adds(46, 1028);
    assert(0x18_0000_0000_0000 * pow2(1026) == 24 * (pow2(48) * pow2(1026)));
    assert(0x12_0000_0000_0000 * pow2(1026) == 18 * (pow2(48) * pow2(1026)));
    assert(0x16_8000_0000_0000 * pow2(1028) == 90 * (pow2(46) * pow2(1028)));
}

/// The encoding that counts `m` steps of 2^`j` smallest doubles, for a
/// normalised `m`.
pub(crate) proof fn lemma_scaled_of_steps(j: nat, m: nat)
    requires
        SIGNIFICAND_STEPS <= m <= 2 * SIGNIFICAND_STEPS,
    ensures
        scaled_magnitude(j * SIGNIFICAND_STEPS as nat + m) == m * pow2(j),
{
    let steps = SIGNIFICAND_STEPS as nat;
    let magnitude = j * steps + m;
    if m < 2 * steps {
        lemma_fundamental_div_mod_converse(
            magnitude as int,
            steps as int,
            (j + 1) as int,
            m - steps,
        );
    } else {
        lemma_fundamental_div_mod_converse(magnitude as int, steps as int, (j + 2) as int, 0);
        lemma_pow2_unfold(j + 1);
        let p = pow2(j);
        assert(steps * (2 * p) == (2 * steps) * p) by (nonlinear_arith);
    }
}

/// How far a finite double is from `n / d`, in units of 2^-1074 / `d`.
pub open spec fn gap(x: Binary64, n: nat, d: nat) -> int {
    let difference = x.scaled() * d - n * pow2(1074);
    if difference < 0 {
        -difference
    } else {
        difference
    }
}

impl Binary64 {
    /// The double nearest to `n / d`: no finite double is closer, and where
    /// two are equally close the one with the even encoding is taken.
    pub open spec fn nearest(self, n: nat, d: nat) -> bool {
        &&& self.finite()
        &&& !self.is_negative()
        &&& forall|other: Binary64| #[trigger]
            other.finite() && other.rank() != self.rank() ==> {
                ||| gap(self, n, d) < gap(other, n, d)
                ||| gap(self, n, d) == gap(other, n, d) && self.bits % 2 == 0
            }
    }

    /// The double that stands for `n / d`.
    pub open spec fn of_quotient(n: nat, d: nat) -> Binary64 {
        choose|r: Binary64| r.nearest(n, d)
    }

    /// `n / d` rounded to the nearest double, for a quotient of at most one.
    pub fn quotient(n: u32, d: u32) -> (r: Binary64)
        requires
            n <= d,
            0 < d,
        ensures
            r.nearest(n as nat, d as nat),
            r == Binary64::of_quotient(n as nat, d as nat),
            Binary64::zero().at_most(r),
            r.at_most(Binary64 { bits: ONE_BITS }),
    {
        if n == 0 {
            let r = Binary64 { bits: ZERO_BITS };
            proof {
                lemma_nearest_zero(d as nat);
                nearest_is_unique(r, Binary64::of_quotient(0, d as nat), 0, d as nat);
            }
            return r;
        }
        let divisor: u128 = d as u128;
        let mut scaled: u128 = n as u128 * 0x10_0000_0000_0000u128;
        let target: u128 = divisor * 0x10_0000_0000_0000u128;
        let mut shift: u64 = 52;
        proof {
            lemma2_to64_rest();
        }
        while scaled < target
            invariant
                0 < n <= d,
                divisor == d,
                target == d * SIGNIFICAND_STEPS,
                52 <= shift <= 84,
                scaled == n * pow2(shift as nat),
                scaled < 2 * (d * SIGNIFICAND_STEPS),
            decreases 84 - shift,
        {
            proof {
                lemma_shift_bound(shift as nat, n as nat, d as nat);
                lemma_pow2_unfold((shift + 1) as nat);
                let p = pow2(shift as nat);
                assert(n * (2 * p) == 2 * (n * p)) by (nonlinear_arith);
            }
            scaled = scaled * 2;
            shift = shift + 1;
        }
        proof {
            let (s, v) = (scaled as int, divisor as int);
            lemma_fundamental_div_mod(s, v);
            assert(SIGNIFICAND_STEPS <= s / v < 2 * SIGNIFICAND_STEPS) by (nonlinear_arith)
                requires
                    v > 0,
                    v * SIGNIFICAND_STEPS <= s < 2 * (v * SIGNIFICAND_STEPS),
                    s == v * (s / v) + s % v,
                    0 <= s % v < v,
            ;
            assert((s / v) * v == v * (s / v)) by (nonlinear_arith);
        }
        let floor: u64 = (scaled / divisor) as u64;
        let rest: u128 = scaled % divisor;
        let up: bool = 2 * rest > divisor || (2 * rest == divisor && floor % 2 == 1);
        let m: u64 = if up {
            floor + 1
        } else {
            floor
        };
        let r = Binary64 { bits: (1074 - shift) * SIGNIFICAND_STEPS + m };
        proof {
            lemma_nearest_quotient(
                n as nat,
                d as nat,
                shift as nat,
                floor as nat,
                rest as nat,
                r,
            );
            nearest_is_unique(
                r,
                Binary64::of_quotient(n as nat, d as nat),
                n as nat,
                d as nat,
            );
            lemma_quotient_at_most_one(r, n as nat, d as nat);
        }
        r
    }
}

proof fn lemma_quotient_at_most_one(r: Binary64, n: nat, d: nat)
    requires
        r.nearest(n, d),
        n <= d,
        0 < d,
    ensures
        r.at_most(Binary64 { bits: ONE_BITS }),
{
    let one = Binary64 { bits: ONE_BITS };
    named_doubles();
    rank_orders_numbers(r, one);
    if r.scaled() > one.scaled() {
        let (s, unit) = (r.scaled(), pow2(1074) as int);
        assert(s * d > unit * d) by (nonlinear_arith)
            requires
                s > unit,
                d > 0,
        ;
        assert(unit * d >= n * unit) by (nonlinear_arith)
            requires
                unit >= 0,
                n <= d,
        ;
        assert(one.finite() && one.rank() != r.rank());
        assert(gap(one, n, d) < gap(r, n, d));
    }
}

/// A quotient has one nearest double.
pub proof fn nearest_is_unique(a: Binary64, b: Binary64, n: nat, d: nat)
    requires
        a.nearest(n, d),
        b.nearest(n, d),
        0 < d,
    ensures
        a == b,
{
    lemma_nearest_not_below(a, b, n, d);
    lemma_nearest_not_below(b, a, n, d);
}

proof fn lemma_nearest_not_below(a: Binary64, b: Binary64, n: nat, d: nat)
    requires
        a.nearest(n, d),
        b.nearest(n, d),
        0 < d,
    ensures
        a.bits >= b.bits,
{
    if a.bits < b.bits {
        assert(a.rank() != b.rank());
        assert(gap(a, n, d) == gap(b, n, d));
        assert(a.bits % 2 == 0 && b.bits % 2 == 0);
        let between = Binary64 { bits: (a.bits + 1) as u64 };
        lemma_scaled_magnitude_increases(a.magnitude(), between.magnitude());
        lemma_scaled_magnitude_increases(between.magnitude(), b.magnitude());
        let (sa, sb, sm) = (a.scaled(), b.scaled(), between.scaled());
        assert(sa * d < sm * d < sb * d) by (nonlinear_arith)
            requires
                sa < sm < sb,
                d > 0,
        ;
        assert(between.finite() && between.rank() != a.rank());
    }
}

proof fn lemma_nearest_zero(d: nat)
    requires
        0 < d,
    ensures
        Binary64::zero().nearest(0, d),
{
    let zero = Binary64::zero();
    assert(scaled_magnitude(0) == 0);
    assert(zero.scaled() * d == 0) by (nonlinear_arith)
        requires
            zero.scaled() == 0,
    ;
    assert forall|other: Binary64| #[trigger] other.finite() && other.rank() != zero.rank() implies
        gap(zero, 0, d) < gap(other, 0, d) by {
        lemma_scaled_magnitude_increases(0, other.magnitude());
        let o = other.scaled();
        assert(o * d != 0) by (nonlinear_arith)
            requires
                o != 0,
                d > 0,
        ;
    }
}

/// A number divided by itself is one.
pub proof fn quotient_of_equals_is_one(n: nat)
    requires
        0 < n,
    ensures
        Binary64::of_quotient(n, n) == (Binary64 { bits: ONE_BITS }),
{
    let one = Binary64 { bits: ONE_BITS };
    named_doubles();
    let unit = pow2(1074) as int;
    assert(one.scaled() * n == n * unit) by (nonlinear_arith)
        requires
            one.scaled() == unit,
    ;
    assert(gap(one, n, n) == 0);
    assert forall|other: Binary64| #[trigger] other.finite() && other.rank() != one.rank() implies
        gap(one, n, n) < gap(other, n, n) by {
        rank_orders_numbers(one, other);
        rank_orders_numbers(other, one);
        let o = other.scaled();
        assert(o * n != n * unit) by (nonlinear_arith)
            requires
                o != unit,
                n > 0,
        ;
    }
    assert(one.nearest(n, n));
    nearest_is_unique(one, Binary64::of_quotient(n, n), n, n);
}

/// While the shifted numerator is short of a normalised significand, the
/// shift is below 84.
proof fn lemma_shift_bound(shift: nat, n: nat, d: nat)
    requires
        52 <= shift <= 84,
        0 < n,
        d <= u32::MAX,
        n * pow2(shift) < d * SIGNIFICAND_STEPS,
    ensures
        shift < 84,
{
    if shift == 84 {
        lemma_pow2_adds(32, 52);
        lemma2_to64();
        lemma2_to64_rest();
        assert(n * pow2(84) >= pow2(84)) by (nonlinear_arith)
            requires
                n >= 1,
        ;
        assert(pow2(32) * pow2(52) == 0x1_0000_0000 * SIGNIFICAND_STEPS);
    }
}

/// A quotient whose rounded significand is encoded as `r` has `r` for its
/// nearest double.
proof fn lemma_nearest_quotient(n: nat, d: nat, shift: nat, floor: nat, rest: nat, r: Binary64)
    requires
        0 < n <= d <= u32::MAX,
        52 <= shift <= 84,
        n * pow2(shift) == floor * d + rest,
        rest < d,
        SIGNIFICAND_STEPS <= floor < 2 * SIGNIFICAND_STEPS,
        ({
            let up = 2 * rest > d || (2 * rest == d && floor % 2 == 1);
            r.bits == (1074 - shift) * SIGNIFICAND_STEPS + (if up { floor + 1 } else { floor })
        }),
    ensures
        r.nearest(n, d),
{
    let steps = SIGNIFICAND_STEPS as nat;
    let j = (1074 - shift) as nat;
    let up = 2 * rest > d || (2 * rest == d && floor % 2 == 1);
    let m: nat = if up { floor + 1 } else { floor };
    let p = pow2(j);
    lemma_pow2_pos(j);
    assert(j * steps + m < INFINITY_BITS);
    assert(r.magnitude() == j * steps + m);
    lemma_scaled_of_steps(j, m);
    assert(r.scaled() == m * p);
    lemma_pow2_adds(shift, j);
    let exact = n * pow2(1074);
    assert(exact == (floor * d + rest) * p) by {
        assert(n * (pow2(shift) * p) == (n * pow2(shift)) * p) by (nonlinear_arith);
    }
    assert(exact == (floor * p) * d + rest * p) by (nonlinear_arith)
        requires
            exact == (floor * d + rest) * p,
    ;
    assert((j * steps + m) % 2 == m % 2);
    assert(((floor + 1) * p) * d == (floor * p) * d + d * p) by (nonlinear_arith);
    assert(rest * p <= d * p) by (nonlinear_arith)
        requires
            rest < d,
    ;
    assert forall|other: Binary64| #[trigger] other.finite() && other.rank() != r.rank() implies {
        ||| gap(r, n, d) < gap(other, n, d)
        ||| gap(r, n, d) == gap(other, n, d) && r.bits % 2 == 0
    } by {
        rank_orders_numbers(r, other);
        rank_orders_numbers(other, r);
        let o = other.scaled();
        assert(o != r.scaled());
        if o > r.scaled() {
            assert(other.magnitude() > r.magnitude());
            if up {
                assert(o * d > (m * p) * d) by (nonlinear_arith)
                    requires
                        o > m * p,
                        d > 0,
                ;
            } else {
                lemma_scaled_of_steps(j, m + 1);
                if other.magnitude() > r.magnitude() + 1 {
                    lemma_scaled_magnitude_increases(r.magnitude() + 1, other.magnitude());
                }
                assert(o >= (floor + 1) * p);
                assert(o * d >= ((floor + 1) * p) * d) by (nonlinear_arith)
                    requires
                        o >= (floor + 1) * p,
                ;
                assert(2 * (rest * p) <= d * p) by (nonlinear_arith)
                    requires
                        2 * rest <= d,
                ;
                if 2 * rest < d {
                    assert(2 * (rest * p) < d * p) by (nonlinear_arith)
                        requires
                            2 * rest < d,
                            p > 0,
                    ;
                }
            }
        } else {
            if up {
                lemma_scaled_of_steps(j, floor);
                assert(o <= floor * p) by {
                    if other.is_negative() {
                        assert(floor * p >= 0) by (nonlinear_arith);
                    } else if other.magnitude() < r.magnitude() - 1 {
                        lemma_scaled_magnitude_increases(
                            other.magnitude(),
                            (r.magnitude() - 1) as nat,
                        );
                    }
                }
                assert(o * d <= (floor * p) * d) by (nonlinear_arith)
                    requires
                        o <= floor * p,
                ;
                assert(2 * (rest * p) >= d * p) by (nonlinear_arith)
                    requires
                        2 * rest >= d,
                ;
                if 2 * rest > d {
                    assert(2 * (rest * p) > d * p) by (nonlinear_arith)
                        requires
                            2 * rest > d,
                            p > 0,
                    ;
                }
            } else {
                assert(o * d < (m * p) * d) by (nonlinear_arith)
                    requires
                        o < m * p,
                        d > 0,
                ;
            }
        }
    }
}

/// Nothing compares with a NaN; every finite number is between the two
/// infinities; and the encodings from zero upwards stand for ever greater
/// numbers, those with the sign bit for their negatives.
pub proof fn encodings_are_ordered(a: Binary64, b: Binary64)
    ensures
        a.nan() || b.nan() ==> !a.less(b) && !a.at_most(b),
        !a.nan() && !b.nan() ==> (a.at_most(b) <==> !b.less(a)),
        a.finite() ==> a.less(Binary64 { bits: 0x7ff0_0000_0000_0000 }) && (Binary64 {
            bits: 0xfff0_0000_0000_0000,
        }).less(a),
        a.bits < b.bits < 0x7ff0_0000_0000_0000 ==> a.less(b) && a.scaled() < b.scaled(),
        a.bits < 0x7ff0_0000_0000_0000 && b.bits == a.bits + 0x8000_0000_0000_0000 ==> b.scaled()
            == -a.scaled(),
        a.nan() <==> 0x7ff0_0000_0000_0000 < a.bits < 0x8000_0000_0000_0000 || a.bits
            > 0xfff0_0000_0000_0000,
{
    if a.bits < b.bits < 0x7ff0_0000_0000_0000 {
        lemma_scaled_magnitude_increases(a.magnitude(), b.magnitude());
    }
}

} // verus!
