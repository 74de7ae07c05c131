//! Differences, sums and day remainders of doubles.
//!
//! Each is the exact result rounded to the nearest double, ties to the even
//! encoding, as IEEE-754 has it. The exact result is a whole number of the
//! smallest positive double, 2^-1074, so it can be told by an integer.
use crate::binary64::{
    lemma_scaled_magnitude_increases, lemma_scaled_of_steps, scaled_magnitude, Binary64,
    INFINITY_BITS, SIGNIFICAND_STEPS, SIGN_BIT, TWENTY_FOUR_BITS, ZERO_BITS,
};
use vstd::arithmetic::div_mod::{
    lemma_fundamental_div_mod, lemma_mod_equivalence, lemma_mod_multiples_basic, lemma_small_mod,
    lemma_truncate_middle,
};
use vstd::arithmetic::power2::{
    lemma2_to64, lemma2_to64_rest, lemma_pow2_adds, lemma_pow2_pos, lemma_pow2_strictly_increases,
    lemma_pow2_unfold, pow2,
};
use vstd::bits::lemma_u64_shl_is_mul;
use vstd::prelude::*;

verus! {

/// The encoding of the NaN that operations without a result give.
pub const NAN_BITS: u64 = 0x7ff8_0000_0000_0000;

/// The encoding of 0.5.
pub const HALF_BITS: u64 = 0x3FE0_0000_0000_0000;

/// The encoding of 12.0.
pub const TWELVE_BITS: u64 = 0x4028_0000_0000_0000;

/// How far two numbers are apart.
pub open spec fn apart(a: int, b: int) -> int {
    if a < b {
        b - a
    } else {
        a - b
    }
}

/// The magnitude whose number is nearest to `v`, in units of 2^-1074: no
/// other is closer, and where two are equally close it is the even one.
/// Infinity counts as 2^1024.
pub open spec fn rounds_to(m: nat, v: nat) -> bool {
    &&& m <= INFINITY_BITS
    &&& forall|other: nat|
        other <= INFINITY_BITS && other != m ==> {
            ||| apart(scaled_magnitude(m) as int, v as int) < apart(
                #[trigger] scaled_magnitude(other) as int,
                v as int,
            )
            ||| apart(scaled_magnitude(m) as int, v as int) == apart(
                scaled_magnitude(other) as int,
                v as int,
            ) && m % 2 == 0
        }
}

/// The magnitude that `v` is rounded to.
pub open spec fn rounded(v: nat) -> nat {
    choose|m: nat| rounds_to(m, v)
}

/// Twenty-four hours, in units of 2^-1074 hour.
pub open spec fn day() -> nat {
    24 * pow2(1074)
}

impl Binary64 {
    /// The double with a sign and a magnitude.
    pub open spec fn of_magnitude(negative: bool, m: nat) -> Binary64 {
        Binary64 {
            bits: if negative {
                (SIGN_BIT + m) as u64
            } else {
                m as u64
            },
        }
    }

    /// The double nearest to `v` units of 2^-1074; zero has the given sign.
    pub open spec fn of_scaled(v: int, zero_negative: bool) -> Binary64 {
        if v < 0 {
            Binary64::of_magnitude(true, rounded((-v) as nat))
        } else if v > 0 {
            Binary64::of_magnitude(false, rounded(v as nat))
        } else {
            Binary64::of_magnitude(zero_negative, 0)
        }
    }

    /// The double with the other sign.
    pub open spec fn opposite(self) -> Binary64 {
        Binary64::of_magnitude(!self.is_negative(), self.magnitude())
    }

    /// The double without its sign.
    pub open spec fn absolute(self) -> Binary64 {
        Binary64::of_magnitude(false, self.magnitude())
    }

    /// `self - other` as doubles subtract.
    pub open spec fn difference(self, other: Binary64) -> Binary64 {
        if self.nan() || other.nan() {
            Binary64 { bits: NAN_BITS }
        } else if !self.finite() {
            if !other.finite() && self.is_negative() == other.is_negative() {
                Binary64 { bits: NAN_BITS }
            } else {
                self
            }
        } else if !other.finite() {
            other.opposite()
        } else {
            Binary64::of_scaled(
                self.scaled() - other.scaled(),
                self.is_negative() && !other.is_negative(),
            )
        }
    }

    /// `self + other` as doubles add.
    pub open spec fn sum(self, other: Binary64) -> Binary64 {
        self.difference(other.opposite())
    }

    /// `self % 24.0`: the remainder has the sign of the number.
    pub open spec fn day_remainder(self) -> Binary64 {
        if self.finite() {
            Binary64::of_magnitude(
                self.is_negative(),
                rounded(scaled_magnitude(self.magnitude()) % day()),
            )
        } else {
            Binary64 { bits: NAN_BITS }
        }
    }

    /// `self.rem_euclid(24.0)`: a remainder below zero is brought up by
    /// twenty-four.
    pub open spec fn turned(self) -> Binary64 {
        let r = self.day_remainder();
        if r.less(Binary64::zero()) {
            r.sum(Binary64 { bits: TWENTY_FOUR_BITS })
        } else {
            r
        }
    }
}

/// A magnitude that is the lower or the upper of the two that `v` lies
/// between, whichever is closer, is the one that `v` rounds to.
proof fn lemma_rounds_between(low: nat, v: nat, m: nat)
    requires
        low + 1 <= INFINITY_BITS,
        scaled_magnitude(low) <= v < scaled_magnitude(low + 1),
        ({
            let down = v - scaled_magnitude(low);
            let up = scaled_magnitude(low + 1) - v;
            m == if down > up || (down == up && low % 2 == 1) {
                low + 1
            } else {
                low
            }
        }),
    ensures
        rounds_to(m, v),
{
    assert forall|other: nat| other <= INFINITY_BITS && other != m implies {
        ||| apart(scaled_magnitude(m) as int, v as int) < apart(
            #[trigger] scaled_magnitude(other) as int,
            v as int,
        )
        ||| apart(scaled_magnitude(m) as int, v as int) == apart(
            scaled_magnitude(other) as int,
            v as int,
        ) && m % 2 == 0
    } by {
        if other < low {
            lemma_scaled_magnitude_increases(other, low);
        }
        if other > low + 1 {
            lemma_scaled_magnitude_increases(low + 1, other);
        }
    }
}

/// What is at 2^1024 or beyond it rounds to infinity.
proof fn lemma_rounds_beyond(v: nat)
    requires
        scaled_magnitude(INFINITY_BITS as nat) <= v,
    ensures
        rounds_to(INFINITY_BITS as nat, v),
{
    assert forall|other: nat| other <= INFINITY_BITS && other != INFINITY_BITS implies apart(
        scaled_magnitude(INFINITY_BITS as nat) as int,
        v as int,
    ) < apart(#[trigger] scaled_magnitude(other) as int, v as int) by {
        lemma_scaled_magnitude_increases(other, INFINITY_BITS as nat);
    }
}

/// What lies between two neighbouring magnitudes, wherever they are, rounds
/// to the closer one or to infinity.
proof fn lemma_rounds(low: nat, v: nat, m: nat)
    requires
        scaled_magnitude(low) <= v < scaled_magnitude(low + 1),
        ({
            let down = v - scaled_magnitude(low);
            let up = scaled_magnitude(low + 1) - v;
            m == if low >= INFINITY_BITS {
                INFINITY_BITS as nat
            } else if down > up || (down == up && low % 2 == 1) {
                low + 1
            } else {
                low
            }
        }),
    ensures
        rounds_to(m, v),
        m == rounded(v),
{
    if low >= INFINITY_BITS {
        if low > INFINITY_BITS {
            lemma_scaled_magnitude_increases(INFINITY_BITS as nat, low);
        }
        lemma_rounds_beyond(v);
    } else {
        lemma_rounds_between(low, v, m);
    }
    rounding_is_unique(m, rounded(v), v);
}

/// A number rounds to one magnitude.
pub proof fn rounding_is_unique(a: nat, b: nat, v: nat)
    requires
        rounds_to(a, v),
        rounds_to(b, v),
    ensures
        a == b,
{
    lemma_not_below(a, b, v);
    lemma_not_below(b, a, v);
}

proof fn lemma_not_below(a: nat, b: nat, v: nat)
    requires
        rounds_to(a, v),
        rounds_to(b, v),
    ensures
        a >= b,
{
    if a < b {
        let (sa, sb) = (scaled_magnitude(a), scaled_magnitude(b));
        assert(apart(sa as int, v as int) == apart(sb as int, v as int));
        assert(a % 2 == 0 && b % 2 == 0);
        lemma_scaled_magnitude_increases(a, a + 1);
        lemma_scaled_magnitude_increases(a + 1, b);
        assert(apart(scaled_magnitude(a + 1) as int, v as int) < apart(sa as int, v as int));
    }
}

/// The magnitude at or below `v`, given one above it.
proof fn lemma_bracket(v: nat, high: nat) -> (low: nat)
    requires
        v < scaled_magnitude(high),
    ensures
        low < high,
        scaled_magnitude(low) <= v < scaled_magnitude(low + 1),
    decreases high,
{
    assert(scaled_magnitude(0) == 0);
    if scaled_magnitude((high - 1) as nat) <= v {
        (high - 1) as nat
    } else {
        lemma_bracket(v, (high - 1) as nat)
    }
}

/// Every number rounds to a magnitude.
pub proof fn rounding_is_total(v: nat)
    ensures
        rounds_to(rounded(v), v),
{
    let top = INFINITY_BITS as nat;
    if scaled_magnitude(top) <= v {
        lemma_rounds_beyond(v);
    } else {
        let low = lemma_bracket(v, top);
        let down = v - scaled_magnitude(low);
        let up = scaled_magnitude(low + 1) - v;
        let m = if down > up || (down == up && low % 2 == 1) {
            low + 1
        } else {
            low
        };
        lemma_rounds_between(low, v, m);
    }
}

/// A greater number does not round to a lesser one.
pub proof fn rounding_is_monotone(v: nat, w: nat)
    requires
        v <= w,
    ensures
        rounded(v) <= rounded(w) <= INFINITY_BITS,
{
    rounding_is_total(v);
    rounding_is_total(w);
    let (a, b) = (rounded(v), rounded(w));
    if a > b {
        lemma_scaled_magnitude_increases(b, a);
        let (sa, sb) = (scaled_magnitude(a), scaled_magnitude(b));
        assert(apart(sa as int, v as int) <= apart(sb as int, v as int));
        assert(apart(sb as int, w as int) <= apart(sa as int, w as int));
        assert(v == w);
    }
}

/// A number that a double stands for rounds to that double.
pub proof fn rounding_keeps_doubles(m: nat)
    requires
        m <= INFINITY_BITS,
    ensures
        rounded(scaled_magnitude(m)) == m,
{
    lemma_scaled_magnitude_increases(m, m + 1);
    lemma_rounds(m, scaled_magnitude(m), m);
}

/// A double is not changed by what is less than a quarter of its step.
proof fn lemma_far_apart(j: nat, c: nat, v: nat)
    requires
        j >= 3,
        SIGNIFICAND_STEPS <= c < 2 * SIGNIFICAND_STEPS,
        j * SIGNIFICAND_STEPS as nat + c < INFINITY_BITS,
        apart(v as int, (c * pow2(j)) as int) < pow2((j - 3) as nat),
    ensures
        rounded(v) == j * SIGNIFICAND_STEPS as nat + c,
{
    let steps = SIGNIFICAND_STEPS as nat;
    let m = j * steps + c;
    let here = (c * pow2(j)) as int;
    let half = pow2((j - 1) as nat) as int;
    lemma_pow2_unfold(j);
    lemma_pow2_unfold((j - 1) as nat);
    lemma_pow2_unfold((j - 2) as nat);
    lemma_pow2_pos((j - 3) as nat);
    lemma_scaled_of_steps(j, c);
    lemma_scaled_of_steps(j, c + 1);
    assert((c + 1) * pow2(j) == here + 2 * half) by (nonlinear_arith)
        requires
            here == c * pow2(j),
            pow2(j) == 2 * half,
    ;
    assert(scaled_magnitude((m - 1) as nat) <= here - half) by {
        if c > steps {
            lemma_scaled_of_steps(j, (c - 1) as nat);
            assert((c - 1) * pow2(j) == here - 2 * half) by (nonlinear_arith)
                requires
                    here == c * pow2(j),
                    pow2(j) == 2 * half,
            ;
            assert((m - 1) as nat == j * steps + (c - 1) as nat);
        } else {
            let k = (j - 1) as nat;
            lemma_scaled_of_steps(k, (2 * steps - 1) as nat);
            assert(k * steps + (2 * steps - 1) == m - 1) by (nonlinear_arith)
                requires
                    m == j * steps + steps,
                    k == j - 1,
            ;
            assert((2 * steps - 1) * pow2(k) == here - half) by (nonlinear_arith)
                requires
                    here == steps * pow2(j),
                    pow2(j) == 2 * half,
                    pow2(k) == half,
            ;
        }
    }
    assert forall|other: nat| other <= INFINITY_BITS && other != m implies apart(
        scaled_magnitude(m) as int,
        v as int,
    ) < apart(#[trigger] scaled_magnitude(other) as int, v as int) by {
        if other < m - 1 {
            lemma_scaled_magnitude_increases(other, (m - 1) as nat);
        }
        if other > m + 1 {
            lemma_scaled_magnitude_increases(m + 1, other);
        }
    }
    assert(rounds_to(m, v));
    rounding_is_unique(m, rounded(v), v);
}

/// The step and the count of steps that a finite magnitude stands for.
fn decode(m: u64) -> (r: (u64, u64))
    requires
        m < INFINITY_BITS,
    ensures
        r.0 < 2 * SIGNIFICAND_STEPS,
        r.1 <= 2045,
        r.1 > 0 ==> r.0 >= SIGNIFICAND_STEPS,
        m == r.1 * SIGNIFICAND_STEPS + r.0,
        scaled_magnitude(m as nat) == r.0 as nat * pow2(r.1 as nat),
{
    proof {
        lemma2_to64();
    }
    let exponent: u64 = m / SIGNIFICAND_STEPS;
    let significand: u64 = m % SIGNIFICAND_STEPS;
    if exponent == 0 {
        assert(significand * pow2(0) == significand) by (nonlinear_arith)
            requires
                pow2(0) == 1,
        ;
        (significand, 0)
    } else {
        (SIGNIFICAND_STEPS + significand, exponent - 1)
    }
}

/// The magnitude that `x` steps of 2^`e` smallest doubles round to.
fn round_steps(x: u128, e: u64) -> (m: u64)
    requires
        x < 0x4000_0000_0000_0000_0000_0000_0000,
        e <= 2045,
    ensures
        m == rounded(x as nat * pow2(e as nat)),
        m <= INFINITY_BITS,
{
    let ghost v = x as nat * pow2(e as nat);
    if x == 0 {
        proof {
            assert(v == 0) by (nonlinear_arith)
                requires
                    v == x * pow2(e as nat),
                    x == 0,
            ;
            assert(scaled_magnitude(0) == 0);
            rounding_keeps_doubles(0);
        }
        return 0;
    }
    let mut c: u128 = x;
    let mut k: u64 = e;
    while c < 0x10_0000_0000_0000 && k > 0
        invariant
            0 < c < 0x4000_0000_0000_0000_0000_0000_0000,
            k <= e <= 2045,
            v == c as nat * pow2(k as nat),
        decreases k,
    {
        proof {
            lemma_pow2_unfold(k as nat);
            let p = pow2((k - 1) as nat);
            assert(c * (2 * p) == (2 * c) * p) by (nonlinear_arith);
        }
        c = c * 2;
        k = k - 1;
    }
    let mut unit: u128 = 1;
    let mut j: u64 = k;
    let ghost mut s: nat = 0;
    proof {
        lemma2_to64();
    }
    while c / unit >= 0x20_0000_0000_0000
        invariant
            0 < c < 0x4000_0000_0000_0000_0000_0000_0000,
            0 < unit <= c,
            unit == pow2(s),
            j == k + s,
            s <= 57,
            k <= 2045,
            s > 0 ==> c >= SIGNIFICAND_STEPS * unit,
        decreases c - unit,
    {
        proof {
            lemma_pow2_unfold(s + 1);
            let (a, b) = (c as int, unit as int);
            lemma_fundamental_div_mod(a, b);
            assert(a >= 0x20_0000_0000_0000 * b) by (nonlinear_arith)
                requires
                    a == b * (a / b) + a % b,
                    0 <= a % b,
                    a / b >= 0x20_0000_0000_0000,
                    b > 0,
            ;
            lemma2_to64();
            if s >= 57 {
                lemma2_to64_rest();
                assert(unit >= 0x200_0000_0000_0000);
            }
            s = s + 1;
        }
        unit = unit * 2;
        j = j + 1;
    }
    let floor: u64 = (c / unit) as u64;
    let rest: u128 = c % unit;
    let up: bool = rest > unit - rest || (rest == unit - rest && floor % 2 == 1);
    let low: u64 = j * SIGNIFICAND_STEPS + floor;
    let m: u64 = if low >= INFINITY_BITS {
        INFINITY_BITS
    } else if up {
        low + 1
    } else {
        low
    };
    proof {
        let (a, b) = (c as int, unit as int);
        lemma_fundamental_div_mod(a, b);
        let (p, q) = (pow2(k as nat), pow2(j as nat));
        lemma_pow2_pos(k as nat);
        lemma_pow2_adds(s, k as nat);
        assert(q == b * p);
        if s > 0 {
            assert(floor >= SIGNIFICAND_STEPS) by (nonlinear_arith)
                requires
                    a == b * floor + a % b,
                    a % b < b,
                    a >= SIGNIFICAND_STEPS * b,
                    b > 0,
            ;
        }
        lemma_neighbours(j as nat, floor as nat);
        assert(v == floor * q + rest * p) by (nonlinear_arith)
            requires
                v == a * p,
                a == b * floor + rest,
                q == b * p,
        ;
        assert(floor * q + q == (floor + 1) * q) by (nonlinear_arith);
        assert(0 <= rest * p < b * p) by (nonlinear_arith)
            requires
                0 <= rest < b,
                p > 0,
        ;
        assert((b - rest) * p == b * p - rest * p) by (nonlinear_arith);
        assert(rest > b - rest ==> rest * p > (b - rest) * p) by (nonlinear_arith)
            requires
                p > 0,
        ;
        assert(rest < b - rest ==> rest * p < (b - rest) * p) by (nonlinear_arith)
            requires
                p > 0,
        ;
        assert(low % 2 == floor % 2);
        lemma_rounds(low as nat, v, m as nat);
    }
    m
}

/// What the magnitudes of `m` and of `m + 1` steps stand for.
proof fn lemma_neighbours(j: nat, m: nat)
    requires
        m < 2 * SIGNIFICAND_STEPS,
        j > 0 ==> m >= SIGNIFICAND_STEPS,
    ensures
        scaled_magnitude(j * SIGNIFICAND_STEPS as nat + m) == m * pow2(j),
        scaled_magnitude(j * SIGNIFICAND_STEPS as nat + m + 1) == (m + 1) * pow2(j),
{
    lemma2_to64();
    if m >= SIGNIFICAND_STEPS {
        lemma_scaled_of_steps(j, m);
        lemma_scaled_of_steps(j, m + 1);
    } else {
        assert(scaled_magnitude(m) == m);
        assert(scaled_magnitude(m + 1) == m + 1);
    }
}

/// The magnitude that the sum of two magnitudes, or the difference of a
/// greater and a lesser one, rounds to.
fn combine(big: u64, small: u64, subtract: bool) -> (r: u64)
    requires
        small <= big < INFINITY_BITS,
    ensures
        r <= INFINITY_BITS,
        r == rounded(
            if subtract {
                (scaled_magnitude(big as nat) - scaled_magnitude(small as nat)) as nat
            } else {
                scaled_magnitude(big as nat) + scaled_magnitude(small as nat)
            },
        ),
{
    let (c1, e1) = decode(big);
    let (c2, e2) = decode(small);
    proof {
        if small < big {
            lemma_scaled_magnitude_increases(small as nat, big as nat);
        }
    }
    assert(e1 >= e2) by (nonlinear_arith)
        requires
            big == e1 * SIGNIFICAND_STEPS + c1,
            small == e2 * SIGNIFICAND_STEPS + c2,
            small <= big,
            c1 < 2 * SIGNIFICAND_STEPS,
            e2 > 0 ==> c2 >= SIGNIFICAND_STEPS,
    ;
    if e1 - e2 > 55 {
        proof {
            let q = pow2(e2 as nat);
            lemma_pow2_pos(e2 as nat);
            lemma2_to64_rest();
            lemma_pow2_adds(53, e2 as nat);
            assert(c2 * q < 0x20_0000_0000_0000 * q) by (nonlinear_arith)
                requires
                    c2 < 0x20_0000_0000_0000,
                    q > 0,
            ;
            if 53 + e2 < e1 - 3 {
                lemma_pow2_strictly_increases((53 + e2) as nat, (e1 - 3) as nat);
            }
            let v = if subtract {
                (scaled_magnitude(big as nat) - scaled_magnitude(small as nat)) as nat
            } else {
                scaled_magnitude(big as nat) + scaled_magnitude(small as nat)
            };
            lemma_far_apart(e1 as nat, c1 as nat, v);
        }
        return big;
    }
    let mut x: u128 = c1 as u128;
    let mut k: u64 = e1;
    proof {
        lemma2_to64();
        assert(c1 * pow2(0) == c1) by (nonlinear_arith)
            requires
                pow2(0) == 1,
        ;
    }
    while k > e2
        invariant
            e2 <= k <= e1 <= 2045,
            e1 - e2 <= 55,
            c1 < 0x20_0000_0000_0000,
            x == c1 * pow2((e1 - k) as nat),
            x * pow2(k as nat) == scaled_magnitude(big as nat),
        decreases k,
    {
        proof {
            lemma_pow2_unfold(k as nat);
            lemma_pow2_unfold((e1 - k + 1) as nat);
            lemma_steps_bound(c1 as nat, (e1 - k) as nat);
            let (p, q) = (pow2((k - 1) as nat), pow2((e1 - k) as nat));
            assert(x * (2 * p) == (2 * x) * p) by (nonlinear_arith);
            assert(c1 * (2 * q) == 2 * (c1 * q)) by (nonlinear_arith);
        }
        x = x * 2;
        k = k - 1;
    }
    proof {
        lemma_steps_bound(c1 as nat, (e1 - e2) as nat);
        let q = pow2(e2 as nat);
        lemma_pow2_pos(e2 as nat);
        assert((x + c2) * q == x * q + c2 * q) by (nonlinear_arith);
        assert((x - c2) * q == x * q - c2 * q) by (nonlinear_arith);
        assert(x >= c2) by (nonlinear_arith)
            requires
                x * q >= c2 * q,
                q > 0,
        ;
    }
    if subtract {
        round_steps(x - c2 as u128, e2)
    } else {
        round_steps(x + c2 as u128, e2)
    }
}

proof fn lemma_steps_bound(c: nat, d: nat)
    requires
        c < 0x20_0000_0000_0000,
        d <= 55,
    ensures
        c * pow2(d) < 0x1000_0000_0000_0000_0000_0000_0000,
{
    lemma2_to64_rest();
    if d < 55 {
        lemma_pow2_strictly_increases(d, 55);
    }
    let p = pow2(d);
    assert(c * p <= 0x1f_ffff_ffff_ffff * 0x80_0000_0000_0000) by (nonlinear_arith)
        requires
            c < 0x20_0000_0000_0000,
            p <= 0x80_0000_0000_0000,
    ;
}

fn encode(negative: bool, m: u64) -> (r: Binary64)
    requires
        m <= INFINITY_BITS,
    ensures
        r == Binary64::of_magnitude(negative, m as nat),
{
    if negative {
        Binary64 { bits: SIGN_BIT + m }
    } else {
        Binary64 { bits: m }
    }
}

impl Binary64 {
    fn sign_and_magnitude(self) -> (r: (bool, u64))
        ensures
            r.0 == self.is_negative(),
            r.1 == self.magnitude(),
    {
        if self.bits >= SIGN_BIT {
            (true, self.bits - SIGN_BIT)
        } else {
            (false, self.bits)
        }
    }

    /// `-self`
    pub fn neg(self) -> (r: Binary64)
        ensures
            r == self.opposite(),
    {
        if self.bits >= SIGN_BIT {
            Binary64 { bits: self.bits - SIGN_BIT }
        } else {
            Binary64 { bits: self.bits + SIGN_BIT }
        }
    }

    /// The double without its sign.
    pub fn abs(self) -> (r: Binary64)
        ensures
            r == self.absolute(),
    {
        Binary64 { bits: self.sign_and_magnitude().1 }
    }

    /// `self - other` as doubles subtract.
    pub fn minus(self, other: Binary64) -> (r: Binary64)
        ensures
            r == self.difference(other),
    {
        if self.is_nan() || other.is_nan() {
            return Binary64 { bits: NAN_BITS };
        }
        let (sn, sm) = self.sign_and_magnitude();
        let (on, om) = other.sign_and_magnitude();
        if !self.is_finite() {
            return if !other.is_finite() && sn == on {
                Binary64 { bits: NAN_BITS }
            } else {
                self
            };
        }
        if !other.is_finite() {
            return other.neg();
        }
        proof {
            assert(scaled_magnitude(0) == 0);
            if sm > 0 {
                lemma_scaled_magnitude_increases(0, sm as nat);
            }
            if om > 0 {
                lemma_scaled_magnitude_increases(0, om as nat);
            }
            if sm < om {
                lemma_scaled_magnitude_increases(sm as nat, om as nat);
            }
            if om < sm {
                lemma_scaled_magnitude_increases(om as nat, sm as nat);
            }
        }
        if sn == on {
            if sm == om {
                Binary64 { bits: ZERO_BITS }
            } else if sm > om {
                encode(sn, combine(sm, om, true))
            } else {
                encode(!sn, combine(om, sm, true))
            }
        } else if sm == 0 && om == 0 {
            encode(sn, 0)
        } else if sm >= om {
            encode(sn, combine(sm, om, false))
        } else {
            encode(sn, combine(om, sm, false))
        }
    }

    /// `self + other` as doubles add.
    pub fn plus(self, other: Binary64) -> (r: Binary64)
        ensures
            r == self.sum(other),
    {
        self.minus(other.neg())
    }

    /// `self % 24.0`
    pub fn rem_day(self) -> (r: Binary64)
        ensures
            r == self.day_remainder(),
    {
        if !self.is_finite() {
            return Binary64 { bits: NAN_BITS };
        }
        let (negative, m) = self.sign_and_magnitude();
        let (c, e) = decode(m);
        proof {
            lemma2_to64();
            lemma_pow2_adds(3, 1074);
            assert(day() == 3 * pow2(1077));
        }
        let ghost v = scaled_magnitude(m as nat);
        if e >= 1077 {
            let mut r: u64 = c % 3;
            let mut k: u64 = 1077;
            proof {
                assert(c * pow2(0) == c) by (nonlinear_arith)
                    requires
                        pow2(0) == 1,
                ;
            }
            while k < e
                invariant
                    1077 <= k <= e,
                    r < 3,
                    r == (c as nat * pow2((k - 1077) as nat)) % 3,
                decreases e - k,
            {
                proof {
                    lemma_pow2_unfold((k + 1 - 1077) as nat);
                    let p = pow2((k - 1077) as nat);
                    assert(c * (2 * p) == 2 * (c * p)) by (nonlinear_arith);
                }
                r = (2 * r) % 3;
                k = k + 1;
            }
            proof {
                let (p, q) = (pow2((e - 1077) as nat), pow2(1077));
                lemma_pow2_adds((e - 1077) as nat, 1077);
                lemma_pow2_pos(1077);
                assert(c * (p * q) == q * (c * p)) by (nonlinear_arith);
                assert(0 <= c * p) by (nonlinear_arith);
                lemma_truncate_middle((c * p) as int, q as int, 3);
                assert(q * r == r * q) by (nonlinear_arith);
                assert(v % day() == r * q);
            }
            encode(negative, round_steps(r as u128, 1077))
        } else if e <= 1025 {
            proof {
                let (p, q) = (pow2((1077 - e) as nat), pow2(e as nat));
                lemma_pow2_adds((1077 - e) as nat, e as nat);
                lemma2_to64_rest();
                if e < 1025 {
                    lemma_pow2_strictly_increases(52, (1077 - e) as nat);
                }
                lemma_pow2_pos(e as nat);
                assert(c * q < 3 * (p * q)) by (nonlinear_arith)
                    requires
                        c < 0x20_0000_0000_0000,
                        p >= 0x10_0000_0000_0000,
                        q > 0,
                ;
                rounding_keeps_doubles(m as nat);
                lemma_small_mod(v, day());
            }
            encode(negative, m)
        } else {
            let t: u64 = 1077 - e;
            proof {
                lemma2_to64_rest();
                if t < 51 {
                    lemma_pow2_strictly_increases(t as nat, 51);
                }
                lemma_u64_shl_is_mul(3, t);
            }
            let modulus: u64 = 3u64 << t;
            proof {
                let (p, q) = (pow2(t as nat), pow2(e as nat));
                lemma_pow2_pos(t as nat);
                lemma_pow2_pos(e as nat);
                lemma_pow2_adds(t as nat, e as nat);
                assert(3 * (p * q) == q * (3 * p)) by (nonlinear_arith);
                assert(c * q == q * c) by (nonlinear_arith);
                lemma_truncate_middle(c as int, q as int, (3 * p) as int);
                let r = (c % modulus) as int;
                assert(q * r == r * q) by (nonlinear_arith);
                assert(v % day() == r * q);
            }
            encode(negative, round_steps((c % modulus) as u128, e))
        }
    }

    /// `self.rem_euclid(24.0)`
    pub fn rem_euclid_day(self) -> (r: Binary64)
        ensures
            r == self.turned(),
    {
        let r = self.rem_day();
        if r.lt(Binary64 { bits: ZERO_BITS }) {
            r.plus(Binary64 { bits: TWENTY_FOUR_BITS })
        } else {
            r
        }
    }
}

/// What the encodings that the day is measured by stand for, and their
/// neighbours.
proof fn lemma_day_doubles()
    ensures
        scaled_magnitude(TWENTY_FOUR_BITS as nat) == day(),
        scaled_magnitude(TWELVE_BITS as nat) * 2 == day(),
        scaled_magnitude((TWELVE_BITS - 1) as nat) + scaled_magnitude((TWELVE_BITS + 1) as nat)
            == day(),
        scaled_magnitude(HALF_BITS as nat) > 0,
{
    lemma2_to64();
    lemma2_to64_rest();
    lemma_pow2_adds(48, 1026);
    lemma_pow2_adds(49, 1025);
    lemma_scaled_of_steps(1026, 0x18_0000_0000_0000);
    lemma_scaled_of_steps(1025, 0x18_0000_0000_0000);
    lemma_scaled_of_steps(1025, 0x17_FFFF_FFFF_FFFF);
    lemma_scaled_of_steps(1025, 0x18_0000_0000_0001);
    lemma_pow2_unfold(1026);
    assert(scaled_magnitude(0) == 0);
    lemma_scaled_magnitude_increases(0, HALF_BITS as nat);
    assert(0x18_0000_0000_0000 * pow2(1026) == 24 * (pow2(48) * pow2(1026)));
}

/// A finite number brought into a day is at least zero and at most
/// twenty-four, and no infinity brings anything into it.
pub proof fn turned_is_within_a_day(x: Binary64)
    ensures
        x.turned().nan() <==> !x.finite(),
        x.finite() ==> Binary64::zero().at_most(x.turned()) && x.turned().at_most(
            Binary64 { bits: TWENTY_FOUR_BITS },
        ),
{
    if x.finite() {
        lemma_day_doubles();
        lemma_pow2_pos(1074);
        let v = scaled_magnitude(x.magnitude()) % day();
        let top = TWENTY_FOUR_BITS as nat;
        rounding_is_monotone(v, day());
        rounding_keeps_doubles(top);
        let m = rounded(v);
        assert(m <= top);
        assert(scaled_magnitude(0) == 0);
        if x.is_negative() && m > 0 {
            let r = x.day_remainder();
            lemma_scaled_magnitude_increases(0, m);
            if m < top {
                lemma_scaled_magnitude_increases(m, top);
            }
            let w = (day() - scaled_magnitude(m)) as nat;
            rounding_is_monotone(w, day());
        }
    }
}

/// A double stands for every count of steps that fits a significand.
proof fn lemma_steps_are_exact(c: nat, e: nat) -> (m: nat)
    requires
        c < 2 * SIGNIFICAND_STEPS,
    ensures
        scaled_magnitude(m) == c * pow2(e),
    decreases e,
{
    lemma2_to64();
    if c >= SIGNIFICAND_STEPS {
        lemma_scaled_of_steps(e, c);
        e * SIGNIFICAND_STEPS as nat + c
    } else if e == 0 {
        c
    } else {
        lemma_pow2_unfold(e);
        let p = pow2((e - 1) as nat);
        assert(c * (2 * p) == (2 * c) * p) by (nonlinear_arith);
        lemma_steps_are_exact(2 * c, (e - 1) as nat)
    }
}

/// A double stands for what is left of a number when whole days are taken
/// from it.
proof fn lemma_remainder_is_exact(m: nat) -> (r: nat)
    requires
        m < INFINITY_BITS,
    ensures
        scaled_magnitude(r) == scaled_magnitude(m) % day(),
{
    let steps = SIGNIFICAND_STEPS as nat;
    let exponent = m / steps;
    let (c, e) = if exponent == 0 {
        (m % steps, 0nat)
    } else {
        (steps + m % steps, (exponent - 1) as nat)
    };
    lemma2_to64();
    lemma2_to64_rest();
    lemma_pow2_adds(3, 1074);
    assert(day() == 3 * pow2(1077));
    let v = scaled_magnitude(m);
    let q = pow2(e);
    lemma_pow2_pos(e);
    assert(v == c * q) by {
        if exponent == 0 {
            assert(c * pow2(0) == c) by (nonlinear_arith)
                requires
                    pow2(0) == 1,
            ;
        }
    }
    if e >= 1077 {
        let (p, unit) = (pow2((e - 1077) as nat), pow2(1077));
        lemma_pow2_adds((e - 1077) as nat, 1077);
        lemma_pow2_pos(1077);
        assert(c * (p * unit) == unit * (c * p)) by (nonlinear_arith);
        assert(0 <= c * p) by (nonlinear_arith);
        lemma_truncate_middle((c * p) as int, unit as int, 3);
        let left = (c * p) % 3;
        assert(unit * left == left * unit) by (nonlinear_arith);
        lemma_steps_are_exact(left, 1077)
    } else {
        let t = (1077 - e) as nat;
        let p = pow2(t);
        lemma_pow2_pos(t);
        lemma_pow2_adds(t, e);
        assert(3 * (p * q) == q * (3 * p)) by (nonlinear_arith);
        assert(c * q == q * c) by (nonlinear_arith);
        lemma_truncate_middle(c as int, q as int, (3 * p) as int);
        let left = c % (3 * p);
        assert(left <= c) by (nonlinear_arith)
            requires
                left == c % (3 * p),
                p > 0,
        ;
        assert(q * left == left * q) by (nonlinear_arith);
        lemma_steps_are_exact(left, e)
    }
}

/// The remainder of a finite number is exact: it has the sign of the number,
/// and its size is what is left of the number's when whole days are taken
/// from it.
pub proof fn remainder_is_exact(x: Binary64)
    requires
        x.finite(),
    ensures
        x.day_remainder().finite(),
        x.day_remainder().is_negative() == x.is_negative(),
        scaled_magnitude(x.day_remainder().magnitude()) == scaled_magnitude(x.magnitude()) % day(),
{
    let m = x.magnitude();
    let v = scaled_magnitude(m) % day();
    let r = lemma_remainder_is_exact(m);
    lemma_day_doubles();
    lemma_pow2_pos(1074);
    let top = TWENTY_FOUR_BITS as nat;
    if r >= top {
        if r > top {
            lemma_scaled_magnitude_increases(top, r);
        }
        assert(v < day());
    }
    rounding_keeps_doubles(r);
}

/// Whole days do not matter: two finite numbers that differ by a number of
/// them are brought into the day at the same place.
pub proof fn whole_days_do_not_matter(x: Binary64, y: Binary64)
    requires
        x.finite(),
        y.finite(),
        (x.scaled() - y.scaled()) % day() as int == 0,
    ensures
        x.turned().scaled() == y.turned().scaled(),
{
    if x.is_negative() && !y.is_negative() {
        lemma_opposite_sides(x, y);
    } else if !x.is_negative() && y.is_negative() {
        let d = day() as int;
        let (a, b) = (x.scaled(), y.scaled());
        lemma_pow2_pos(1074);
        assert((b - a) % d == 0) by {
            lemma_mod_multiples_basic(-((a - b) / d), d);
            lemma_fundamental_div_mod(a - b, d);
            let k = (a - b) / d;
            assert(b - a == -k * d) by (nonlinear_arith)
                requires
                    a - b == d * k,
            ;
        }
        lemma_opposite_sides(y, x);
    } else {
        let d = day() as int;
        let (a, b) = (
            scaled_magnitude(x.magnitude()) as int,
            scaled_magnitude(y.magnitude()) as int,
        );
        lemma_pow2_pos(1074);
        if x.is_negative() {
            lemma_mod_equivalence(b, a, d);
        } else {
            lemma_mod_equivalence(a, b, d);
        }
    }
}

/// A number below zero and one that is not, whole days apart.
proof fn lemma_opposite_sides(x: Binary64, y: Binary64)
    requires
        x.finite(),
        y.finite(),
        x.is_negative(),
        !y.is_negative(),
        (x.scaled() - y.scaled()) % day() as int == 0,
    ensures
        x.turned().scaled() == y.turned().scaled(),
{
    let d = day() as int;
    let (a, b) = (scaled_magnitude(x.magnitude()) as int, scaled_magnitude(y.magnitude()) as int);
    lemma_pow2_pos(1074);
    remainder_is_exact(x);
    remainder_is_exact(y);
    lemma_day_doubles();
    let (ra, rb) = (a % d, b % d);
    assert(rb == if ra == 0 {
        0
    } else {
        d - ra
    }) by {
        lemma_fundamental_div_mod(a, d);
        lemma_fundamental_div_mod(b, d);
        lemma_fundamental_div_mod(-a - b, d);
        let k = (-a - b) / d + a / d + b / d;
        assert(ra + rb == -k * d) by (nonlinear_arith)
            requires
                a == d * (a / d) + ra,
                b == d * (b / d) + rb,
                -a - b == d * ((-a - b) / d),
                k == (-a - b) / d + a / d + b / d,
        ;
        assert(k == 0 || k == -1) by (nonlinear_arith)
            requires
                ra + rb == -k * d,
                0 <= ra < d,
                0 <= rb < d,
                d > 0,
        ;
        assert(k == 0 ==> ra + rb == 0) by (nonlinear_arith)
            requires
                ra + rb == -k * d,
        ;
        assert(k == -1 ==> ra + rb == d) by (nonlinear_arith)
            requires
                ra + rb == -k * d,
        ;
    }
    assert(scaled_magnitude(0) == 0);
    let m = x.day_remainder().magnitude();
    if m > 0 {
        lemma_scaled_magnitude_increases(0, m);
        rounding_keeps_doubles(y.day_remainder().magnitude());
    }
}

/// What remains of a turn beyond its half, taken backwards, is less than
/// half a turn.
pub proof fn later_half_is_short(t: Binary64)
    requires
        (Binary64 { bits: TWELVE_BITS }).less(t),
        t.at_most(Binary64 { bits: TWENTY_FOUR_BITS }),
    ensures
        ({
            let back = t.difference(Binary64 { bits: TWENTY_FOUR_BITS });
            back.finite() && (Binary64 { bits: TWELVE_BITS }).opposite().less(back)
                && back.at_most(Binary64::zero())
        }),
{
    lemma_day_doubles();
    let (m, top) = (t.magnitude(), TWENTY_FOUR_BITS as nat);
    assert(!t.is_negative());
    assert(scaled_magnitude(0) == 0);
    if m < top {
        lemma_scaled_magnitude_increases(m, top);
        if m > TWELVE_BITS + 1 {
            lemma_scaled_magnitude_increases((TWELVE_BITS + 1) as nat, m);
        }
        let v = (day() - scaled_magnitude(m)) as nat;
        let below = (TWELVE_BITS - 1) as nat;
        rounding_is_monotone(v, scaled_magnitude(below));
        rounding_keeps_doubles(below);
    }
}

/// Taking a number of at most twenty-four from a finite one leaves a finite
/// one, and from any other it does not.
pub proof fn small_differences_are_finite(a: Binary64, b: Binary64)
    requires
        Binary64::zero().at_most(b),
        b.at_most(Binary64 { bits: TWENTY_FOUR_BITS }),
    ensures
        a.difference(b).finite() <==> a.finite(),
{
    if a.finite() {
        let top = (INFINITY_BITS - 1) as nat;
        let steps = SIGNIFICAND_STEPS as nat;
        let (ma, mb) = (a.magnitude(), b.magnitude());
        assert(scaled_magnitude(0) == 0);
        if ma < top {
            lemma_scaled_magnitude_increases(ma, top);
        }
        lemma_day_doubles();
        if mb < TWENTY_FOUR_BITS {
            lemma_scaled_magnitude_increases(mb, TWENTY_FOUR_BITS as nat);
        }
        let v = scaled_magnitude(top) + day();
        lemma2_to64();
        lemma_pow2_adds(5, 1074);
        lemma_pow2_strictly_increases(1079, 2042);
        lemma_pow2_pos(1074);
        lemma_scaled_of_steps(2045, (2 * steps - 1) as nat);
        assert(top == 2045 * steps + (2 * steps - 1));
        lemma_far_apart(2045, (2 * steps - 1) as nat, v);
        let d = a.scaled() - b.scaled();
        let w = if d < 0 {
            (-d) as nat
        } else {
            d as nat
        };
        rounding_is_monotone(w, v);
    }
}

/// Adding half to a number does not make it less.
pub proof fn adding_half_does_not_lessen(a: Binary64)
    requires
        a.finite(),
        !a.is_negative(),
    ensures
        a.at_most(a.sum(Binary64 { bits: HALF_BITS })),
{
    let half = Binary64 { bits: HALF_BITS };
    let v = scaled_magnitude(a.magnitude());
    rounding_is_monotone(v, v + scaled_magnitude(HALF_BITS as nat));
    rounding_keeps_doubles(a.magnitude());
    assert(scaled_magnitude(0) == 0);
    lemma_scaled_magnitude_increases(0, HALF_BITS as nat);
    assert(half.opposite().scaled() == -(scaled_magnitude(HALF_BITS as nat) as int));
}

/// Adding the same to both keeps the order of two numbers.
pub proof fn adding_keeps_order(a: Binary64, b: Binary64, c: Binary64)
    requires
        a.finite(),
        b.finite(),
        c.finite(),
        !a.is_negative(),
        !b.is_negative(),
        !c.is_negative(),
        a.at_most(b),
    ensures
        a.sum(c).at_most(b.sum(c)),
{
    let (ma, mb, mc) = (a.magnitude(), b.magnitude(), c.magnitude());
    if ma < mb {
        lemma_scaled_magnitude_increases(ma, mb);
    }
    let v = scaled_magnitude(ma) + scaled_magnitude(mc);
    let w = scaled_magnitude(mb) + scaled_magnitude(mc);
    rounding_is_monotone(v, w);
    assert(c.opposite().scaled() == -(scaled_magnitude(mc) as int));
}

/// Taking the size of a double clears its sign and leaves the rest of its
/// encoding alone, and changing its sign changes nothing else: the numbers
/// that they stand for are the same, or each other's negatives.
pub proof fn size_and_opposite_keep_the_number(x: Binary64)
    ensures
        x.absolute().bits == if x.bits >= 0x8000_0000_0000_0000 {
            x.bits - 0x8000_0000_0000_0000
        } else {
            x.bits as int
        },
        x.opposite().bits != x.bits,
        x.opposite().opposite() == x,
        x.absolute().scaled() >= 0,
        x.absolute().scaled() == x.scaled() || x.absolute().scaled() == -x.scaled(),
        x.opposite().scaled() == -x.scaled(),
        x.absolute().finite() == x.finite(),
        x.absolute().nan() == x.nan(),
        x.opposite().finite() == x.finite(),
{
}

/// Doubles that are finite subtract and add like numbers, rounded to the
/// nearest double: where the exact result is a double, it is the result.
pub proof fn exact_results_are_kept(x: Binary64, y: Binary64, z: Binary64)
    requires
        x.finite(),
        y.finite(),
        z.finite(),
    ensures
        x.scaled() - y.scaled() == z.scaled() ==> x.difference(y).scaled() == z.scaled(),
        x.scaled() + y.scaled() == z.scaled() ==> x.sum(y).scaled() == z.scaled(),
{
    rounding_keeps_doubles(z.magnitude());
    assert(scaled_magnitude(0) == 0);
    let m = z.magnitude();
    if m > 0 {
        lemma_scaled_magnitude_increases(0, m);
    }
    size_and_opposite_keep_the_number(y);
}

/// Half an hour, twelve hours and a day are the doubles that they are named
/// after.
pub proof fn named_hours()
    ensures
        2 * (Binary64 { bits: HALF_BITS }).scaled() == pow2(1074),
        (Binary64 { bits: TWELVE_BITS }).scaled() == 12 * pow2(1074),
        (Binary64 { bits: TWENTY_FOUR_BITS }).scaled() == 24 * pow2(1074),
        (Binary64 { bits: NAN_BITS }).nan(),
        day() == 24 * pow2(1074),
{
    lemma_day_doubles();
    lemma2_to64();
    lemma2_to64_rest();
    lemma_pow2_adds(52, 1022);
    lemma_pow2_adds(52, 1021);
    lemma_pow2_adds(49, 1025);
    lemma_pow2_unfold(1074);
    lemma_pow2_unfold(1073);
    lemma_pow2_adds(48, 1026);
    assert(0x18_0000_0000_0000 * pow2(1025) == 12 * (pow2(49) * pow2(1025)));
    assert(0x18_0000_0000_0000 * pow2(1026) == 24 * (pow2(48) * pow2(1026)));
}

/// A difference that is a finite double is finite.
pub proof fn exact_differences_are_finite(x: Binary64, y: Binary64, z: Binary64)
    requires
        x.finite(),
        y.finite(),
        z.finite(),
        x.scaled() - y.scaled() == z.scaled(),
    ensures
        x.difference(y).finite(),
{
    rounding_keeps_doubles(z.magnitude());
    assert(scaled_magnitude(0) == 0);
    let m = z.magnitude();
    if m > 0 {
        lemma_scaled_magnitude_increases(0, m);
    }
}

} // verus!
