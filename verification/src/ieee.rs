//! Real numbers in the binary64 format of IEEE 754, by their bits.
//!
//! A value is measured in units of 2^-1074, the smallest positive number of the
//! format: every number of the format is a whole number of units, so that
//! comparing, rounding and writing are matters of integers.

use vstd::arithmetic::power2::{
    lemma2_to64, lemma2_to64_rest, lemma_pow2_adds, lemma_pow2_pos, lemma_pow2_strictly_increases,
    lemma_pow2_unfold, pow2,
};
use vstd::prelude::*;

use crate::num::{
    all_digits, decimal, decimal_int, decimal_of, digit, digit_char, digit_value, digits_value,
    law_minus_signs_are_written, law_numbers_are_read_back,
};
use crate::text::{append, append_str};

verus! {

/// A number in the binary64 format, by its bits: the sign in the highest bit,
/// then eleven bits of exponent and 52 bits of fraction.
#[derive(Clone, Copy)]
pub struct Real {
    /// The bits.
    pub bits: u64,
}

/// The magnitude of the infinities; those above it are no numbers.
pub const INFINITE: u64 = 0x7ff0_0000_0000_0000;

/// The lowest bit of the exponent, and the highest bit of a significand.
pub const HIDDEN_BIT: u64 = 0x0010_0000_0000_0000;

/// The sign bit.
pub const SIGN_BIT: u64 = 0x8000_0000_0000_0000;

/// The number of units in 1.
pub open spec fn one() -> int {
    pow2(1074) as int
}

/// The significand of a number with the given magnitude bits.
pub open spec fn significand(magnitude: int) -> int {
    if magnitude < HIDDEN_BIT {
        magnitude
    } else {
        HIDDEN_BIT + magnitude % (HIDDEN_BIT as int)
    }
}

/// The power of two by which the significand is scaled.
pub open spec fn scale(magnitude: int) -> nat {
    if magnitude < HIDDEN_BIT {
        0
    } else {
        (magnitude / (HIDDEN_BIT as int) - 1) as nat
    }
}

/// The units of a number with the given magnitude bits. For an infinity these
/// are more than those of every number.
pub open spec fn units(magnitude: int) -> int {
    significand(magnitude) * pow2(scale(magnitude))
}

impl Real {
    /// Whether the sign bit is set.
    pub open spec fn negative(self) -> bool {
        self.bits >= SIGN_BIT
    }

    /// The bits but for the sign.
    pub open spec fn magnitude(self) -> int {
        if self.negative() {
            self.bits - SIGN_BIT
        } else {
            self.bits as int
        }
    }

    /// Whether this is no number.
    pub open spec fn is_nan(self) -> bool {
        self.magnitude() > INFINITE
    }

    /// Whether this is a number, and no infinity.
    pub open spec fn is_finite(self) -> bool {
        self.magnitude() < INFINITE
    }

    /// The value in units.
    pub open spec fn value(self) -> int {
        if self.negative() {
            -units(self.magnitude())
        } else {
            units(self.magnitude())
        }
    }

    /// Whether both are numbers, or infinities, and this one is less.
    pub open spec fn less(self, other: Real) -> bool {
        !self.is_nan() && !other.is_nan() && self.value() < other.value()
    }

    /// Whether this is less than a whole number.
    pub open spec fn below(self, n: int) -> bool {
        !self.is_nan() && self.value() < n * one()
    }
}

/// A significand fills its bits, and only zero has the value zero.
pub proof fn lemma_significand(magnitude: int)
    requires
        0 <= magnitude,
    ensures
        0 <= significand(magnitude) < 2 * HIDDEN_BIT,
        magnitude >= HIDDEN_BIT ==> significand(magnitude) >= HIDDEN_BIT,
        magnitude > 0 ==> significand(magnitude) > 0,
        units(magnitude) >= 0,
        magnitude > 0 ==> units(magnitude) > 0,
{
    let h = HIDDEN_BIT as int;
    assert(0 <= magnitude % h < h);
    let m = significand(magnitude);
    let p = pow2(scale(magnitude)) as int;
    lemma_pow2_pos(scale(magnitude));
    assert(m * p >= 0) by (nonlinear_arith)
        requires
            m >= 0,
            p > 0,
    ;
    if magnitude > 0 {
        assert(m * p > 0) by (nonlinear_arith)
            requires
                m > 0,
                p > 0,
        ;
    }
}

/// Magnitudes are in the order of the values.
pub proof fn lemma_units_increase(a: int, b: int)
    requires
        0 <= a < b,
    ensures
        units(a) < units(b),
{
    let h = HIDDEN_BIT as int;
    let (ma, mb) = (significand(a), significand(b));
    let (sa, sb) = (scale(a), scale(b));
    let (pa, pb) = (pow2(sa) as int, pow2(sb) as int);
    lemma_significand(a);
    lemma_significand(b);
    lemma_pow2_pos(sa);
    lemma_pow2_pos(sb);
    vstd::arithmetic::div_mod::lemma_div_is_ordered(a, b, h);
    vstd::arithmetic::div_mod::lemma_fundamental_div_mod(a, h);
    vstd::arithmetic::div_mod::lemma_fundamental_div_mod(b, h);
    if b < h {
        assert(pow2(0) == 1) by {
            lemma2_to64();
        }
        assert(ma * pa == ma && mb * pb == mb) by (nonlinear_arith)
            requires
                pa == 1,
                pb == 1,
        ;
    } else if a < h {
        assert(pow2(0) == 1) by {
            lemma2_to64();
        }
        assert(mb <= mb * pb) by (nonlinear_arith)
            requires
                mb >= 0,
                pb >= 1,
        ;
        assert(ma * pa == ma) by (nonlinear_arith)
            requires
                pa == 1,
        ;
        assert(ma < h <= mb);
    } else if sa == sb {
        assert(a / h == b / h);
        assert(ma < mb);
        assert(ma * pa < mb * pa) by (nonlinear_arith)
            requires
                ma < mb,
                pa > 0,
        ;
    } else {
        assert(a / h < b / h) by {
            if a / h == b / h {
                assert(sa == sb);
            }
        }
        assert(sa < sb);
        lemma_pow2_unfold(sb);
        let half = pow2((sb - 1) as nat) as int;
        if sa < sb - 1 {
            lemma_pow2_strictly_increases(sa, (sb - 1) as nat);
        }
        assert(pa <= half);
        assert(ma * pa < 2 * h * half) by (nonlinear_arith)
            requires
                0 <= ma < 2 * h,
                0 < pa <= half,
        ;
        assert(2 * h * half <= mb * pb) by (nonlinear_arith)
            requires
                mb >= h,
                pb == 2 * half,
                half > 0,
                h > 0,
        ;
    }
}

impl Real {
    /// Whether this is no number.
    pub fn nan(self) -> (r: bool)
        ensures
            r == self.is_nan(),
    {
        self.magnitude_of() > INFINITE
    }

    /// Whether the sign bit is set.
    pub fn has_sign(self) -> (r: bool)
        ensures
            r == self.negative(),
    {
        self.bits >= SIGN_BIT
    }

    /// The bits but for the sign.
    pub fn magnitude_of(self) -> (r: u64)
        ensures
            r == self.magnitude(),
            r < SIGN_BIT,
    {
        if self.bits >= SIGN_BIT {
            self.bits - SIGN_BIT
        } else {
            self.bits
        }
    }

    /// Whether this is less than another number.
    pub fn lt(self, other: Real) -> (r: bool)
        ensures
            r == self.less(other),
    {
        if self.nan() || other.nan() {
            return false;
        }
        let a: u64 = self.magnitude_of();
        let b: u64 = other.magnitude_of();
        proof {
            lemma_significand(a as int);
            lemma_significand(b as int);
            if a < b {
                lemma_units_increase(a as int, b as int);
            }
            if b < a {
                lemma_units_increase(b as int, a as int);
            }
            assert(units(0) == 0) by {
                let p = pow2(0) as int;
                assert(0 * p == 0) by (nonlinear_arith);
            }
        }
        if self.has_sign() {
            if other.has_sign() {
                b < a
            } else {
                a > 0 || b > 0
            }
        } else {
            !other.has_sign() && a < b
        }
    }
}

/// A whole number of at most 32 bits has the units that its place in the format
/// says: `m` is its significand, and `s` the power of two that is left out.
pub proof fn lemma_whole(magnitude: int, n: int, s: nat)
    requires
        magnitude >= HIDDEN_BIT,
        s <= 52,
        significand(magnitude) == n * pow2(s),
        scale(magnitude) == 1074 - s,
    ensures
        units(magnitude) == n * one(),
{
    lemma_pow2_adds(s, (1074 - s) as nat);
    let a = pow2(s) as int;
    let b = pow2((1074 - s) as nat) as int;
    assert((n * a) * b == n * (a * b)) by (nonlinear_arith);
}

// ---------------------------------------------------------------------------
// Fixed point
// ---------------------------------------------------------------------------

/// The magnitude of 2^64.
const LARGE: u64 = 0x43f0_0000_0000_0000;

/// The number of units in 2^-60.
spec fn cell() -> int {
    pow2(1014) as int
}

proof fn lemma_large()
    ensures
        units(LARGE as int) == pow2(1138),
        pow2(1138) == pow2(124) * cell(),
        one() == pow2(60) * cell(),
        cell() > 0,
{
    lemma2_to64();
    lemma2_to64_rest();
    lemma_pow2_adds(52, 1086);
    lemma_pow2_adds(124, 1014);
    lemma_pow2_adds(60, 1014);
    lemma_pow2_pos(1014);
    assert(scale(LARGE as int) == 1086);
    assert(significand(LARGE as int) == pow2(52));
}

impl Real {
    /// The significand and the scale of the magnitude.
    fn parts(self) -> (r: (u64, u32))
        ensures
            r.0 == significand(self.magnitude()),
            r.1 == scale(self.magnitude()),
            r.0 < 2 * HIDDEN_BIT,
            r.1 <= 2047,
            r.0 * pow2(r.1 as nat) == units(self.magnitude()),
    {
        let m: u64 = self.magnitude_of();
        if m < HIDDEN_BIT {
            (m, 0)
        } else {
            (HIDDEN_BIT + m % HIDDEN_BIT, (m / HIDDEN_BIT - 1) as u32)
        }
    }

    /// The magnitude in whole multiples of 2^-60, rounded down, and whether
    /// that is exact.
    fn fixed_point(self) -> (r: (u128, bool))
        requires
            self.magnitude() < LARGE,
        ensures
            r.0 * cell() <= units(self.magnitude()) < (r.0 + 1) * cell(),
            r.1 == (units(self.magnitude()) == r.0 * cell()),
            !r.1 ==> r.0 < HIDDEN_BIT,
            r.0 < 0x1000_0000_0000_0000_0000_0000_0000_0000,
    {
        let (m, s) = self.parts();
        let ghost u = units(self.magnitude());
        proof {
            lemma_large();
            lemma_units_increase(self.magnitude(), LARGE as int);
            assert(pow2(124) == 0x1000_0000_0000_0000_0000_0000_0000_0000) by {
                lemma2_to64();
                lemma2_to64_rest();
                lemma_pow2_adds(62, 62);
            }
        }
        let ghost top = 0x1000_0000_0000_0000_0000_0000_0000_0000int;
        let mut q: u128 = m as u128;
        let mut k: u32 = s;
        if s >= 1014 {
            while k > 1014
                invariant
                    1014 <= k <= 2047,
                    q * pow2(k as nat) == u,
                    u < top * cell(),
                    cell() > 0,
                    top == 0x1000_0000_0000_0000_0000_0000_0000_0000int,
                decreases k,
            {
                proof {
                    lemma_pow2_unfold(k as nat);
                    lemma_pow2_pos((k - 1) as nat);
                    let half = pow2((k - 1) as nat) as int;
                    let c = cell();
                    if k - 1 > 1014 {
                        lemma_pow2_strictly_increases(1014, (k - 1) as nat);
                    }
                    let x = q as int;
                    assert((2 * x) * half == x * (2 * half)) by (nonlinear_arith);
                    assert(2 * x < top) by (nonlinear_arith)
                        requires
                            (2 * x) * half < top * c,
                            half >= c,
                            c > 0,
                            x >= 0,
                    ;
                }
                q = q * 2;
                k -= 1;
            }
            assert(q < top) by (nonlinear_arith)
                requires
                    q * cell() < top * cell(),
                    cell() > 0,
            ;
            assert((q + 1) * cell() > q * cell()) by (nonlinear_arith)
                requires
                    cell() > 0,
            ;
            (q, true)
        } else {
            let mut exact = true;
            proof {
                lemma_pow2_pos(k as nat);
                let p = pow2(k as nat) as int;
                let x = q as int;
                assert((x + 1) * p > x * p) by (nonlinear_arith)
                    requires
                        p > 0,
                ;
            }
            while k < 1014
                invariant
                    s <= k <= 1014,
                    q * pow2(k as nat) <= u < (q + 1) * pow2(k as nat),
                    exact == (u == q * pow2(k as nat)),
                    q < 2 * HIDDEN_BIT,
                    k > s ==> q < HIDDEN_BIT,
                    s < 1014,
                decreases 1014 - k,
            {
                let odd = q % 2 == 1;
                let h: u128 = q / 2;
                proof {
                    lemma_pow2_unfold((k + 1) as nat);
                    lemma_pow2_pos(k as nat);
                    let p = pow2(k as nat) as int;
                    let x = q as int;
                    let y = h as int;
                    if odd {
                        assert(x == 2 * y + 1);
                        assert(y * (2 * p) < x * p && (y + 1) * (2 * p) == (x + 1) * p)
                            by (nonlinear_arith)
                            requires
                                x == 2 * y + 1,
                                p > 0,
                        ;
                    } else {
                        assert(x == 2 * y);
                        assert(y * (2 * p) == x * p && (y + 1) * (2 * p) > (x + 1) * p)
                            by (nonlinear_arith)
                            requires
                                x == 2 * y,
                                p > 0,
                        ;
                    }
                }
                if odd {
                    exact = false;
                }
                q = h;
                k += 1;
            }
            (q, exact)
        }
    }
}

// ---------------------------------------------------------------------------
// Nearness
// ---------------------------------------------------------------------------

impl Real {
    /// Whether two numbers differ by at most 300, as their difference is
    /// computed: rounded to the nearest number of the format. What is at most
    /// halfway from 300 to the number above it, which is 2^-44 away, is rounded
    /// to 300 or less.
    pub open spec fn within_300(self, other: Real) -> bool {
        let d = self.value() - other.value();
        let limit = 300 * one() + pow2(1029);
        self.is_finite() && other.is_finite() && -limit <= d <= limit
    }

    /// Whether two numbers differ by at most 300.
    pub fn near_300(self, other: Real) -> (r: bool)
        ensures
            r == self.within_300(other),
    {
        let a: u64 = self.magnitude_of();
        let b: u64 = other.magnitude_of();
        if a >= INFINITE || b >= INFINITE {
            return false;
        }
        let ghost ua = units(a as int);
        let ghost ub = units(b as int);
        let ghost c = cell();
        let ghost t = 300 * (pow2(60) as int) + pow2(15) as int;
        let ghost limit = 300 * one() + pow2(1029);
        proof {
            lemma_significand(a as int);
            lemma_significand(b as int);
            lemma_large();
            lemma2_to64();
            lemma2_to64_rest();
            lemma_pow2_adds(15, 1014);
            let p60 = pow2(60) as int;
            let p15 = pow2(15) as int;
            assert(300 * (p60 * c) + p15 * c == (300 * p60 + p15) * c) by (nonlinear_arith);
            assert(limit == t * c);
        }
        if a >= LARGE || b >= LARGE {
            proof {
                if a >= LARGE {
                    lemma_far(a as int, b as int);
                } else {
                    lemma_far(b as int, a as int);
                }
            }
            return self.has_sign() == other.has_sign() && a == b;
        }
        let (qa, ea) = self.fixed_point();
        let (qb, eb) = other.fixed_point();
        let most: u128 = 300 * 0x1000_0000_0000_0000 + 0x8000;
        if self.has_sign() != other.has_sign() {
            let sum: u128 = qa + qb;
            proof {
                let (x, y, n) = (qa as int, qb as int, sum as int);
                assert(x * c + y * c == n * c && (x + 1) * c + (y + 1) * c == (n + 2) * c)
                    by (nonlinear_arith)
                    requires
                        n == x + y,
                ;
                assert(x * c + (y + 1) * c == (n + 1) * c && (x + 1) * c + y * c == (n + 1) * c)
                    by (nonlinear_arith)
                    requires
                        n == x + y,
                ;
                assert(n <= t - 2 ==> (n + 2) * c <= t * c) by (nonlinear_arith)
                    requires
                        c > 0,
                ;
                assert(n > t ==> n * c > t * c) by (nonlinear_arith)
                    requires
                        c > 0,
                ;
            }
            sum < most || (sum == most && ea && eb)
        } else if a >= b {
            proof {
                lemma_nearness(a as int, b as int, qa as int, qb as int, c, t);
            }
            qa <= qb || qa - qb <= most
        } else {
            proof {
                lemma_nearness(b as int, a as int, qb as int, qa as int, c, t);
            }
            qb <= qa || qb - qa <= most
        }
    }
}

proof fn lemma_nearness(a: int, b: int, qa: int, qb: int, c: int, t: int)
    requires
        a >= b >= 0,
        c > 0,
        t >= HIDDEN_BIT,
        qa >= 0,
        qb >= 0,
        qa * c <= units(a) < (qa + 1) * c,
        qb * c <= units(b) < (qb + 1) * c,
        units(a) != qa * c ==> qa < HIDDEN_BIT,
    ensures
        units(a) >= units(b),
        units(a) - units(b) <= t * c <==> qa - qb <= t,
{
    if a > b {
        lemma_units_increase(b, a);
    }
    let (ua, ub) = (units(a), units(b));
    if qa - qb < t {
        assert((qa + 1) * c - qb * c <= t * c) by (nonlinear_arith)
            requires
                qa - qb < t,
                c > 0,
        ;
    } else if qa - qb == t {
        assert(qa * c - qb * c == t * c) by (nonlinear_arith)
            requires
                qa - qb == t,
        ;
    } else {
        assert(qa * c - (qb + 1) * c >= t * c) by (nonlinear_arith)
            requires
                qa - qb > t,
                c > 0,
        ;
    }
}

/// Large numbers are far from all others.
proof fn lemma_far(a: int, b: int)
    requires
        a >= LARGE,
        b >= 0,
    ensures
        units(a) > 300 * one() + pow2(1029),
        a > b ==> units(a) - units(b) > 300 * one() + pow2(1029),
        a < b ==> units(b) - units(a) > 300 * one() + pow2(1029),
{
    let limit = 300 * one() + pow2(1029);
    let gap = pow2(1085) as int;
    assert(limit < gap) by {
        lemma_pow2_adds(11, 1074);
        lemma2_to64();
        lemma_pow2_strictly_increases(1029, 1074);
        let p = pow2(1074) as int;
        lemma_pow2_pos(1074);
        assert(2048 * p > 301 * p) by (nonlinear_arith)
            requires
                p > 0,
        ;
    }
    lemma_gap(a);
    lemma_significand(a - 1);
    if a > b {
        if a - 1 > b {
            lemma_units_increase(b, a - 1);
        }
    }
    if a < b {
        lemma_gap(b);
        if b - 1 > a {
            lemma_units_increase(a, b - 1);
        }
    }
}

/// Neighbours among large numbers are at least 2048 apart.
proof fn lemma_gap(a: int)
    requires
        a >= LARGE,
    ensures
        units(a) - units(a - 1) >= pow2(1085),
{
    let h = HIDDEN_BIT as int;
    vstd::arithmetic::div_mod::lemma_fundamental_div_mod(a, h);
    vstd::arithmetic::div_mod::lemma_fundamental_div_mod(a - 1, h);
    vstd::arithmetic::div_mod::lemma_div_is_ordered(LARGE as int, a, h);
    let s = scale(a);
    let m = significand(a);
    assert(s >= 1086);
    let p = pow2(s) as int;
    lemma_pow2_pos(s);
    if a % h > 0 {
        assert((a - 1) / h == a / h && (a - 1) % h == a % h - 1) by {
            vstd::arithmetic::div_mod::lemma_fundamental_div_mod_converse(
                a - 1,
                h,
                a / h,
                a % h - 1,
            );
        }
        assert(m * p - (m - 1) * p == p) by (nonlinear_arith);
        lemma_pow2_strictly_increases(1085, s);
    } else {
        assert((a - 1) / h == a / h - 1 && (a - 1) % h == h - 1) by {
            assert(a - 1 == h * (a / h - 1) + (h - 1)) by (nonlinear_arith)
                requires
                    a == h * (a / h) + a % h,
                    a % h == 0,
            ;
            vstd::arithmetic::div_mod::lemma_fundamental_div_mod_converse(
                a - 1,
                h,
                a / h - 1,
                h - 1,
            );
        }
        lemma_pow2_unfold(s);
        let half = pow2((s - 1) as nat) as int;
        assert(scale(a - 1) == s - 1);
        assert(h * (2 * half) - (2 * h - 1) * half == half) by (nonlinear_arith);
        if s > 1086 {
            lemma_pow2_strictly_increases(1085, (s - 1) as nat);
        }
    }
}

// ---------------------------------------------------------------------------
// Whole numbers
// ---------------------------------------------------------------------------

impl Real {
    /// The number without its fraction, as far as 32 bits without a sign can
    /// hold it: 0 for what is negative or no number.
    pub open spec fn truncated(self) -> int {
        if self.is_nan() || self.negative() {
            0
        } else if self.value() / one() > 0xffff_ffff {
            0xffff_ffff
        } else {
            self.value() / one()
        }
    }

    /// The nearest whole number to a number that is not negative; what is
    /// halfway between two goes to the higher one. 0 for what is negative.
    pub open spec fn rounded(self) -> int {
        if self.negative() {
            0
        } else {
            (2 * self.value() + one()) / (2 * one())
        }
    }

    /// The number without its fraction.
    pub fn truncate(self) -> (r: u32)
        ensures
            r == self.truncated(),
    {
        if self.nan() || self.has_sign() {
            return 0;
        }
        proof {
            lemma_large();
            lemma2_to64();
            lemma2_to64_rest();
        }
        if self.magnitude_of() >= LARGE {
            proof {
                let u = units(self.magnitude());
                if self.magnitude() > LARGE {
                    lemma_units_increase(LARGE as int, self.magnitude());
                }
                lemma_pow2_adds(64, 1074);
                let w = one();
                lemma_pow2_pos(1074);
                vstd::arithmetic::div_mod::lemma_div_is_ordered(pow2(64) * w, u, w);
                vstd::arithmetic::div_mod::lemma_div_multiples_vanish(pow2(64) as int, w);
                assert(w * pow2(64) == pow2(64) * w) by (nonlinear_arith);
            }
            return 0xffff_ffff;
        }
        let (q, _) = self.fixed_point();
        let n: u128 = q / 0x1000_0000_0000_0000;
        proof {
            lemma_cells(units(self.magnitude()), q as int);
        }
        if n > 0xffff_ffff {
            0xffff_ffff
        } else {
            n as u32
        }
    }

    /// The nearest whole number to a number below 2^64.
    pub fn round(self) -> (r: u64)
        requires
            self.below(0x8000_0000_0000_0000),
        ensures
            r == self.rounded(),
    {
        if self.has_sign() {
            return 0;
        }
        proof {
            lemma_large();
            lemma2_to64();
            lemma2_to64_rest();
            lemma_pow2_adds(64, 1074);
            lemma_pow2_pos(1074);
            let u = units(self.magnitude());
            let w = one();
            let big = 0x8000_0000_0000_0000int;
            assert(big * w < pow2(64) * w) by (nonlinear_arith)
                requires
                    big < pow2(64),
                    w > 0,
            ;
            if self.magnitude() > LARGE {
                lemma_units_increase(LARGE as int, self.magnitude());
            }
        }
        let (q, _) = self.fixed_point();
        let n: u128 = (q + 0x0800_0000_0000_0000) / 0x1000_0000_0000_0000;
        proof {
            let c = cell();
            let u = units(self.magnitude());
            let w = one();
            let x = q as int;
            let g = 0x0800_0000_0000_0000int;
            let v = u + g * c;
            assert((x + g) * c == x * c + g * c && (x + g + 1) * c == (x + 1) * c + g * c)
                by (nonlinear_arith);
            lemma_cells(v, x + g);
            let big = 0x8000_0000_0000_0000int;
            assert(w == 0x1000_0000_0000_0000 * c);
            assert(x < big * 0x1000_0000_0000_0000) by (nonlinear_arith)
                requires
                    x * c <= u,
                    u < big * w,
                    w == 0x1000_0000_0000_0000 * c,
                    c > 0,
            ;
            assert(2 * u + w == 2 * v);
            vstd::arithmetic::div_mod::lemma_div_denominator(2 * v, 2, w);
            assert((2 * v) / 2 == v);
        }
        n as u64
    }
}

/// Whole numbers can be counted in cells.
proof fn lemma_cells(u: int, q: int)
    requires
        q >= 0,
        q * cell() <= u < (q + 1) * cell(),
    ensures
        u / one() == q / 0x1000_0000_0000_0000,
{
    lemma_large();
    lemma2_to64();
    lemma2_to64_rest();
    let c = cell();
    let w = one();
    let k = 0x1000_0000_0000_0000int;
    let n = q / k;
    let r = q % k;
    vstd::arithmetic::div_mod::lemma_fundamental_div_mod(q, k);
    assert(w == k * c);
    assert(u - n * w >= 0 && u - n * w < w) by (nonlinear_arith)
        requires
            q == k * n + r,
            0 <= r < k,
            q * c <= u < (q + 1) * c,
            w == k * c,
            c > 0,
    ;
    vstd::arithmetic::div_mod::lemma_fundamental_div_mod_converse(u, w, n, u - n * w);
}

// ---------------------------------------------------------------------------
// Decimal notation
// ---------------------------------------------------------------------------

/// The whole number nearest to `n / d`; what is halfway between two goes to the
/// even one.
pub open spec fn nearest(n: int, d: int) -> int {
    let q = n / d;
    let r = n % d;
    if 2 * r < d {
        q
    } else if 2 * r > d {
        q + 1
    } else if q % 2 == 0 {
        q
    } else {
        q + 1
    }
}

/// A power of ten.
pub open spec fn ten_to(places: nat) -> int
    decreases places,
{
    if places == 0 {
        1
    } else {
        10 * ten_to((places - 1) as nat)
    }
}

/// The lowest `places` decimal digits of a number.
pub open spec fn low_digits(n: int, places: nat) -> Seq<char>
    decreases places,
{
    if places == 0 {
        seq![]
    } else {
        low_digits(n / 10, (places - 1) as nat).push(digit_char(n % 10))
    }
}

/// A value in units, in decimal notation with the given number of places behind
/// the point.
pub open spec fn fixed(units: int, places: nat) -> Seq<char> {
    let t = nearest(units * ten_to(places), one());
    let whole = decimal((t / ten_to(places)) as nat);
    if places == 0 {
        whole
    } else {
        whole + "."@ + low_digits(t % ten_to(places), places)
    }
}

impl Real {
    /// The number in decimal notation with the given number of places behind
    /// the point.
    pub open spec fn text(self, places: nat) -> Seq<char> {
        if self.is_nan() {
            "NaN"@
        } else {
            let digits = if self.is_finite() {
                fixed(units(self.magnitude()), places)
            } else {
                "inf"@
            };
            if self.negative() {
                "-"@ + digits
            } else {
                digits
            }
        }
    }
}

/// A common factor does not matter.
proof fn lemma_nearest_scaled(n: int, d: int, c: int)
    requires
        n >= 0,
        d > 0,
        c > 0,
    ensures
        nearest(n * c, d * c) == nearest(n, d),
{
    let q = n / d;
    let r = n % d;
    vstd::arithmetic::div_mod::lemma_fundamental_div_mod(n, d);
    assert(n * c == q * (d * c) + r * c) by (nonlinear_arith)
        requires
            n == d * q + r,
    ;
    assert(0 <= r * c < d * c) by (nonlinear_arith)
        requires
            0 <= r < d,
            c > 0,
    ;
    vstd::arithmetic::div_mod::lemma_fundamental_div_mod_converse(n * c, d * c, q, r * c);
    assert((2 * r < d) == (2 * (r * c) < d * c)) by (nonlinear_arith)
        requires
            c > 0,
    ;
    assert((2 * r > d) == (2 * (r * c) > d * c)) by (nonlinear_arith)
        requires
            c > 0,
    ;
}

/// What is whole is not rounded.
proof fn lemma_nearest_whole(n: int, d: int)
    requires
        d > 0,
    ensures
        nearest(n * d, d) == n,
{
    vstd::arithmetic::div_mod::lemma_fundamental_div_mod_converse(n * d, d, n, 0);
}

/// Twice a decimal number, plus a carry: the notation from that of the number.
proof fn lemma_double_step(n: nat, carry: nat)
    requires
        carry <= 1,
        n >= 10,
    ensures
        ({
            let d = 2 * (n % 10) + carry;
            decimal(2 * n + carry) == decimal(2 * (n / 10) + d / 10).push(
                digit_char((d % 10) as int),
            )
        }),
{
    let d = 2 * (n % 10) + carry;
    let m = 2 * n + carry;
    assert(m / 10 == 2 * (n / 10) + d / 10);
    assert(m % 10 == d % 10);
}

/// Twice a number, plus a carry, in decimal notation, from the first `len`
/// digits of `d`, which are those of `n`.
fn doubled(d: &Vec<u8>, len: usize, carry: u8, Ghost(n): Ghost<nat>) -> (r: Vec<u8>)
    requires
        0 < len <= d@.len(),
        carry <= 1,
        forall|i: int| 0 <= i < len ==> #[trigger] d@[i] < 10,
        digits_of(d@.take(len as int)) == decimal(n),
    ensures
        digits_of(r@) == decimal((2 * n + carry) as nat),
        forall|i: int| 0 <= i < r@.len() ==> #[trigger] r@[i] < 10,
    decreases len,
{
    let ghost s = d@.take(len as int);
    let last: u8 = d[len - 1];
    let twice: u8 = 2 * last + carry;
    proof {
        lemma_decimal_digits(n);
        assert(digits_of(s).last() == digit_char(last as int));
        lemma_digit_char(last as int, (n % 10) as int);
        assert(last == n % 10);
    }
    if len == 1 {
        assert(n < 10) by {
            lemma_decimal_len(n);
            assert(digits_of(s).len() == 1);
        }
        let mut out: Vec<u8> = Vec::new();
        if twice < 10 {
            out.push(twice);
            assert(digits_of(out@) == seq![digit_char(twice as int)]);
        } else {
            out.push(1);
            out.push(twice - 10);
            assert(digits_of(out@) == seq![digit_char(1), digit_char(twice - 10)]);
            assert(decimal(1) == seq![digit_char(1)]);
            assert(decimal(twice as nat) == decimal(1).push(digit_char(twice - 10)));
        }
        out
    } else {
        proof {
            lemma_decimal_len(n);
            assert(n >= 10) by {
                assert(digits_of(s).len() == len);
            }
            assert(d@.take(len - 1) == s.drop_last());
            assert(digits_of(s.drop_last()) == digits_of(s).drop_last());
            assert(decimal(n).drop_last() == decimal(n / 10));
            lemma_double_step(n, carry as nat);
        }
        let mut out = doubled(d, len - 1, twice / 10, Ghost(n / 10));
        let ghost before = out@;
        out.push(twice % 10);
        assert(digits_of(out@) == digits_of(before).push(digit_char((twice % 10) as int)));
        out
    }
}

/// The characters for digits.
spec fn digits_of(d: Seq<u8>) -> Seq<char> {
    d.map_values(|x: u8| digit_char(x as int))
}

proof fn lemma_digit_char(a: int, b: int)
    requires
        0 <= a < 10,
        0 <= b < 10,
        digit_char(a) == digit_char(b),
    ensures
        a == b,
{
}

proof fn lemma_decimal_digits(n: nat)
    ensures
        decimal(n).len() > 0,
        decimal(n).last() == digit_char((n % 10) as int),
{
}

proof fn lemma_decimal_len(n: nat)
    ensures
        n < 10 <==> decimal(n).len() == 1,
{
    if n >= 10 {
        lemma_decimal_digits(n / 10);
    }
}

/// The decimal digits of a number.
fn digits_of_number(n: u64) -> (r: Vec<u8>)
    ensures
        digits_of(r@) == decimal(n as nat),
        forall|i: int| 0 <= i < r@.len() ==> #[trigger] r@[i] < 10,
    decreases n,
{
    if n < 10 {
        let mut out: Vec<u8> = Vec::new();
        out.push(n as u8);
        assert(digits_of(out@) == seq![digit_char(n as int)]);
        out
    } else {
        let mut out = digits_of_number(n / 10);
        let ghost before = out@;
        out.push((n % 10) as u8);
        assert(digits_of(out@) == digits_of(before).push(digit_char((n % 10) as int)));
        out
    }
}

/// `m` times a power of two in decimal notation.
fn decimal_shifted(m: u64, k: u32) -> (r: Vec<char>)
    ensures
        r@ == decimal((m * pow2(k as nat)) as nat),
{
    let mut d = digits_of_number(m);
    let mut i: u32 = 0;
    let ghost mut n: nat = m as nat;
    proof {
        lemma2_to64();
        let p = pow2(0) as int;
        assert(m * p == m) by (nonlinear_arith)
            requires
                p == 1,
        ;
    }
    while i < k
        invariant
            0 <= i <= k,
            n == m * pow2(i as nat),
            digits_of(d@) == decimal(n),
            forall|j: int| 0 <= j < d@.len() ==> #[trigger] d@[j] < 10,
        decreases k - i,
    {
        proof {
            lemma_decimal_digits(n);
            assert(d@.take(d@.len() as int) == d@);
            assert(digits_of(d@).len() == d@.len());
        }
        d = doubled(&d, d.len(), 0, Ghost(n));
        proof {
            lemma_pow2_unfold((i + 1) as nat);
            let p = pow2(i as nat) as int;
            assert(m * (2 * p) == 2 * (m * p)) by (nonlinear_arith);
            n = 2 * n;
        }
        i += 1;
    }
    let mut out: Vec<char> = Vec::new();
    let len: usize = d.len();
    let mut j: usize = 0;
    while j < len
        invariant
            0 <= j <= len,
            len == d@.len(),
            out@ == digits_of(d@).take(j as int),
            forall|x: int| 0 <= x < d@.len() ==> #[trigger] d@[x] < 10,
        decreases len - j,
    {
        out.push(digit(d[j]));
        assert(digits_of(d@).take(j + 1) == digits_of(d@).take(j as int).push(
            digit_char(d@[j as int] as int),
        ));
        j += 1;
    }
    assert(digits_of(d@).take(len as int) == digits_of(d@));
    out
}

/// The whole number nearest to `n / 2^j`.
fn nearest_shifted(n: u64, j: u32) -> (r: u64)
    requires
        n < 0x1000_0000_0000_0000,
    ensures
        r == nearest(n as int, pow2(j as nat) as int),
        r <= n,
{
    proof {
        lemma2_to64();
        lemma2_to64_rest();
        lemma_pow2_pos(j as nat);
    }
    if j >= 62 {
        proof {
            if j > 62 {
                lemma_pow2_strictly_increases(62, j as nat);
            }
            let d = pow2(j as nat) as int;
            vstd::arithmetic::div_mod::lemma_fundamental_div_mod_converse(
                n as int,
                d,
                0,
                n as int,
            );
        }
        return 0;
    }
    let mut d: u64 = 1;
    let mut i: u32 = 0;
    while i < j
        invariant
            0 <= i <= j < 62,
            d == pow2(i as nat),
            d <= 0x2000_0000_0000_0000,
        decreases j - i,
    {
        proof {
            lemma_pow2_unfold((i + 1) as nat);
            lemma2_to64_rest();
            if i + 1 < 61 {
                lemma_pow2_strictly_increases((i + 1) as nat, 61);
            }
        }
        d = d * 2;
        i += 1;
    }
    let q: u64 = n / d;
    let r: u64 = n % d;
    proof {
        vstd::arithmetic::div_mod::lemma_fundamental_div_mod(n as int, d as int);
        let (a, b, x) = (n as int, d as int, q as int);
        assert(x <= b * x) by (nonlinear_arith)
            requires
                b >= 1,
                x >= 0,
        ;
    }
    if 2 * r < d {
        q
    } else if 2 * r > d {
        q + 1
    } else if q % 2 == 0 {
        q
    } else {
        q + 1
    }
}

/// A significand with a scale, in decimal notation with at most two places
/// behind the point.
fn fixed_of(m: u64, s: u32, places: u32) -> (r: Vec<char>)
    requires
        m <= 2 * HIDDEN_BIT,
        places <= 2,
    ensures
        r@ == fixed(m * pow2(s as nat), places as nat),
{
    let ten: u64 = if places == 0 {
        1
    } else if places == 1 {
        10
    } else {
        100
    };
    let ghost w = one();
    let ghost u = m * pow2(s as nat);
    let ghost t = nearest(u * ten, w);
    proof {
        reveal_with_fuel(ten_to, 3);
        lemma_pow2_pos(1074);
        lemma_pow2_pos(s as nat);
        assert(ten == ten_to(places as nat));
    }
    let mut out: Vec<char>;
    let low: u64;
    if s >= 1074 {
        let k: u32 = s - 1074;
        out = decimal_shifted(m, k);
        low = 0;
        proof {
            lemma_pow2_adds(k as nat, 1074);
            let a = pow2(k as nat) as int;
            let n = m as int;
            let f = ten as int;
            assert((n * (a * w)) * f == (n * a * f) * w) by (nonlinear_arith);
            lemma_nearest_whole(n * a * f, w);
            assert(t == (n * a) * f);
            vstd::arithmetic::div_mod::lemma_fundamental_div_mod_converse(t, f, n * a, 0);
            assert(out@ == decimal((t / f) as nat));
        }
    } else {
        let j: u32 = 1074 - s;
        let n: u64 = m * ten;
        let x: u64 = nearest_shifted(n, j);
        proof {
            lemma_pow2_adds(j as nat, s as nat);
            lemma_pow2_pos(j as nat);
            let a = pow2(s as nat) as int;
            let f = ten as int;
            let z = m as int;
            assert((z * a) * f == (z * f) * a) by (nonlinear_arith);
            lemma_nearest_scaled(n as int, pow2(j as nat) as int, a);
            assert(x == t);
        }
        out = decimal_of(x / ten);
        low = x % ten;
    }
    if places > 0 {
        append_str(&mut out, ".");
        if places == 2 {
            out.push(digit((low / 10 % 10) as u8));
        }
        out.push(digit((low % 10) as u8));
        proof {
            reveal_with_fuel(low_digits, 3);
            assert(low == t % (ten as int));
            let whole = decimal((t / (ten as int)) as nat);
            assert(out@ == whole + "."@ + low_digits(low as int, places as nat));
        }
    }
    out
}

impl Real {
    /// The number in decimal notation with at most two places behind the point.
    pub fn to_text(self, places: u32) -> (r: Vec<char>)
        requires
            places <= 2,
        ensures
            r@ == self.text(places as nat),
    {
        let mut out: Vec<char> = Vec::new();
        if self.nan() {
            append_str(&mut out, "NaN");
            assert(out@ == "NaN"@);
            return out;
        }
        if self.has_sign() {
            append_str(&mut out, "-");
        }
        let ghost before = out@;
        if self.magnitude_of() == INFINITE {
            append_str(&mut out, "inf");
            assert(out@ == before + "inf"@);
        } else {
            let (m, s) = self.parts();
            let digits = fixed_of(m, s, places);
            append(&mut out, digits.as_slice());
        }
        assert(Seq::<char>::empty() + out@ == out@);
        out
    }
}

// ---------------------------------------------------------------------------
// Thousandths
// ---------------------------------------------------------------------------

/// By how many bits the significand is shifted when it is divided by 1000, so
/// that the quotient has 53 bits.
pub open spec fn quotient_shift(significand: int) -> nat {
    if significand * 1024 < 1000 * (2 * HIDDEN_BIT) {
        10
    } else {
        9
    }
}

impl Real {
    /// A thousandth of a number, in units, as it is computed: rounded to the
    /// nearest number of the format, which has a significand of 53 bits.
    pub open spec fn thousandth(self) -> int {
        let m = significand(self.magnitude());
        let s = scale(self.magnitude());
        let shift = quotient_shift(m);
        nearest(m * pow2(shift), 1000) * pow2((s - shift) as nat)
    }

    /// A thousandth of a number of at least 1000 in decimal notation with one
    /// place behind the point. An infinity stays what it is, as does what is no
    /// number.
    pub open spec fn thousandth_text(self) -> Seq<char> {
        if self.is_finite() {
            fixed(self.thousandth(), 1)
        } else {
            self.text(1)
        }
    }

    /// A thousandth of a number of at least 1000 in decimal notation with one
    /// place behind the point.
    pub fn to_thousandth_text(self) -> (r: Vec<char>)
        requires
            !self.below(1000),
        ensures
            r@ == self.thousandth_text(),
    {
        if self.magnitude_of() >= INFINITE {
            return self.to_text(1);
        }
        let (m, s) = self.parts();
        proof {
            lemma_thousand();
            lemma_significand(self.magnitude());
            lemma_pow2_pos(1074);
            let w = one();
            assert(1000 * w > 0) by (nonlinear_arith)
                requires
                    w > 0,
            ;
            assert(!self.negative());
            let k = 0x408f_4000_0000_0000int;
            if self.magnitude() < k {
                lemma_units_increase(self.magnitude(), k);
            }
            assert(self.magnitude() >= k);
            vstd::arithmetic::div_mod::lemma_div_is_ordered(
                k,
                self.magnitude(),
                HIDDEN_BIT as int,
            );
            assert(s >= 1031);
            lemma2_to64();
        }
        let shift: u32 = if (m as u128) * 1024 < 1000 * (2 * HIDDEN_BIT as u128) {
            10
        } else {
            9
        };
        let n: u64 = if shift == 10 {
            m * 1024
        } else {
            m * 512
        };
        let q: u64 = n / 1000;
        let r: u64 = n % 1000;
        let x: u64 = if 2 * r < 1000 {
            q
        } else if 2 * r > 1000 {
            q + 1
        } else if q % 2 == 0 {
            q
        } else {
            q + 1
        };
        assert(x == nearest(m * pow2(shift as nat), 1000));
        fixed_of(x, s - shift, 1)
    }
}

/// 1000 has its place in the format.
pub proof fn lemma_thousand()
    ensures
        units(0x408f_4000_0000_0000) == 1000 * one(),
{
    lemma2_to64_rest();
    let m = 0x408f_4000_0000_0000int;
    assert(significand(m) == 1000 * pow2(43));
    assert(scale(m) == 1031);
    lemma_whole(m, 1000, 43);
}

// ---------------------------------------------------------------------------
// Laws
// ---------------------------------------------------------------------------

/// A quotient that is rounded is at most half of one off, and even where it is just as much.
pub proof fn law_rounding_is_near(n: int, d: int)
    requires
        d > 0,
    ensures
        -d <= 2 * (nearest(n, d) * d - n) <= d,
        2 * (nearest(n, d) * d - n) == d || 2 * (nearest(n, d) * d - n) == -d ==> nearest(n, d) % 2
            == 0,
{
    vstd::arithmetic::div_mod::lemma_fundamental_div_mod(n, d);
    vstd::arithmetic::div_mod::lemma_mod_bound(n, d);
    let q = n / d;
    assert(q * d == d * q) by (nonlinear_arith);
    assert((q + 1) * d == d * q + d) by (nonlinear_arith);
}

proof fn lemma_ten_to(places: nat)
    ensures
        ten_to(places) > 0,
    decreases places,
{
    if places > 0 {
        lemma_ten_to((places - 1) as nat);
    }
}

proof fn lemma_low_digits(a: int, t: int, w: Seq<char>, places: nat)
    requires
        t >= 0,
        a >= 0,
        digits_value(w, 10) == Some(a),
    ensures
        low_digits(t, places).len() == places,
        all_digits(low_digits(t, places)),
        t < ten_to(places) ==> digits_value(w + low_digits(t, places), 10) == Some(
            a * ten_to(places) + t,
        ),
    decreases places,
{
    let l = low_digits(t, places);
    if places == 0 {
        assert(w + l == w);
    } else {
        let p = (places - 1) as nat;
        let h = low_digits(t / 10, p);
        lemma_low_digits(a, t / 10, w, p);
        lemma_ten_to(p);
        assert forall|i: int| 0 <= i < l.len() implies '0' <= #[trigger] l[i] <= '9' by {
            if i < h.len() {
                assert(l[i] == h[i]);
            }
        }
        if t < ten_to(places) {
            assert(t / 10 < ten_to(p));
            let all = w + l;
            assert(all.drop_last() == w + h);
            assert(all.last() == digit_char(t % 10));
            assert(digit_value(all.last(), 10) == Some(t % 10));
            assert((a * ten_to(p) + t / 10) * 10 + t % 10 == a * (10 * ten_to(p)) + t)
                by (nonlinear_arith);
        }
    }
}

/// Whether two runs of digits, in front of and behind the point, are at most half of the last
/// place off a number of units.
pub open spec fn are_near(whole: Seq<char>, rest: Seq<char>, units: int) -> bool {
    match digits_value(whole + rest, 10) {
        Some(t) => all_digits(whole) && all_digits(rest) && -one() <= 2 * (t * one() - units
            * ten_to(rest.len())) <= one(),
        None => false,
    }
}

/// A number in decimal notation has as many places behind the point as asked for, and its
/// digits are at most half of the last place off what it is.
pub proof fn law_decimals_are_near(units: int, places: nat)
    requires
        units >= 0,
        places > 0,
    ensures
        exists|whole: Seq<char>, rest: Seq<char>|
            fixed(units, places) == whole + "."@ + rest && rest.len() == places
                && #[trigger] are_near(whole, rest, units),
{
    lemma_pow2_pos(1074);
    lemma_ten_to(places);
    let p = ten_to(places);
    let n = units * p;
    let t = nearest(n, one());
    law_rounding_is_near(n, one());
    assert(n >= 0) by (nonlinear_arith)
        requires
            units >= 0,
            p > 0,
            n == units * p,
    ;
    assert(t >= 0) by {
        vstd::arithmetic::div_mod::lemma_div_pos_is_pos(n, one());
    }
    vstd::arithmetic::div_mod::lemma_div_pos_is_pos(t, p);
    vstd::arithmetic::div_mod::lemma_mod_bound(t, p);
    vstd::arithmetic::div_mod::lemma_fundamental_div_mod(t, p);
    let w = decimal((t / p) as nat);
    let l = low_digits(t % p, places);
    law_numbers_are_read_back((t / p) as nat, t / p, (t / p) as nat);
    law_minus_signs_are_written(t / p);
    assert(decimal_int(t / p) == w);
    lemma_low_digits(t / p, t % p, w, places);
    assert((t / p) * p + t % p == t) by (nonlinear_arith)
        requires
            t == p * (t / p) + t % p,
    ;
    assert(fixed(units, places) == w + "."@ + l);
    assert(digits_value(w + l, 10) == Some(t));
    assert(are_near(w, l, units));
}

/// A number without places behind the point is the nearest whole number.
pub proof fn law_whole_numbers_are_near(units: int)
    requires
        units >= 0,
    ensures
        exists|t: nat| fixed(units, 0) == #[trigger] decimal(t) && -one() <= 2 * (t * one() - units)
            <= one(),
{
    lemma_pow2_pos(1074);
    law_rounding_is_near(units, one());
    let t = nearest(units * ten_to(0), one());
    assert(units * ten_to(0) == units);
    assert(t >= 0) by {
        vstd::arithmetic::div_mod::lemma_div_pos_is_pos(units, one());
    }
    assert(t / ten_to(0) == t);
    assert(fixed(units, 0) == decimal(t as nat));
}

/// A negative number is written with a minus sign in front of what its amount is written as,
/// and what is no number says so.
pub proof fn law_signs_are_written(x: Real, y: Real, places: nat)
    requires
        !x.negative(),
        y.negative(),
        x.magnitude() == y.magnitude(),
        !x.is_nan(),
    ensures
        y.text(places) == "-"@ + x.text(places),
        x.is_finite() ==> x.text(places) == fixed(x.value(), places),
{
}

/// A number is cut off to the whole number in it; less than nothing and what is no number are
/// cut off to nothing, and what is too large to the largest number there is.
pub proof fn law_fractions_are_cut_off(x: Real, n: int)
    requires
        n >= 0,
        n * one() <= x.value() < (n + 1) * one(),
        !x.negative(),
        !x.is_nan(),
    ensures
        x.truncated() == if n <= 0xffff_ffff {
            n
        } else {
            0xffff_ffff
        },
{
    lemma_pow2_pos(1074);
    let v = x.value();
    assert((n + 1) * one() == n * one() + one()) by (nonlinear_arith);
    assert(n * one() == one() * n) by (nonlinear_arith);
    vstd::arithmetic::div_mod::lemma_fundamental_div_mod_converse(v, one(), n, v - n * one());
}

/// Numbers that are no numbers, or less than nothing, count as nothing.
pub proof fn law_nothing_is_cut_off_to_nothing(x: Real)
    requires
        x.negative() || x.is_nan(),
    ensures
        x.truncated() == 0,
{
}

} // verus!
