//! Double-precision numbers, held as their IEEE 754 bit pattern.
//!
//! The library compares such numbers and converts them from and to integers.
//! Reading one from text and writing one as text is left to the functions
//! that callers hand in.

use vstd::arithmetic::power2::{
    lemma2_to64, lemma2_to64_rest, lemma_pow2_adds, lemma_pow2_pos, lemma_pow2_strictly_increases,
    lemma_pow2_unfold, pow2,
};
use vstd::prelude::*;

verus! {

/// The weight of the sign bit.
pub const SIGN: u64 = 0x8000_0000_0000_0000;

/// The weight of the lowest exponent bit; the fraction lies below it.
pub const FRACTION: u64 = 0x10_0000_0000_0000;

/// A double-precision number in the IEEE 754 binary64 format.
#[derive(Debug, Clone, Copy)]
pub struct Binary64 {
    /// The sign bit, the eleven exponent bits and the 52 fraction bits.
    pub bits: u64,
}

impl Binary64 {
    /// Whether the sign bit is set.
    pub open spec fn negative(self) -> bool {
        self.bits >= SIGN
    }

    /// The biased exponent.
    pub open spec fn exponent(self) -> int {
        (self.bits as int / FRACTION as int) % 2048
    }

    /// The fraction bits.
    pub open spec fn fraction(self) -> int {
        self.bits as int % FRACTION as int
    }

    /// Not a number.
    pub open spec fn is_nan(self) -> bool {
        self.exponent() == 2047 && self.fraction() != 0
    }

    /// One of the two infinities.
    pub open spec fn is_infinite(self) -> bool {
        self.exponent() == 2047 && self.fraction() == 0
    }

    /// One of the two zeros.
    pub open spec fn is_zero(self) -> bool {
        self.exponent() == 0 && self.fraction() == 0
    }

    /// The integer significand of a finite number: the fraction, with the
    /// leading one that normal numbers do not store.
    pub open spec fn significand(self) -> int {
        if self.exponent() == 0 {
            self.fraction()
        } else {
            FRACTION + self.fraction()
        }
    }

    /// The power of two by which a finite number scales its significand.
    pub open spec fn scale(self) -> int {
        (if self.exponent() == 0 { 1 } else { self.exponent() }) - 1075
    }

    /// The absolute value of a finite number, with what stands behind the
    /// binary point cut off.
    pub open spec fn whole_magnitude(self) -> int {
        if self.scale() >= 0 {
            self.significand() * pow2(self.scale() as nat) as int
        } else {
            self.significand() / (pow2((-self.scale()) as nat) as int)
        }
    }

    /// The number rounded towards zero and brought into the range of `i64`.
    /// What is not a number counts as zero.
    pub open spec fn to_i64_spec(self) -> i64 {
        if self.is_nan() {
            0
        } else if self.is_infinite() {
            if self.negative() { i64::MIN } else { i64::MAX }
        } else {
            clamp_i64(if self.negative() { -self.whole_magnitude() } else { self.whole_magnitude() })
        }
    }

    /// IEEE 754 equality: the zeros are equal, and what is not a number
    /// equals nothing.
    pub open spec fn same_number(self, other: Binary64) -> bool {
        !self.is_nan() && !other.is_nan() && (self.bits == other.bits || (self.is_zero()
            && other.is_zero()))
    }
}

/// The integer of the range of `i64` that is nearest to `n`.
pub open spec fn clamp_i64(n: int) -> i64 {
    if n < i64::MIN {
        i64::MIN
    } else if n > i64::MAX {
        i64::MAX
    } else {
        n as i64
    }
}

/// The place of the highest bit of `a`.
pub open spec fn top_bit(a: nat) -> nat
    decreases a,
{
    if a < 2 {
        0
    } else {
        1 + top_bit(a / 2)
    }
}

/// `a / d` rounded to the nearest integer, and to the even one of two that
/// are equally near.
pub open spec fn round_half_even(a: int, d: int) -> int {
    let q = a / d;
    let r = a % d;
    if 2 * r > d || (2 * r == d && q % 2 == 1) {
        q + 1
    } else {
        q
    }
}

/// The significand of 53 bits that is nearest to `a`, scaled so that its
/// highest bit stands at place 52.  It is one bit longer where rounding
/// carries.
pub open spec fn nearest_significand(a: nat) -> int {
    let k = top_bit(a);
    if k <= 52 {
        (a * pow2((52 - k) as nat)) as int
    } else {
        round_half_even(a as int, pow2((k - 52) as nat) as int)
    }
}

/// The bit pattern of the double-precision number that is nearest to `n`,
/// with ties to even.  A significand that carried steps the exponent up by
/// itself.
pub open spec fn nearest_bits(n: int) -> int {
    let a = (if n < 0 { -n } else { n }) as nat;
    if n == 0 {
        0
    } else {
        (if n < 0 { SIGN as int } else { 0 }) + (top_bit(a) + 1022) * FRACTION
            + nearest_significand(a)
    }
}

proof fn lemma_top_bit(a: nat)
    requires
        a > 0,
    ensures
        pow2(top_bit(a)) <= a < pow2(top_bit(a) + 1),
    decreases a,
{
    lemma_pow2_unfold(top_bit(a) + 1);
    if a < 2 {
        lemma2_to64();
    } else {
        lemma_top_bit(a / 2);
        lemma_pow2_unfold(top_bit(a));
    }
}

impl PartialEq for Binary64 {
    fn eq(&self, other: &Self) -> (r: bool) {
        let (_, e1, f1) = self.fields();
        let (_, e2, f2) = other.fields();
        let nan1: bool = e1 == 2047 && f1 != 0;
        let nan2: bool = e2 == 2047 && f2 != 0;
        !nan1 && !nan2 && (self.bits == other.bits || (e1 == 0 && f1 == 0 && e2 == 0 && f2 == 0))
    }
}

impl vstd::std_specs::cmp::PartialEqSpecImpl for Binary64 {
    open spec fn obeys_eq_spec() -> bool {
        true
    }

    open spec fn eq_spec(&self, other: &Self) -> bool {
        self.same_number(*other)
    }
}

impl Binary64 {
    /// Take the bit pattern apart: sign, biased exponent and fraction.
    fn fields(&self) -> (r: (bool, u64, u64))
        ensures
            r.0 == self.negative(),
            r.1 == self.exponent(),
            r.2 == self.fraction(),
    {
        (self.bits >= SIGN, (self.bits / FRACTION) % 2048, self.bits % FRACTION)
    }

    /// Convert to an integer, as a cast does: round towards zero, stop at
    /// the bounds of `i64`, and take what is not a number as zero.
    pub fn to_i64(&self) -> (r: i64)
        ensures
            r == self.to_i64_spec(),
    {
        let (negative, e, f) = self.fields();
        if e == 2047 {
            if f != 0 {
                return 0;
            }
            return if negative { i64::MIN } else { i64::MAX };
        }
        if e < 1023 {
            proof {
                lemma_small_magnitude(*self);
            }
            return 0;
        }
        if e >= 1087 {
            proof {
                lemma_large_magnitude(*self);
            }
            return if negative { i64::MIN } else { i64::MAX };
        }
        let m: u64 = FRACTION + f;
        proof {
            lemma2_to64();
            let s = (e - 1075) as nat;
            if e >= 1075 {
                if s < 11 {
                    lemma_pow2_strictly_increases(s, 11);
                }
                assert(m * pow2(s) <= 2 * FRACTION * 2048 - 1) by (nonlinear_arith)
                    requires
                        m <= 2 * FRACTION - 1,
                        0 <= pow2(s) <= 2048,
                ;
            }
        }
        let magnitude: u64 = if e >= 1075 { shifted_left(m, e - 1075) } else {
            shifted_right(m, 1075 - e)
        };
        if negative {
            if magnitude >= SIGN {
                i64::MIN
            } else {
                -(magnitude as i64)
            }
        } else if magnitude >= SIGN {
            i64::MAX
        } else {
            magnitude as i64
        }
    }

    /// The number nearest to `n`, as a cast gives it: ties go to the even
    /// significand.
    pub fn from_i64(n: i64) -> (r: Binary64)
        ensures
            r.bits == nearest_bits(n as int),
    {
        if n == 0 {
            return Binary64 { bits: 0 };
        }
        let a: u64 = if n >= 0 {
            n as u64
        } else {
            // The least integer has no counterpart in `i64`.
            (-(n + 1)) as u64 + 1
        };
        let k: u64 = place_of_top_bit(a);
        proof {
            lemma_top_bit(a as nat);
            lemma2_to64();
            lemma2_to64_rest();
        }
        let m: u64 = if k <= 52 {
            proof {
                lemma_scaled_up(a as nat, k as nat);
            }
            shifted_left(a, 52 - k)
        } else {
            let d: u64 = shifted_left_one(k - 52);
            let q: u64 = a / d;
            let r: u64 = a % d;
            proof {
                lemma_scaled_down(a as nat, k as nat);
            }
            if r > d - r || (r == d - r && q % 2 == 1) {
                q + 1
            } else {
                q
            }
        };
        let unsigned: u64 = (k + 1022) * FRACTION + m;
        if n < 0 {
            Binary64 { bits: SIGN + unsigned }
        } else {
            Binary64 { bits: unsigned }
        }
    }
}

/// Below one nothing stands before the binary point.
proof fn lemma_small_magnitude(x: Binary64)
    requires
        x.exponent() < 1023,
    ensures
        x.whole_magnitude() == 0,
{
    lemma2_to64_rest();
    let s = (-x.scale()) as nat;
    if s > 53 {
        lemma_pow2_strictly_increases(53, s);
    }
    vstd::arithmetic::div_mod::lemma_basic_div(x.significand(), pow2(s) as int);
}

/// From the 64th power of two on a number lies beyond the bounds.
proof fn lemma_large_magnitude(x: Binary64)
    requires
        1087 <= x.exponent(),
    ensures
        x.whole_magnitude() > i64::MAX + 1,
{
    lemma2_to64();
    lemma2_to64_rest();
    let s = x.scale() as nat;
    if s > 12 {
        lemma_pow2_strictly_increases(12, s);
    }
    let m = x.significand();
    let p = pow2(s) as int;
    assert(m * p >= FRACTION * 4096) by (nonlinear_arith)
        requires
            m >= FRACTION,
            p >= 4096,
    ;
}

/// A number of at most 53 bits, shifted up to them.
proof fn lemma_scaled_up(a: nat, k: nat)
    requires
        k <= 52,
        pow2(k) <= a < pow2(k + 1),
    ensures
        FRACTION <= a * pow2((52 - k) as nat) < 2 * FRACTION,
{
    lemma2_to64_rest();
    let p = pow2((52 - k) as nat);
    lemma_pow2_adds(k, (52 - k) as nat);
    lemma_pow2_adds(k + 1, (52 - k) as nat);
    lemma_pow2_pos((52 - k) as nat);
    assert(pow2(k) * p <= a * p < pow2(k + 1) * p) by (nonlinear_arith)
        requires
            pow2(k) <= a < pow2(k + 1),
            p > 0,
    ;
}

/// A number of more than 53 bits, divided down to them.
proof fn lemma_scaled_down(a: nat, k: nat)
    requires
        52 < k,
        pow2(k) <= a < pow2(k + 1),
    ensures
        0 < pow2((k - 52) as nat),
        FRACTION <= a / pow2((k - 52) as nat) < 2 * FRACTION,
{
    lemma2_to64_rest();
    let d = pow2((k - 52) as nat);
    lemma_pow2_pos((k - 52) as nat);
    lemma_pow2_adds(52, (k - 52) as nat);
    lemma_pow2_adds(53, (k - 52) as nat);
    let q = a / d;
    vstd::arithmetic::div_mod::lemma_fundamental_div_mod(a as int, d as int);
    assert(FRACTION <= q < 2 * FRACTION) by (nonlinear_arith)
        requires
            a == d * q + a % d,
            0 <= a % d < d,
            FRACTION * d <= a < 2 * FRACTION * d,
    ;
}

/// Shift `m` up by `n` places.
fn shifted_left(m: u64, n: u64) -> (r: u64)
    requires
        n < 64,
        m * pow2(n as nat) <= u64::MAX,
    ensures
        r == m * pow2(n as nat),
{
    proof {
        vstd::bits::lemma_u64_shl_is_mul(m, n);
    }
    m << n
}

/// The `n`th power of two.
fn shifted_left_one(n: u64) -> (r: u64)
    requires
        n < 64,
    ensures
        r == pow2(n as nat),
{
    proof {
        vstd::bits::lemma_u64_pow2_no_overflow(n as nat);
    }
    shifted_left(1, n)
}

/// Shift `m` down by `n` places.
fn shifted_right(m: u64, n: u64) -> (r: u64)
    requires
        n < 64,
    ensures
        r as int == m as int / pow2(n as nat) as int,
{
    proof {
        vstd::bits::lemma_u64_shr_is_div(m, n);
    }
    m >> n
}

/// The place of the highest bit of `a`.
fn place_of_top_bit(a: u64) -> (r: u64)
    requires
        a > 0,
    ensures
        r == top_bit(a as nat),
        r < 64,
{
    let mut k: u64 = 0;
    let mut rest: u64 = a;
    proof {
        lemma_top_bit(a as nat);
        lemma2_to64_rest();
        if top_bit(a as nat) > 64 {
            lemma_pow2_strictly_increases(64, top_bit(a as nat));
        }
    }
    while rest >= 2
        invariant
            rest >= 1,
            k + top_bit(rest as nat) == top_bit(a as nat),
            k + top_bit(rest as nat) < 64,
        decreases rest,
    {
        k = k + 1;
        rest = rest / 2;
    }
    k
}

/// Integers of at most 53 bits are held exactly: converted there and back,
/// each is what it was.
pub proof fn law_integers_convert_back(n: i64, x: Binary64)
    requires
        -2 * FRACTION <= n <= 2 * FRACTION,
        x.bits == nearest_bits(n as int),
    ensures
        x.to_i64_spec() == n,
{
    if n == 0 {
        lemma_small_magnitude(x);
    } else {
        let a = (if n < 0 { -n } else { n as int }) as nat;
        let k = top_bit(a);
        lemma_top_bit(a);
        lemma2_to64();
        lemma2_to64_rest();
        if k > 53 {
            lemma_pow2_strictly_increases(53, k);
        }
        if k == 53 {
            assert(nearest_significand(a) == FRACTION);
        } else {
            lemma_scaled_up(a, k);
        }
        let m = nearest_significand(a);
        assert(x.exponent() == k + 1023 && x.fraction() == m - FRACTION);
        assert(x.significand() == m);
        assert(x.scale() == k - 52);
        if k < 52 {
            let p = pow2((52 - k) as nat) as int;
            lemma_pow2_pos((52 - k) as nat);
            vstd::arithmetic::div_mod::lemma_div_multiples_vanish(a as int, p);
            assert(m == p * a) by (nonlinear_arith)
                requires
                    m == a * p,
            ;
            assert(x.whole_magnitude() == m / p);
        } else if k == 52 {
            let p = pow2(0);
            assert(m == a * p);
            assert(a * p == a) by (nonlinear_arith)
                requires
                    p == 1,
            ;
            assert(x.whole_magnitude() == m * 1);
        } else {
            assert(pow2(1) == 2);
            assert(x.whole_magnitude() == m * 2);
        }
        assert(x.whole_magnitude() == a);
    }
}

/// A quotient that is rounded to the nearest integer is off by at most one
/// half, and by one half only where it is even.
proof fn lemma_round_half_even(a: int, d: int)
    requires
        a >= 0,
        d > 0,
    ensures
        -d <= 2 * (round_half_even(a, d) * d - a) <= d,
        2 * (round_half_even(a, d) * d - a) == d || 2 * (round_half_even(a, d) * d - a) == -d
            ==> round_half_even(a, d) % 2 == 0,
        round_half_even(a, d) == a / d || round_half_even(a, d) == a / d + 1,
{
    let q = a / d;
    vstd::arithmetic::div_mod::lemma_fundamental_div_mod(a, d);
    assert((q + 1) * d == q * d + d) by (nonlinear_arith);
    assert(d * q == q * d) by (nonlinear_arith);
}

/// The double-precision number that an integer becomes is the nearest one.
/// Up to 53 bits it is the integer itself; beyond, it is off by at most half
/// of the weight of its last bit, and by exactly that only where its last bit
/// is clear.
pub proof fn law_integers_become_the_nearest_number(n: i64)
    ensures
        n == 0 ==> nearest_bits(n as int) == 0,
        n != 0 ==> {
            let b = nearest_bits(n as int);
            let a = if n < 0 { -n } else { n as int };
            let e = (b / 0x10_0000_0000_0000) % 2048;
            let m = 0x10_0000_0000_0000 + b % 0x10_0000_0000_0000;
            &&& 0 <= b <= u64::MAX
            &&& b >= 0x8000_0000_0000_0000 <==> n < 0
            &&& 1023 <= e <= 1087
            &&& e <= 1075 ==> m == a * pow2((1075 - e) as nat)
            &&& e > 1075 ==> {
                let d = pow2((e - 1075) as nat) as int;
                &&& -d <= 2 * (m * d - a) <= d
                &&& 2 * (m * d - a) == d || 2 * (m * d - a) == -d ==> m % 2 == 0
            }
        },
{
    if n != 0 {
        let a = (if n < 0 { -n } else { n as int }) as nat;
        let k = top_bit(a);
        let s = nearest_significand(a);
        lemma_top_bit(a);
        lemma2_to64();
        lemma2_to64_rest();
        if k > 63 {
            lemma_pow2_strictly_increases(63, k);
        }
        let b = nearest_bits(n as int);
        if k <= 52 {
            lemma_scaled_up(a, k);
            assert(FRACTION <= s < 2 * FRACTION);
            let e = (b / 0x10_0000_0000_0000) % 2048;
            assert(e == k + 1023);
            if k == 52 {
                assert(pow2(0) == 1);
            }
        } else {
            let d = pow2((k - 52) as nat) as int;
            lemma_scaled_down(a, k);
            lemma_round_half_even(a as int, d);
            assert(FRACTION <= s <= 2 * FRACTION);
            let e = (b / 0x10_0000_0000_0000) % 2048;
            let m = 0x10_0000_0000_0000 + b % 0x10_0000_0000_0000;
            if s < 2 * FRACTION {
                assert(e == k + 1023);
                assert(m == s);
            } else {
                assert(e == k + 1024);
                assert(m == FRACTION);
                let d2 = pow2((k - 51) as nat) as int;
                lemma_pow2_unfold((k - 51) as nat);
                assert(d2 == 2 * d);
                assert(m * d2 == s * d) by (nonlinear_arith)
                    requires
                        d2 == 2 * d,
                        s == 2 * m,
                ;
            }
        }
    }
}

/// The bit pattern that an integer becomes has 64 bits.
pub proof fn lemma_nearest_bits_fit(n: i64)
    ensures
        0 <= nearest_bits(n as int) <= u64::MAX,
{
    law_integers_become_the_nearest_number(n);
}

/// A double-precision number becomes an integer by cutting off what stands
/// behind the point, towards zero.  Below one that is zero; beyond the range
/// it is the bound on that side; what is not a number becomes zero.
pub proof fn law_numbers_are_cut_off(x: Binary64)
    ensures
        ({
            let e = (x.bits as int / 0x10_0000_0000_0000) % 2048;
            let f = x.bits as int % 0x10_0000_0000_0000;
            let negative = x.bits >= 0x8000_0000_0000_0000;
            let m = 0x10_0000_0000_0000 + f;
            let r = x.to_i64_spec() as int;
            let size = if negative { -r } else { r };
            &&& e == 2047 && f != 0 ==> r == 0
            &&& e >= 1086 && !(e == 2047 && f != 0) ==> r == (if negative {
                -0x8000_0000_0000_0000
            } else {
                0x7fff_ffff_ffff_ffff
            })
            &&& 1075 <= e < 1086 ==> size == m * pow2((e - 1075) as nat)
            &&& 1 <= e < 1075 ==> {
                let d = pow2((1075 - e) as nat) as int;
                &&& size >= 0
                &&& size * d <= m < (size + 1) * d
            }
            &&& e == 0 ==> r == 0
        }),
{
    let e = x.exponent();
    let m = x.significand();
    lemma2_to64();
    lemma2_to64_rest();
    if e == 2047 {
    } else if e >= 1087 {
        lemma_large_magnitude(x);
    } else if e >= 1075 {
        let s = (e - 1075) as nat;
        let p = pow2(s) as int;
        lemma_pow2_pos(s);
        if e == 1086 {
            assert(m * p >= FRACTION * 2048) by (nonlinear_arith)
                requires
                    m >= FRACTION,
                    p == 2048,
            ;
        } else {
            if s < 10 {
                lemma_pow2_strictly_increases(s, 10);
            }
            assert(m * p < 2 * FRACTION * 1024) by (nonlinear_arith)
                requires
                    0 <= m < 2 * FRACTION,
                    0 < p <= 1024,
            ;
            assert(m * p >= 0) by (nonlinear_arith)
                requires
                    m >= 0,
                    p > 0,
            ;
        }
    } else if e >= 1 {
        let k = (1075 - e) as nat;
        let d = pow2(k) as int;
        lemma_pow2_pos(k);
        let q = m / d;
        vstd::arithmetic::div_mod::lemma_fundamental_div_mod(m, d);
        assert(0 <= q <= m) by (nonlinear_arith)
            requires
                m == d * q + m % d,
                0 <= m % d < d,
                d >= 1,
                m >= 0,
        ;
        assert(q * d <= m < (q + 1) * d) by (nonlinear_arith)
            requires
                m == d * q + m % d,
                0 <= m % d < d,
        ;
    } else {
        lemma_small_magnitude(x);
    }
}

/// Numbers are equal where their bits are, and so are the two zeros; nothing
/// else is, and what is not a number is not even equal to itself.
pub proof fn law_equality_of_numbers(x: Binary64, y: Binary64)
    ensures
        ({
            let nan = |b: u64|
                (b as int / 0x10_0000_0000_0000) % 2048 == 2047 && b as int % 0x10_0000_0000_0000
                    != 0;
            let zero = |b: u64| b == 0 || b == 0x8000_0000_0000_0000;
            x.same_number(y) <==> !nan(x.bits) && !nan(y.bits) && (x.bits == y.bits || (zero(x.bits)
                && zero(y.bits)))
        }),
{
}

} // verus!
