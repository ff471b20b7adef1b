//! Arithmetic on single precision numbers. Every operation gives the number next to the exact
//! result.
use vstd::arithmetic::power2::{lemma_pow2_adds, lemma_pow2_pos, lemma_pow2_strictly_increases, lemma_pow2_unfold, pow2};
use vstd::prelude::*;

use crate::rounding::{round, INFINITY_BITS};
#[allow(unused_imports)]
use crate::rounding::{beyond, brackets, lemma_place, nearest, nearest_is_unique, unit};
use crate::single::{Single, ONE_BITS};
#[allow(unused_imports)]
use crate::single::{
    bounded_binterval, high_speed_hz, high_speed_interval_ms, interval_times_rate_is_one_second,
    lemma_interval, lemma_rate, lemma_scaled_magnitude_increases, scaled_magnitude,
};

verus! {

/// The bits of what is no number.
pub const NAN_BITS: u32 = 0x7fc0_0000;

/// The bits of minus one.
pub const MINUS_ONE_BITS: u32 = 0xbf80_0000;

/// The bits of the distance from one to the next number: 2^-23.
pub const EPSILON_BITS: u32 = 0x3400_0000;

/// The bits of the largest number that is turned into an integer: 32768.
pub const LARGEST_WHOLE_BITS: u32 = 0x4700_0000;

/// The number with the magnitude bits `m`, negative or not.
pub open spec fn with_sign(m: int, negative: bool) -> Single {
    Single {
        bits: (if negative {
            m + 0x8000_0000
        } else {
            m
        }) as u32,
    }
}

/// What is no number.
pub open spec fn nan() -> Single {
    Single { bits: NAN_BITS }
}

/// The magnitude of an integer.
pub open spec fn absolute(n: int) -> int {
    if n < 0 {
        -n
    } else {
        n
    }
}

/// The number next to `sum`, in units of 2^-149. A sum of nothing is negative only if
/// `both_negative`.
pub open spec fn rounded_sum(sum: int, both_negative: bool) -> Single {
    if sum == 0 {
        with_sign(0, both_negative)
    } else {
        with_sign(nearest(absolute(sum), 1), sum < 0)
    }
}

impl Single {
    /// It lies beyond every finite number.
    pub open spec fn is_infinite(self) -> bool {
        self.magnitude() == INFINITY_BITS
    }

    /// It is zero, of either sign.
    pub open spec fn is_zero(self) -> bool {
        self.magnitude() == 0
    }

    /// Its magnitude in units of 2^-149.
    pub open spec fn size(self) -> int {
        scaled_magnitude(self.magnitude())
    }

    /// The number with the other sign.
    pub open spec fn negated(self) -> Single {
        with_sign(self.magnitude(), !self.is_negative())
    }

    /// The number without its sign.
    pub open spec fn unsigned(self) -> Single {
        with_sign(self.magnitude(), false)
    }

    /// The sum of two numbers.
    #[verifier::opaque]
    pub open spec fn sum(self, other: Single) -> Single {
        if self.is_nan() || other.is_nan() {
            nan()
        } else if self.is_infinite() {
            if other.is_infinite() && self.is_negative() != other.is_negative() {
                nan()
            } else {
                self
            }
        } else if other.is_infinite() {
            other
        } else {
            rounded_sum(
                self.scaled() + other.scaled(),
                self.is_negative() && other.is_negative(),
            )
        }
    }

    /// The difference of two numbers.
    pub open spec fn difference(self, other: Single) -> Single {
        self.sum(other.negated())
    }

    /// The product of two numbers.
    #[verifier::opaque]
    pub open spec fn product(self, other: Single) -> Single {
        let negative = self.is_negative() != other.is_negative();
        if self.is_nan() || other.is_nan() {
            nan()
        } else if self.is_infinite() || other.is_infinite() {
            if self.is_zero() || other.is_zero() {
                nan()
            } else {
                with_sign(INFINITY_BITS as int, negative)
            }
        } else {
            with_sign(nearest(self.size() * other.size(), pow2(149) as int), negative)
        }
    }

    /// The quotient of two numbers.
    #[verifier::opaque]
    pub open spec fn quotient(self, other: Single) -> Single {
        let negative = self.is_negative() != other.is_negative();
        if self.is_nan() || other.is_nan() {
            nan()
        } else if self.is_infinite() {
            if other.is_infinite() {
                nan()
            } else {
                with_sign(INFINITY_BITS as int, negative)
            }
        } else if other.is_infinite() {
            with_sign(0, negative)
        } else if other.is_zero() {
            if self.is_zero() {
                nan()
            } else {
                with_sign(INFINITY_BITS as int, negative)
            }
        } else {
            with_sign(nearest(self.size() * pow2(149), other.size()), negative)
        }
    }

    /// The magnitude bits.
    pub(crate) fn magnitude_bits(self) -> (r: u32)
        ensures
            r == self.magnitude(),
    {
        self.bits % 0x8000_0000
    }

    /// Whether the sign bit is set.
    fn has_sign(self) -> (r: bool)
        ensures
            r == self.is_negative(),
    {
        self.bits >= 0x8000_0000
    }

    /// The number with the other sign.
    pub fn negate(self) -> (r: Single)
        ensures
            r == self.negated(),
    {
        signed(self.magnitude_bits(), !self.has_sign())
    }

    /// The number without its sign.
    pub fn abs(self) -> (r: Single)
        ensures
            r == self.unsigned(),
    {
        signed(self.magnitude_bits(), false)
    }

    /// The sum of two numbers.
    pub fn plus(self, other: Single) -> (r: Single)
        ensures
            r == self.sum(other),
    {
        proof {
            reveal(Single::sum);
        }
        if self.not_a_number() || other.not_a_number() {
            return Single::from_bits(NAN_BITS);
        }
        let (a, b) = (self.magnitude_bits(), other.magnitude_bits());
        let (a_negative, b_negative) = (self.has_sign(), other.has_sign());
        if a == INFINITY_BITS {
            return if b == INFINITY_BITS && a_negative != b_negative {
                Single::from_bits(NAN_BITS)
            } else {
                self
            };
        }
        if b == INFINITY_BITS {
            return other;
        }
        let (fa, ea) = parts(a);
        let (fb, eb) = parts(b);
        if ea >= eb {
            finite_sum(fa, ea, a_negative, fb, eb, b_negative)
        } else {
            finite_sum(fb, eb, b_negative, fa, ea, a_negative)
        }
    }

    /// The difference of two numbers.
    pub fn minus(self, other: Single) -> (r: Single)
        ensures
            r == self.difference(other),
    {
        self.plus(other.negate())
    }

    /// The product of two numbers.
    pub fn times(self, other: Single) -> (r: Single)
        ensures
            r == self.product(other),
    {
        proof {
            reveal(Single::product);
        }
        if self.not_a_number() || other.not_a_number() {
            return Single::from_bits(NAN_BITS);
        }
        let (a, b) = (self.magnitude_bits(), other.magnitude_bits());
        let negative = self.has_sign() != other.has_sign();
        if a == INFINITY_BITS || b == INFINITY_BITS {
            return if a == 0 || b == 0 {
                Single::from_bits(NAN_BITS)
            } else {
                signed(INFINITY_BITS, negative)
            };
        }
        let (fa, ea) = parts(a);
        let (fb, eb) = parts(b);
        proof {
            lemma_product(fa as int, ea as nat, fb as int, eb as nat);
            lemma_pow2_pos(149);
        }
        let p: u128 = (fa as u128) * (fb as u128);
        let k: i32 = ea as i32 + eb as i32 - 149;
        let m: u32 = round(
            p,
            k,
            false,
            Ghost(self.size() * other.size()),
            Ghost(pow2(149) as int),
        );
        signed(m, negative)
    }

    /// The quotient of two numbers.
    pub fn over(self, other: Single) -> (r: Single)
        ensures
            r == self.quotient(other),
    {
        proof {
            reveal(Single::quotient);
        }
        if self.not_a_number() || other.not_a_number() {
            return Single::from_bits(NAN_BITS);
        }
        let (a, b) = (self.magnitude_bits(), other.magnitude_bits());
        let negative = self.has_sign() != other.has_sign();
        if a == INFINITY_BITS {
            return if b == INFINITY_BITS {
                Single::from_bits(NAN_BITS)
            } else {
                signed(INFINITY_BITS, negative)
            };
        }
        if b == INFINITY_BITS {
            return signed(0, negative);
        }
        if b == 0 {
            return if a == 0 {
                Single::from_bits(NAN_BITS)
            } else {
                signed(INFINITY_BITS, negative)
            };
        }
        let (fa, ea) = parts(a);
        let (fb, eb) = parts(b);
        let dividend: u128 = (fa as u128) * 0x1_0000_0000_0000_0000;
        proof {
            lemma_scaled_magnitude_increases(0, b as int);
            assert(fb > 0) by {
                if fb == 0 {
                    assert(0 * pow2(eb as nat) == 0);
                }
            }
            lemma_quotient(fa as int, ea as nat, fb as int, eb as nat);
        }
        let p: u128 = dividend / (fb as u128);
        let rest: u128 = dividend % (fb as u128);
        let k: i32 = ea as i32 - eb as i32 + 85;
        let m: u32 = round(
            p,
            k,
            rest != 0,
            Ghost(self.size() * pow2(149)),
            Ghost(other.size()),
        );
        signed(m, negative)
    }
}

/// The number with the magnitude bits `m`, negative or not.
fn signed(m: u32, negative: bool) -> (r: Single)
    requires
        m < 0x8000_0000,
    ensures
        r == with_sign(m as int, negative),
        r.magnitude() == m,
        r.is_negative() == negative,
{
    if negative {
        Single::from_bits(m + 0x8000_0000)
    } else {
        Single::from_bits(m)
    }
}

/// The significand and the exponent of a finite number.
pub(crate) fn parts(m: u32) -> (r: (u32, u32))
    requires
        m < INFINITY_BITS,
    ensures
        scaled_magnitude(m as int) == r.0 * pow2(r.1 as nat),
        r.0 < 0x100_0000,
        r.1 <= 253,
        r.1 > 0 ==> r.0 >= 0x80_0000,
        m == r.1 * 0x80_0000 + r.0,
{
    let exponent: u32 = m / 0x80_0000;
    let fraction: u32 = m % 0x80_0000;
    proof {
        vstd::arithmetic::power2::lemma2_to64();
    }
    if exponent == 0 {
        assert(fraction * 1 == fraction);
        (fraction, 0)
    } else {
        (0x80_0000 + fraction, exponent - 1)
    }
}

/// A power of two.
pub(crate) fn power_of_two(n: u32) -> (r: u128)
    requires
        n <= 64,
    ensures
        r == pow2(n as nat),
        0 < r <= 0x1_0000_0000_0000_0000,
{
    let mut r: u128 = 1;
    let mut i: u32 = 0;
    proof {
        vstd::arithmetic::power2::lemma2_to64();
    }
    while i < n
        invariant
            i <= n <= 64,
            r == pow2(i as nat),
            0 < r,
            pow2(64) == 0x1_0000_0000_0000_0000,
        decreases n - i,
    {
        proof {
            lemma_pow2_unfold((i + 1) as nat);
            lemma_pow2_strictly_increases(i as nat, 64);
        }
        r = r * 2;
        i = i + 1;
    }
    proof {
        if n < 64 {
            lemma_pow2_strictly_increases(n as nat, 64);
        }
    }
    r
}

/// `f * 2^e`, negative or not.
spec fn signed_value(f: int, e: nat, negative: bool) -> int {
    if negative {
        -(f * pow2(e))
    } else {
        f * pow2(e)
    }
}

/// The sum of two finite numbers, the first of which has the larger exponent.
fn finite_sum(
    fa: u32,
    ea: u32,
    a_negative: bool,
    fb: u32,
    eb: u32,
    b_negative: bool,
) -> (r: Single)
    requires
        fa < 0x100_0000,
        fb < 0x100_0000,
        eb <= ea <= 253,
        ea > 0 ==> fa >= 0x80_0000,
    ensures
        r == rounded_sum(
            signed_value(fa as int, ea as nat, a_negative) + signed_value(
                fb as int,
                eb as nat,
                b_negative,
            ),
            a_negative && b_negative,
        ),
{
    let ghost sum = signed_value(fa as int, ea as nat, a_negative) + signed_value(
        fb as int,
        eb as nat,
        b_negative,
    );
    let gap: u32 = ea - eb;
    if gap <= 64 {
        let scale: u128 = power_of_two(gap);
        proof {
            lemma_aligned(
                fa as int,
                ea as nat,
                a_negative,
                fb as int,
                eb as nat,
                b_negative,
                scale as int,
            );
        }
        let x: i128 = (fa as u128 * scale) as i128;
        let y: i128 = fb as i128;
        let s: i128 = (if a_negative { -x } else { x }) + (if b_negative { -y } else { y });
        proof {
            lemma_pow2_pos(eb as nat);
            lemma_multiple(s as int, eb as nat, sum);
        }
        if s == 0 {
            return signed(0, a_negative && b_negative);
        }
        let p: u128 = if s < 0 { (-s) as u128 } else { s as u128 };
        let m: u32 = round(p, eb as i32, false, Ghost(absolute(sum)), Ghost(1));
        signed(m, s < 0)
    } else {
        proof {
            lemma_far(fa as int, ea as nat, a_negative, fb as int, eb as nat, b_negative, sum);
        }
        let whole: u128 = (fa as u128) * 0x100_0000_0000;
        let p: u128 = if fb != 0 && a_negative != b_negative { whole - 1 } else { whole };
        let m: u32 = round(
            p,
            ea as i32 - 40,
            fb != 0,
            Ghost(absolute(sum)),
            Ghost(1),
        );
        signed(m, a_negative)
    }
}

/// What is known of a product.
proof fn lemma_product(fa: int, ea: nat, fb: int, eb: nat)
    requires
        0 <= fa < 0x100_0000,
        0 <= fb < 0x100_0000,
    ensures
        0 <= fa * fb < 0x1_0000_0000_0000,
        brackets(
            fa * fb,
            ea + eb - 149,
            false,
            (fa * pow2(ea)) * (fb * pow2(eb)),
            pow2(149) as int,
        ),
{
    let (a, b, c) = (pow2(ea) as int, pow2(eb) as int, pow2(400) as int);
    assert(0 <= fa * fb < 0x1_0000_0000_0000) by (nonlinear_arith)
        requires
            0 <= fa < 0x100_0000,
            0 <= fb < 0x100_0000,
    ;
    lemma_pow2_adds(149, ea + eb + 251);
    lemma_pow2_adds(ea + eb, 400);
    lemma_pow2_adds(ea, eb);
    assert(unit(ea + eb - 149, pow2(149) as int) == (a * b) * c);
    assert(((fa * a) * (fb * b)) * c == (fa * fb) * ((a * b) * c)) by (nonlinear_arith);
}

/// What is known of a quotient.
proof fn lemma_quotient(fa: int, ea: nat, fb: int, eb: nat)
    requires
        0 <= fa < 0x100_0000,
        0 < fb < 0x100_0000,
        ea <= 253,
        eb <= 253,
    ensures
        ({
            let dividend = fa * 0x1_0000_0000_0000_0000;
            let p = dividend / fb;
            &&& 0 <= p <= dividend
            &&& dividend % fb != 0 ==> p >= 0x100_0000
            &&& fb * pow2(eb) > 0
            &&& brackets(
                p,
                ea - eb + 85,
                dividend % fb != 0,
                (fa * pow2(ea)) * pow2(149),
                fb * pow2(eb),
            )
        }),
{
    let dividend = fa * 0x1_0000_0000_0000_0000;
    let p = dividend / fb;
    let rest = dividend % fb;
    let (a, b, c, t) = (pow2(ea) as int, pow2(eb) as int, pow2(400) as int, pow2(149) as int);
    let x = pow2(485) as int;
    let z = a * x;
    lemma_pow2_pos(ea);
    lemma_pow2_pos(eb);
    lemma_pow2_pos(485);
    assert(z > 0) by (nonlinear_arith)
        requires
            a > 0,
            x > 0,
            z == a * x,
    ;
    assert(fb * b > 0) by (nonlinear_arith)
        requires
            fb > 0,
            b > 0,
    ;
    assert(dividend == p * fb + rest) by (nonlinear_arith)
        requires
            p == dividend / fb,
            rest == dividend % fb,
            fb > 0,
    ;
    assert(0 <= rest < fb) by (nonlinear_arith)
        requires
            rest == dividend % fb,
            fb > 0,
    ;
    assert(0 <= p <= dividend) by (nonlinear_arith)
        requires
            dividend == p * fb + rest,
            0 <= rest < fb,
            fb >= 1,
            dividend >= 0,
    ;
    if rest != 0 {
        assert(p >= 0x100_0000) by (nonlinear_arith)
            requires
                dividend == p * fb + rest,
                rest < fb,
                0 < fb < 0x100_0000,
                dividend >= 0x1_0000_0000_0000_0000,
        ;
    }
    let w = pow2((ea - eb + 485) as nat) as int;
    lemma_pow2_adds(eb, (ea - eb + 485) as nat);
    lemma_pow2_adds(ea, 485);
    assert((fb * b) * w == fb * z) by (nonlinear_arith)
        requires
            b * w == z,
    ;
    lemma_pow2_adds(149, 400);
    lemma_pow2_adds(485, 64);
    vstd::arithmetic::power2::lemma2_to64();
    assert(t * c == x * 0x1_0000_0000_0000_0000);
    assert(((fa * a) * t) * c == (fa * 0x1_0000_0000_0000_0000) * z) by (nonlinear_arith)
        requires
            t * c == x * 0x1_0000_0000_0000_0000,
            z == a * x,
    ;
    assert(dividend * z - p * (fb * z) == rest * z) by (nonlinear_arith)
        requires
            dividend == p * fb + rest,
    ;
    assert(rest * z < fb * z && (rest > 0 ==> rest * z > 0) && 0 * z == 0) by (nonlinear_arith)
        requires
            0 <= rest < fb,
            z > 0,
    ;
}

/// Two numbers with exponents that do not lie far apart are multiples of one power of two.
proof fn lemma_aligned(
    fa: int,
    ea: nat,
    a_negative: bool,
    fb: int,
    eb: nat,
    b_negative: bool,
    scale: int,
)
    requires
        0 <= fa < 0x100_0000,
        0 <= fb < 0x100_0000,
        eb <= ea,
        scale == pow2((ea - eb) as nat),
        scale <= 0x1_0000_0000_0000_0000,
    ensures
        0 <= fa * scale < 0x100_0000_0000_0000_0000_0000,
        signed_value(fa, ea, a_negative) + signed_value(fb, eb, b_negative) == ((if a_negative {
            -(fa * scale)
        } else {
            fa * scale
        }) + (if b_negative {
            -fb
        } else {
            fb
        })) * pow2(eb),
{
    let b = pow2(eb) as int;
    lemma_pow2_adds((ea - eb) as nat, eb);
    lemma_pow2_pos((ea - eb) as nat);
    assert(0 <= fa * scale < 0x100_0000_0000_0000_0000_0000) by (nonlinear_arith)
        requires
            0 <= fa < 0x100_0000,
            0 < scale <= 0x1_0000_0000_0000_0000,
    ;
    let x = fa * scale;
    assert(fa * (scale * b) == x * b) by (nonlinear_arith)
        requires
            x == fa * scale,
    ;
    assert((-x + -fb) * b == -(x * b) + -(fb * b)) by (nonlinear_arith);
    assert((-x + fb) * b == -(x * b) + fb * b) by (nonlinear_arith);
    assert((x + -fb) * b == x * b + -(fb * b)) by (nonlinear_arith);
    assert((x + fb) * b == x * b + fb * b) by (nonlinear_arith);
}

/// What is known of a multiple of a power of two.
proof fn lemma_multiple(s: int, e: nat, sum: int)
    requires
        sum == s * pow2(e),
    ensures
        sum == 0 <==> s == 0,
        sum < 0 <==> s < 0,
        brackets(absolute(s), e as int, false, absolute(sum), 1),
{
    let w = pow2(e) as int;
    lemma_pow2_pos(e);
    assert((sum == 0 <==> s == 0) && (sum < 0 <==> s < 0)) by (nonlinear_arith)
        requires
            sum == s * w,
            w > 0,
    ;
    lemma_pow2_adds(e, 400);
    let c = pow2(400) as int;
    assert(unit(e as int, 1) == w * c);
    assert((s * w) * c == s * (w * c)) by (nonlinear_arith);
    assert((-(s * w)) * c == (-s) * (w * c)) by (nonlinear_arith);
}

/// What is known of the sum of two numbers with exponents that lie far apart.
proof fn lemma_far(
    fa: int,
    ea: nat,
    a_negative: bool,
    fb: int,
    eb: nat,
    b_negative: bool,
    sum: int,
)
    requires
        0x80_0000 <= fa < 0x100_0000,
        0 <= fb < 0x100_0000,
        eb + 64 < ea <= 253,
        sum == signed_value(fa, ea, a_negative) + signed_value(fb, eb, b_negative),
    ensures
        sum != 0,
        sum < 0 <==> a_negative,
        0x8000_0000_0000_0000 <= fa * 0x100_0000_0000 < 0x1_0000_0000_0000_0000,
        brackets(
            if fb != 0 && a_negative != b_negative {
                fa * 0x100_0000_0000 - 1
            } else {
                fa * 0x100_0000_0000
            },
            ea - 40,
            fb != 0,
            absolute(sum),
            1,
        ),
{
    let (a, b, c) = (pow2(ea) as int, pow2(eb) as int, pow2(400) as int);
    let u = pow2((ea + 360) as nat) as int;
    let v = pow2(eb + 400) as int;
    lemma_pow2_pos(ea);
    lemma_pow2_pos(eb);
    lemma_pow2_pos(400);
    lemma_pow2_pos(ea + 360);
    lemma_pow2_pos(eb + 400);
    vstd::arithmetic::power2::lemma2_to64();
    lemma_pow2_adds(ea, 400);
    lemma_pow2_adds(eb, 400);
    lemma_pow2_adds(20, 20);
    lemma_pow2_adds(40, (ea + 360) as nat);
    lemma_pow2_adds(24, eb + 400);
    assert(pow2(40) == 0x100_0000_0000);
    assert(a * c == 0x100_0000_0000 * u);
    assert(b * c == v);
    assert(0x100_0000 * v == pow2(eb + 424));
    lemma_pow2_strictly_increases(eb + 424, (ea + 360) as nat);
    let small = fb * v;
    assert(0 <= small < u && (fb > 0 ==> small > 0)) by (nonlinear_arith)
        requires
            small == fb * v,
            0 <= fb < 0x100_0000,
            v > 0,
            0x100_0000 * v < u,
    ;
    let whole = fa * 0x100_0000_0000;
    let big = fa * a;
    let little = fb * b;
    assert(big * c == whole * u) by (nonlinear_arith)
        requires
            big == fa * a,
            a * c == 0x100_0000_0000 * u,
            whole == fa * 0x100_0000_0000,
    ;
    assert(little * c == small) by (nonlinear_arith)
        requires
            little == fb * b,
            b * c == v,
            small == fb * v,
    ;
    assert(whole * u >= 0x8000_0000_0000_0000 * u) by (nonlinear_arith)
        requires
            whole >= 0x8000_0000_0000_0000,
            u > 0,
    ;
    assert(big > little && little >= 0) by (nonlinear_arith)
        requires
            big * c >= 0x8000_0000_0000_0000 * u,
            little * c < u,
            u > 0,
            c > 0,
            0 <= little * c,
    ;
    assert((big + little) * c == big * c + little * c) by (nonlinear_arith);
    assert((big - little) * c == big * c - little * c) by (nonlinear_arith);
    assert((whole - 1) * u == whole * u - u) by (nonlinear_arith);
    assert(unit(ea - 40, 1) == u);
    if fb == 0 {
        assert(0 * b == 0);
        assert(0 * v == 0);
    }
}

/// Zero.
pub open spec fn zero() -> Single {
    Single { bits: 0 }
}

/// One.
pub open spec fn one() -> Single {
    Single { bits: ONE_BITS }
}

/// The distance from one to the next number.
pub open spec fn epsilon() -> Single {
    Single { bits: EPSILON_BITS }
}

/// The number next to an integer.
pub open spec fn integer(n: int) -> Single {
    if n < 0 {
        with_sign(nearest(-n * pow2(149), 1), true)
    } else {
        with_sign(nearest(n * pow2(149), 1), false)
    }
}

/// The integer next to a number; in the middle of two, the one that is farther from zero. What is
/// no number counts as zero.
pub open spec fn whole(x: Single) -> int {
    let magnitude = (2 * x.size() + pow2(149)) / pow2(150) as int;
    if x.is_nan() {
        0
    } else if x.is_negative() {
        -magnitude
    } else {
        magnitude
    }
}

impl Single {
    /// Two numbers, the first of which is not above the second.
    pub open spec fn not_above(self, other: Single) -> bool {
        !self.is_nan() && !other.is_nan() && self.rank() <= other.rank()
    }

    /// The smaller of two numbers. What is no number does not count.
    pub open spec fn smaller(self, other: Single) -> Single {
        if self.is_nan() || other.below(self) {
            other
        } else {
            self
        }
    }

    /// The larger of two numbers. What is no number does not count.
    pub open spec fn larger(self, other: Single) -> Single {
        if self.is_nan() || self.below(other) {
            other
        } else {
            self
        }
    }

    /// One, with the sign of the number.
    pub open spec fn direction(self) -> Single {
        if self.is_nan() {
            nan()
        } else {
            with_sign(ONE_BITS as int, self.is_negative())
        }
    }

    /// Whether both are numbers and the first is not above the second.
    pub fn is_at_most(self, other: Single) -> (r: bool)
        ensures
            r == self.not_above(other),
    {
        self.is_below(other) || self == other
    }

    /// The smaller of two numbers. What is no number does not count.
    pub fn min(self, other: Single) -> (r: Single)
        ensures
            r == self.smaller(other),
    {
        if self.not_a_number() || other.is_below(self) {
            other
        } else {
            self
        }
    }

    /// The larger of two numbers. What is no number does not count.
    pub fn max(self, other: Single) -> (r: Single)
        ensures
            r == self.larger(other),
    {
        if self.not_a_number() || self.is_below(other) {
            other
        } else {
            self
        }
    }

    /// One, with the sign of the number.
    pub fn signum(self) -> (r: Single)
        ensures
            r == self.direction(),
    {
        if self.not_a_number() {
            Single::from_bits(NAN_BITS)
        } else if self.bits >= 0x8000_0000 {
            Single::from_bits(MINUS_ONE_BITS)
        } else {
            Single::from_bits(ONE_BITS)
        }
    }

    /// The number next to an integer.
    pub fn from_integer(n: i64) -> (r: Single)
        ensures
            r == integer(n as int),
    {
        let negative = n < 0;
        let p: u128 = if negative { (-(n as i128)) as u128 } else { n as u128 };
        let ghost num = p * pow2(149);
        proof {
            lemma_pow2_adds(149, 400);
            let (t, c) = (pow2(149) as int, pow2(400) as int);
            assert((p * t) * c == p * (t * c)) by (nonlinear_arith);
            assert(unit(149, 1) == t * c);
        }
        let m: u32 = round(p, 149, false, Ghost(num), Ghost(1));
        if negative {
            Single::from_bits(m + 0x8000_0000)
        } else {
            Single::from_bits(m)
        }
    }

    /// The integer next to a number that is not above 32768; in the middle of two, the one that is
    /// farther from zero. What is no number counts as zero.
    pub fn to_integer(self) -> (r: i32)
        requires
            self.is_nan() || self.magnitude() <= LARGEST_WHOLE_BITS,
        ensures
            r == whole(self),
            -32768 <= r <= 32768,
    {
        if self.not_a_number() {
            return 0;
        }
        let m: u32 = self.bits % 0x8000_0000;
        let exponent: u32 = m / 0x80_0000;
        let fraction: u32 = m % 0x80_0000;
        proof {
            lemma_whole(m as int);
        }
        if exponent < 126 {
            return 0;
        }
        let f: u64 = (0x80_0000 + fraction) as u64;
        let mut step: u64 = 0x100_0000;
        let mut e: u32 = 126;
        proof {
            vstd::arithmetic::power2::lemma2_to64();
        }
        while e < exponent
            invariant
                126 <= e <= exponent <= 142,
                step == pow2((150 - e) as nat),
                step <= 0x100_0000,
            decreases exponent - e,
        {
            proof {
                lemma_pow2_unfold((150 - e) as nat);
            }
            step = step / 2;
            e = e + 1;
        }
        proof {
            lemma_pow2_pos((150 - exponent) as nat);
        }
        let n: i32 = ((2 * f + step) / (2 * step)) as i32;
        if self.bits >= 0x8000_0000 {
            -n
        } else {
            n
        }
    }
}

/// Rounding the magnitude `m` to an integer.
pub proof fn lemma_whole(m: int)
    requires
        0 <= m <= LARGEST_WHOLE_BITS,
    ensures
        ({
            let exponent = m / 0x80_0000;
            let f = 0x80_0000 + m % 0x80_0000;
            let step = pow2((150 - exponent) as nat) as int;
            let r = (2 * scaled_magnitude(m) + pow2(149)) / pow2(150) as int;
            &&& exponent <= 142
            &&& exponent < 126 ==> r == 0
            &&& exponent >= 126 ==> r == (2 * f + step) / (2 * step) && 0 <= r <= 32768
        }),
{
    let exponent = m / 0x80_0000;
    let f = 0x80_0000 + m % 0x80_0000;
    lemma_pow2_unfold(150);
    lemma_pow2_pos(149);
    vstd::arithmetic::power2::lemma2_to64();
    if exponent < 126 {
        let top: int = 0x3f00_0000;
        lemma_scaled_magnitude_increases(m, top);
        if 0 < m {
            lemma_scaled_magnitude_increases(0, m);
        }
        assert(top / 0x80_0000 == 126);
        lemma_pow2_adds(23, 125);
        lemma_pow2_unfold(149);
        let (x, n) = (2 * scaled_magnitude(m) + pow2(149), pow2(150) as int);
        assert(0 <= x < n);
        assert(x / n == 0) by (nonlinear_arith)
            requires
                0 <= x < n,
        ;
    } else {
        let w = pow2((exponent - 1) as nat) as int;
        let step = pow2((150 - exponent) as nat) as int;
        lemma_pow2_adds((exponent - 1) as nat, (150 - exponent) as nat);
        lemma_pow2_pos((exponent - 1) as nat);
        lemma_pow2_pos((150 - exponent) as nat);
        if exponent < 141 {
            lemma_pow2_strictly_increases(9, (150 - exponent) as nat);
        }
        let (a, b) = (2 * f + step, 2 * step);
        let (q, r) = (a / b, a % b);
        assert(a == q * b + r && 0 <= r < b) by (nonlinear_arith)
            requires
                q == a / b,
                r == a % b,
                b > 0,
        ;
        assert(2 * (f * w) + w * step == a * w) by (nonlinear_arith)
            requires
                a == 2 * f + step,
        ;
        assert(2 * (w * step) == b * w) by (nonlinear_arith)
            requires
                b == 2 * step,
        ;
        assert(a * w == q * (b * w) + r * w) by (nonlinear_arith)
            requires
                a == q * b + r,
        ;
        assert(0 <= r * w < b * w) by (nonlinear_arith)
            requires
                0 <= r < b,
                w > 0,
        ;
        vstd::arithmetic::div_mod::lemma_fundamental_div_mod_converse(a * w, b * w, q, r * w);
        assert(0 <= q <= 32768) by (nonlinear_arith)
            requires
                a == q * b + r,
                0 <= r < b,
                0 <= a < b * 32769,
        ;
    }
}

/// A number is next to itself.
pub proof fn numbers_are_kept(b: int, den: int)
    requires
        den > 0,
        0 <= b < INFINITY_BITS,
    ensures
        nearest(scaled_magnitude(b) * den, den) == b,
{
    let here = scaled_magnitude(b);
    let next = scaled_magnitude(b + 1);
    lemma_scaled_magnitude_increases(b, b + 1);
    assert(2 * (here * den) < (here + next) * den) by (nonlinear_arith)
        requires
            here < next,
            den > 0,
    ;
    if b > 0 {
        let before = scaled_magnitude(b - 1);
        lemma_scaled_magnitude_increases(b - 1, b);
        assert((before + here) * den < 2 * (here * den)) by (nonlinear_arith)
            requires
                before < here,
                den > 0,
        ;
    }
    nearest_is_unique(b, b, here * den, den);
}

/// The bits of `f * 2^e`.
pub proof fn lemma_representable(f: int, e: nat) -> (b: int)
    requires
        0 <= f < 0x100_0000,
        e <= 253,
    ensures
        0 <= b < INFINITY_BITS,
        scaled_magnitude(b) == f * pow2(e),
    decreases e,
{
    if f < 0x80_0000 && e > 0 {
        let b = lemma_representable(2 * f, (e - 1) as nat);
        lemma_pow2_unfold(e);
        let w = pow2((e - 1) as nat) as int;
        assert((2 * f) * w == f * (2 * w)) by (nonlinear_arith);
        b
    } else {
        lemma_place(f, e as int);
        e * 0x80_0000 + f
    }
}

/// The distance from a number below `2^(e - 126)` to the next one.
pub proof fn lemma_gap(m: int, e: nat)
    requires
        0 <= m < (e + 1) * 0x80_0000,
        e >= 1,
    ensures
        scaled_magnitude(m + 1) - scaled_magnitude(m) <= pow2((e - 1) as nat),
{
    let exponent = m / 0x80_0000;
    let fraction = m % 0x80_0000;
    let (q, x) = if exponent == 0 {
        (fraction, 0)
    } else {
        (0x80_0000 + fraction, exponent - 1)
    };
    lemma_place(q, x);
    assert(m == x * 0x80_0000 + q);
    let w = pow2(x as nat) as int;
    assert((q + 1) * w - q * w == w) by (nonlinear_arith);
    if x < e - 1 {
        lemma_pow2_strictly_increases(x as nat, (e - 1) as nat);
    }
}

/// Small integers are numbers.
pub proof fn lemma_small_integer(n: int)
    requires
        0 <= n < 0x100_0000,
    ensures
        !integer(n).is_nan() && !integer(n).is_infinite() && !integer(n).is_negative(),
        integer(n).size() == n * pow2(149),
        n > 0 ==> {
            &&& !integer(-n).is_nan() && !integer(-n).is_infinite() && integer(-n).is_negative()
            &&& integer(-n).size() == n * pow2(149)
        },
{
    let b = lemma_representable(n, 149);
    numbers_are_kept(b, 1);
}

/// The interval of an endpoint is what comes of doubling and dividing by eight, and its rate what
/// comes of dividing 1000 by that.
pub proof fn intervals_follow_the_formula(binterval: u8)
    ensures
        high_speed_interval_ms(binterval) == integer(
            pow2((bounded_binterval(binterval) - 1) as nat) as int,
        ).quotient(integer(8)),
        high_speed_hz(binterval) == integer(1000).quotient(high_speed_interval_ms(binterval)),
{
    reveal(Single::quotient);
    let unit = pow2(149) as int;
    let n = (bounded_binterval(binterval) - 1) as nat;
    let doubled = pow2(n) as int;
    let interval = high_speed_interval_ms(binterval);
    let rate = high_speed_hz(binterval);
    vstd::arithmetic::power2::lemma2_to64();
    lemma_pow2_pos(149);
    lemma_pow2_pos(n);
    if n < 16 {
        lemma_pow2_strictly_increases(n, 16);
    }
    lemma_interval(binterval);
    lemma_rate(binterval);
    interval_times_rate_is_one_second(binterval);
    lemma_small_integer(doubled);
    lemma_small_integer(8);
    lemma_small_integer(1000);
    let size = interval.size();
    assert((doubled * unit) * unit == size * (8 * unit)) by (nonlinear_arith)
        requires
            size * 8 == unit * doubled,
    ;
    numbers_are_kept(interval.magnitude(), 8 * unit);
    assert(size > 0) by (nonlinear_arith)
        requires
            size * 8 == unit * doubled,
            unit > 0,
            doubled > 0,
    ;
    let speed = rate.size();
    assert((1000 * unit) * unit == speed * size) by (nonlinear_arith)
        requires
            size * speed == 1000 * (unit * unit),
    ;
    numbers_are_kept(rate.magnitude(), size);
}

} // verus!
