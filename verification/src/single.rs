//! Single precision numbers, held as the bits of their IEEE 754 binary32 encoding.
//!
//! Such numbers are ordered and bounded here; [`crate::arithmetic`] computes with them.
use vstd::arithmetic::power2::{lemma_pow2_adds, lemma_pow2_pos, lemma_pow2_strictly_increases, lemma_pow2_unfold, pow2};
use vstd::prelude::*;

verus! {

/// The bits of the number one.
pub const ONE_BITS: u32 = 0x3f80_0000;

/// A single precision number.
#[derive(Clone, Copy, Debug)]
pub struct Single {
    /// Its binary32 encoding.
    pub bits: u32,
}

/// What the magnitude bits `m` of an encoding stand for, in units of 2^-149: eight exponent
/// bits in front of twenty-three fraction bits.
pub open spec fn scaled_magnitude(m: int) -> int {
    let exponent = m / 0x80_0000;
    let fraction = m % 0x80_0000;
    if exponent == 0 {
        fraction
    } else {
        (0x80_0000 + fraction) * pow2((exponent - 1) as nat)
    }
}

impl Single {
    /// The encoding without the sign bit.
    pub open spec fn magnitude(self) -> int {
        self.bits as int % 0x8000_0000
    }

    /// The sign bit is set.
    pub open spec fn is_negative(self) -> bool {
        self.bits >= 0x8000_0000
    }

    /// The encoding stands for no number.
    pub open spec fn is_nan(self) -> bool {
        self.magnitude() > 0x7f80_0000
    }

    /// The value in units of 2^-149; an infinity lies beyond every finite value.
    pub open spec fn scaled(self) -> int {
        if self.is_negative() {
            -scaled_magnitude(self.magnitude())
        } else {
            scaled_magnitude(self.magnitude())
        }
    }

    /// The place of the number among all others; both zeros share one place.
    pub open spec fn rank(self) -> int {
        if self.is_negative() {
            -self.magnitude()
        } else {
            self.magnitude()
        }
    }

    /// `self` is a number that is less than the number `other`.
    pub open spec fn below(self, other: Single) -> bool {
        !self.is_nan() && !other.is_nan() && self.rank() < other.rank()
    }

    /// `self` bounded by `low` and `high`; what is no number stays as it is.
    pub open spec fn clamped(self, low: Single, high: Single) -> Single {
        if self.below(low) {
            low
        } else if high.below(self) {
            high
        } else {
            self
        }
    }

    /// The number with the encoding `bits`.
    pub fn from_bits(bits: u32) -> (r: Single)
        ensures
            r.bits == bits,
    {
        Single { bits }
    }

    /// The place of the number among all others.
    fn place(self) -> (r: i64)
        ensures
            r == self.rank(),
    {
        if self.bits >= 0x8000_0000 {
            -((self.bits - 0x8000_0000) as i64)
        } else {
            self.bits as i64
        }
    }

    /// Whether the encoding stands for no number.
    pub fn not_a_number(self) -> (r: bool)
        ensures
            r == self.is_nan(),
    {
        self.bits % 0x8000_0000 > 0x7f80_0000
    }

    /// Whether `self` is a number that is less than the number `other`.
    pub fn is_below(self, other: Single) -> (r: bool)
        ensures
            r == self.below(other),
    {
        !self.not_a_number() && !other.not_a_number() && self.place() < other.place()
    }

    /// `self` bounded by `low` and `high`; what is no number stays as it is.
    pub fn clamp(self, low: Single, high: Single) -> (r: Single)
        requires
            !low.is_nan(),
            !high.is_nan(),
            low.rank() <= high.rank(),
        ensures
            r == self.clamped(low, high),
    {
        if self.is_below(low) {
            low
        } else if high.is_below(self) {
            high
        } else {
            self
        }
    }
}

impl PartialEq for Single {
    fn eq(&self, other: &Single) -> (r: bool) {
        !self.not_a_number() && !other.not_a_number() && self.place() == other.place()
    }
}

impl vstd::std_specs::cmp::PartialEqSpecImpl for Single {
    open spec fn obeys_eq_spec() -> bool {
        true
    }

    open spec fn eq_spec(&self, other: &Single) -> bool {
        !self.is_nan() && !other.is_nan() && self.rank() == other.rank()
    }
}

/// The interval of a high speed interrupt endpoint in milliseconds: an eighth of a millisecond,
/// doubled for every step of `binterval` above one. `binterval` counts as at least one and at
/// most sixteen.
pub fn high_speed_interval_ms_from_binterval(binterval: u8) -> (r: Single)
    ensures
        r == high_speed_interval_ms(binterval),
        !r.is_nan() && !r.is_negative(),
        r.scaled() * 8 == pow2(149) * pow2((bounded_binterval(binterval) - 1) as nat),
{
    let b: u32 = clamp_binterval(binterval) as u32;
    proof {
        lemma_interval(binterval);
    }
    Single::from_bits((123 + b) * 0x80_0000)
}

/// The rate of a high speed interrupt endpoint in reports a second: 8000, halved for every step
/// of `binterval` above one.
pub fn high_speed_hz_from_binterval(binterval: u8) -> (r: Single)
    ensures
        r == high_speed_hz(binterval),
        !r.is_nan() && !r.is_negative(),
        r.scaled() * pow2((bounded_binterval(binterval) - 1) as nat) == 8000 * pow2(149),
{
    let b: u32 = clamp_binterval(binterval) as u32;
    proof {
        lemma_rate(binterval);
    }
    Single::from_bits((140 - b) * 0x80_0000 + 0x7a_0000)
}

/// The encoding of the interval of a high speed interrupt endpoint in milliseconds: a power of
/// two.
pub open spec fn high_speed_interval_ms(binterval: u8) -> Single {
    Single { bits: ((123 + bounded_binterval(binterval)) * 0x80_0000) as u32 }
}

/// The encoding of the rate of a high speed interrupt endpoint in reports a second: 1000 times a
/// power of two.
pub open spec fn high_speed_hz(binterval: u8) -> Single {
    Single { bits: ((140 - bounded_binterval(binterval)) * 0x80_0000 + 0x7a_0000) as u32 }
}

/// `binterval`, as at least one and at most sixteen.
pub open spec fn bounded_binterval(binterval: u8) -> u8 {
    if binterval < 1 {
        1
    } else if binterval > 16 {
        16
    } else {
        binterval
    }
}

/// `binterval`, as at least one and at most sixteen.
pub fn clamp_binterval(binterval: u8) -> (r: u8)
    ensures
        r == bounded_binterval(binterval),
{
    if binterval < 1 {
        1
    } else if binterval > 16 {
        16
    } else {
        binterval
    }
}

/// A few powers of two.
proof fn lemma_small_powers()
    ensures
        pow2(3) == 8,
        pow2(11) == 2048,
        pow2(23) == 0x80_0000,
{
    vstd::arithmetic::power2::lemma2_to64();
}

/// What the encoding of an interval stands for.
pub proof fn lemma_interval(binterval: u8)
    ensures
        !high_speed_interval_ms(binterval).is_nan(),
        !high_speed_interval_ms(binterval).is_negative(),
        high_speed_interval_ms(binterval).scaled() * 8 == pow2(149) * pow2(
            (bounded_binterval(binterval) - 1) as nat,
        ),
{
    let b = bounded_binterval(binterval);
    let r = high_speed_interval_ms(binterval);
    assert(r.magnitude() / 0x80_0000 == 123 + b);
    assert(r.magnitude() % 0x80_0000 == 0);
    assert(r.scaled() == 0x80_0000 * pow2((122 + b) as nat));
    lemma_small_powers();
    lemma_pow2_adds(23, (122 + b) as nat);
    lemma_pow2_adds((145 + b) as nat, 3);
    lemma_pow2_adds(149, (b - 1) as nat);
}

/// What the encoding of a rate stands for.
pub proof fn lemma_rate(binterval: u8)
    ensures
        !high_speed_hz(binterval).is_nan(),
        !high_speed_hz(binterval).is_negative(),
        high_speed_hz(binterval).scaled() * pow2((bounded_binterval(binterval) - 1) as nat) == 8000
            * pow2(149),
{
    let b = bounded_binterval(binterval);
    let r = high_speed_hz(binterval);
    assert(r.magnitude() / 0x80_0000 == 140 - b);
    assert(r.magnitude() % 0x80_0000 == 0x7a_0000);
    let p = pow2((139 - b) as nat);
    let q = pow2((b - 1) as nat);
    assert(r.scaled() == 16384000 * p);
    lemma_pow2_adds((139 - b) as nat, (b - 1) as nat);
    assert((16384000 * p) * q == 16384000 * (p * q)) by (nonlinear_arith);
    lemma_pow2_adds(11, 138);
    lemma_small_powers();
}

/// Larger magnitude bits stand for a larger magnitude.
pub proof fn lemma_scaled_magnitude_increases(a: int, b: int)
    requires
        0 <= a < b,
    ensures
        0 <= scaled_magnitude(a) < scaled_magnitude(b),
{
    let ea = a / 0x80_0000;
    let eb = b / 0x80_0000;
    let fa = a % 0x80_0000;
    let fb = b % 0x80_0000;
    if eb > 0 {
        let pb = pow2((eb - 1) as nat);
        lemma_pow2_pos((eb - 1) as nat);
        assert((0x80_0000 + fb) * pb >= 0x80_0000 * pb) by (nonlinear_arith)
            requires
                fb >= 0,
                pb > 0,
        ;
        if ea > 0 {
            let pa = pow2((ea - 1) as nat);
            lemma_pow2_pos((ea - 1) as nat);
            assert((0x80_0000 + fa) * pa >= 0) by (nonlinear_arith)
                requires
                    fa >= 0,
                    pa > 0,
            ;
            if ea == eb {
                assert((0x80_0000 + fa) * pa < (0x80_0000 + fb) * pa) by (nonlinear_arith)
                    requires
                        fa < fb,
                        pa > 0,
                ;
            } else {
                lemma_pow2_unfold(ea as nat);
                if ea < eb - 1 {
                    lemma_pow2_strictly_increases(ea as nat, (eb - 1) as nat);
                }
                assert(2 * pa <= pb);
                assert((0x80_0000 + fa) * pa < 0x80_0000 * pb) by (nonlinear_arith)
                    requires
                        fa < 0x80_0000,
                        2 * pa <= pb,
                        pa > 0,
                ;
            }
        }
    }
}

/// The order that the library gives to numbers is the order of their values.
pub proof fn order_is_order_of_values(a: Single, b: Single)
    ensures
        a.rank() < b.rank() <==> a.scaled() < b.scaled(),
        a.rank() == b.rank() <==> a.scaled() == b.scaled(),
{
    let (ma, mb) = (a.magnitude(), b.magnitude());
    if ma < mb {
        lemma_scaled_magnitude_increases(ma, mb);
    }
    if mb < ma {
        lemma_scaled_magnitude_increases(mb, ma);
    }
    if 0 < ma {
        lemma_scaled_magnitude_increases(0, ma);
    }
    if 0 < mb {
        lemma_scaled_magnitude_increases(0, mb);
    }
}

/// A bounded number lies between its bounds, and bounding it again changes nothing.
pub proof fn clamped_lies_between(x: Single, low: Single, high: Single)
    requires
        !low.is_nan(),
        !high.is_nan(),
        low.rank() <= high.rank(),
    ensures
        !x.is_nan() ==> low.rank() <= x.clamped(low, high).rank() <= high.rank(),
        x.is_nan() ==> x.clamped(low, high) == x,
        x.clamped(low, high).clamped(low, high) == x.clamped(low, high),
{
}

/// The interval and the rate belong together: their product is one second.
pub proof fn interval_times_rate_is_one_second(binterval: u8)
    ensures
        high_speed_interval_ms(binterval).scaled() * high_speed_hz(binterval).scaled() == 1000 * (
        pow2(149) * pow2(149)),
{
    let p = pow2(149) as int;
    let q = pow2((bounded_binterval(binterval) - 1) as nat) as int;
    let i = high_speed_interval_ms(binterval).scaled();
    let r = high_speed_hz(binterval).scaled();
    lemma_interval(binterval);
    lemma_rate(binterval);
    assert((i * 8) * r == (p * q) * r);
    assert((p * q) * r == p * (r * q)) by (nonlinear_arith);
    assert(p * (8000 * p) == 8000 * (p * p)) by (nonlinear_arith);
    assert((i * 8) * r == 8 * (i * r)) by (nonlinear_arith);
}

} // verus!
