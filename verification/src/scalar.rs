//! Single precision numbers as bit patterns.
//!
//! The engine hands over widths, losses, densities and areas as `binary32` values. This module
//! compares them without floating point arithmetic, and states the comparisons over the exact
//! value of the number.
use vstd::arithmetic::power2::{lemma_pow2_pos, lemma_pow2_strictly_increases, lemma_pow2_unfold, pow2};
use vstd::prelude::*;

verus! {

/// Bit of the sign.
pub const SIGN_BIT: u32 = 0x8000_0000;

/// Magnitude of an infinity; larger magnitudes are NaNs.
pub const INFINITE_MAGNITUDE: u32 = 0x7f80_0000;

/// Number of distinct significands of one exponent.
pub const SIGNIFICANDS: u32 = 0x0080_0000;

/// Bits of the number `0`.
pub const ZERO_BITS: u32 = 0;

/// Bits of the number `1`.
pub const ONE_BITS: u32 = 0x3f80_0000;

/// The bit pattern of an IEEE 754 `binary32` number.
///
/// `==` on this type compares bit patterns. The numeric comparisons are methods.
#[derive(Clone, Copy, Debug, PartialEq, Eq, Structural)]
pub struct Scalar {
    /// The bits, as `f32::to_bits` gives them.
    pub bits: u32,
}

/// Magnitude of a number in units of `2^-149`, the smallest positive `binary32` number.
///
/// An infinity counts as `2^128`, one step above the largest finite number.
pub open spec fn scaled_magnitude(magnitude: u32) -> nat {
    if magnitude < SIGNIFICANDS {
        magnitude as nat
    } else {
        ((SIGNIFICANDS + magnitude % SIGNIFICANDS) as nat) * pow2(
            (magnitude / SIGNIFICANDS - 1) as nat,
        )
    }
}

impl Scalar {
    /// The bits without the sign.
    pub open spec fn magnitude(self) -> u32 {
        if self.bits >= SIGN_BIT {
            (self.bits - SIGN_BIT) as u32
        } else {
            self.bits
        }
    }

    /// Not a number.
    pub open spec fn nan(self) -> bool {
        self.magnitude() > INFINITE_MAGNITUDE
    }

    /// Neither infinite nor NaN.
    pub open spec fn finite(self) -> bool {
        self.magnitude() < INFINITE_MAGNITUDE
    }

    /// The exact value in units of `2^-149`; meaningless for a NaN.
    pub open spec fn value(self) -> int {
        if self.bits >= SIGN_BIT {
            -(scaled_magnitude(self.magnitude()) as int)
        } else {
            scaled_magnitude(self.magnitude()) as int
        }
    }

    /// `self < other` as numbers: false as soon as one of them is a NaN.
    pub open spec fn less(self, other: Scalar) -> bool {
        !self.nan() && !other.nan() && self.value() < other.value()
    }

    /// `self <= other` as numbers: false as soon as one of them is a NaN.
    pub open spec fn less_or_equal(self, other: Scalar) -> bool {
        !self.nan() && !other.nan() && self.value() <= other.value()
    }

    /// `self` comes strictly before `other` in the total order in which every NaN is equal to
    /// every other NaN and greater than every number.
    pub open spec fn before(self, other: Scalar) -> bool {
        if self.nan() {
            false
        } else {
            other.nan() || self.value() < other.value()
        }
    }

    /// Signed magnitude: the bits as an integer that is ordered as the number is.
    pub open spec fn rank(self) -> int {
        if self.bits >= SIGN_BIT {
            -(self.magnitude() as int)
        } else {
            self.magnitude() as int
        }
    }
}

/// A larger magnitude is a larger number.
pub proof fn lemma_magnitude_increases(a: u32, b: u32)
    requires
        a < b,
    ensures
        scaled_magnitude(a) < scaled_magnitude(b),
{
    if b < SIGNIFICANDS {
    } else {
        let eb: nat = (b / SIGNIFICANDS - 1) as nat;
        let fb: nat = (SIGNIFICANDS + b % SIGNIFICANDS) as nat;
        lemma_pow2_pos(eb);
        assert(fb * pow2(eb) >= fb) by (nonlinear_arith)
            requires
                pow2(eb) >= 1,
        ;
        if a >= SIGNIFICANDS {
            let ea: nat = (a / SIGNIFICANDS - 1) as nat;
            let fa: nat = (SIGNIFICANDS + a % SIGNIFICANDS) as nat;
            lemma_pow2_pos(ea);
            assert(a / SIGNIFICANDS <= b / SIGNIFICANDS);
            if ea == eb {
                assert(fa < fb);
                assert(fa * pow2(ea) < fb * pow2(eb)) by (nonlinear_arith)
                    requires
                        fa < fb,
                        ea == eb,
                        pow2(ea) >= 1,
                ;
            } else {
                lemma_pow2_unfold((ea + 1) as nat);
                if ea + 1 < eb {
                    lemma_pow2_strictly_increases((ea + 1) as nat, eb);
                }
                assert(pow2(eb) >= 2 * pow2(ea));
                assert(fa * pow2(ea) < fb * pow2(eb)) by (nonlinear_arith)
                    requires
                        fa < 2 * SIGNIFICANDS,
                        fb >= SIGNIFICANDS,
                        pow2(ea) >= 1,
                        pow2(eb) >= 2 * pow2(ea),
                ;
            }
        }
    }
}

/// Comparing signed magnitudes is comparing the numbers.
pub proof fn lemma_rank_is_value_order(a: Scalar, b: Scalar)
    ensures
        (a.rank() < b.rank()) == (a.value() < b.value()),
        (a.rank() == b.rank()) == (a.value() == b.value()),
{
    let (ma, mb) = (a.magnitude(), b.magnitude());
    if ma < mb {
        lemma_magnitude_increases(ma, mb);
    }
    if mb < ma {
        lemma_magnitude_increases(mb, ma);
    }
    if ma > 0 {
        lemma_magnitude_increases(0, ma);
    }
    if mb > 0 {
        lemma_magnitude_increases(0, mb);
    }
}

impl Scalar {
    /// Whether the number is a NaN.
    pub fn is_nan(self) -> (r: bool)
        ensures
            r == self.nan(),
    {
        self.unsigned_bits() > INFINITE_MAGNITUDE
    }

    /// Whether the number is neither infinite nor a NaN.
    pub fn is_finite(self) -> (r: bool)
        ensures
            r == self.finite(),
    {
        self.unsigned_bits() < INFINITE_MAGNITUDE
    }

    fn unsigned_bits(self) -> (m: u32)
        ensures
            m == self.magnitude(),
    {
        if self.bits >= SIGN_BIT {
            self.bits - SIGN_BIT
        } else {
            self.bits
        }
    }

    /// `self < other`.
    pub fn lt(self, other: Scalar) -> (r: bool)
        ensures
            r == self.less(other),
    {
        proof {
            lemma_rank_is_value_order(self, other);
        }
        if self.is_nan() || other.is_nan() {
            return false;
        }
        let a: i64 = self.signed_rank();
        let b: i64 = other.signed_rank();
        a < b
    }

    /// `self <= other`.
    pub fn le(self, other: Scalar) -> (r: bool)
        ensures
            r == self.less_or_equal(other),
    {
        proof {
            lemma_rank_is_value_order(self, other);
        }
        if self.is_nan() || other.is_nan() {
            return false;
        }
        let a: i64 = self.signed_rank();
        let b: i64 = other.signed_rank();
        a <= b
    }

    fn signed_rank(self) -> (r: i64)
        ensures
            r == self.rank(),
    {
        let m: i64 = self.unsigned_bits() as i64;
        if self.bits >= SIGN_BIT {
            -m
        } else {
            m
        }
    }

    /// Whether the number is zero, of either sign.
    pub fn is_zero(self) -> (r: bool)
        ensures
            r == (!self.nan() && self.value() == 0),
    {
        proof {
            lemma_rank_is_value_order(self, Scalar { bits: ZERO_BITS });
        }
        self.bits == 0 || self.bits == SIGN_BIT
    }

    /// Whether the number is greater than zero.
    pub fn is_positive(self) -> (r: bool)
        ensures
            r == (!self.nan() && self.value() > 0),
    {
        proof {
            lemma_rank_is_value_order(Scalar { bits: ZERO_BITS }, self);
        }
        Scalar { bits: ZERO_BITS }.lt(self)
    }

    /// An integer that orders as [`Scalar::before`] does: smaller for an earlier number, equal
    /// for two numbers neither of which is before the other.
    pub fn order_key(self) -> (k: u32)
        ensures
            k == self.key(),
    {
        if self.is_nan() {
            return u32::MAX;
        }
        if self.bits >= SIGN_BIT {
            SIGN_BIT - self.unsigned_bits()
        } else {
            SIGN_BIT + self.unsigned_bits()
        }
    }

    /// The key of [`Scalar::order_key`].
    pub open spec fn key(self) -> u32 {
        if self.nan() {
            u32::MAX
        } else {
            (SIGN_BIT + self.rank()) as u32
        }
    }

    /// The bits with the sign flipped.
    pub open spec fn flipped(self) -> Scalar {
        if self.bits >= SIGN_BIT {
            Scalar { bits: (self.bits - SIGN_BIT) as u32 }
        } else {
            Scalar { bits: (self.bits + SIGN_BIT) as u32 }
        }
    }

    /// The number with its sign flipped.
    pub fn negated(self) -> (r: Scalar)
        ensures
            r == self.flipped(),
            r.nan() == self.nan(),
            r.value() == -self.value(),
    {
        if self.bits >= SIGN_BIT {
            Scalar { bits: self.bits - SIGN_BIT }
        } else {
            Scalar { bits: self.bits + SIGN_BIT }
        }
    }
}

/// Keys order numbers exactly as [`Scalar::before`] does.
pub proof fn lemma_key_is_order(a: Scalar, b: Scalar)
    ensures
        (a.key() < b.key()) == a.before(b),
        (a.key() == b.key()) == (!a.before(b) && !b.before(a)),
{
    lemma_rank_is_value_order(a, b);
    lemma_rank_is_value_order(b, a);
}

/// Twice a magnitude: one more in the exponent, or the next exponent for a number too small to have
/// one of its own.
proof fn lemma_doubled_magnitude(m: u32)
    requires
        m < INFINITE_MAGNITUDE - SIGNIFICANDS,
    ensures
        m < SIGNIFICANDS ==> scaled_magnitude((2 * m) as u32) == 2 * scaled_magnitude(m),
        m >= SIGNIFICANDS ==> scaled_magnitude((m + SIGNIFICANDS) as u32) == 2 * scaled_magnitude(m),
{
    if m < SIGNIFICANDS {
        if 2 * m >= SIGNIFICANDS {
            assert((2 * m) as u32 / SIGNIFICANDS == 1);
            assert((2 * m) as u32 % SIGNIFICANDS == 2 * m - SIGNIFICANDS);
            vstd::arithmetic::power2::lemma2_to64();
            assert(pow2(0) == 1);
            assert(((SIGNIFICANDS + (2 * m) as u32 % SIGNIFICANDS) as nat) * 1 == 2 * m)
                by (nonlinear_arith)
                requires
                    SIGNIFICANDS + (2 * m) as u32 % SIGNIFICANDS == 2 * m,
            ;
        }
    } else {
        let e = (m / SIGNIFICANDS - 1) as nat;
        let d = (m + SIGNIFICANDS) as u32;
        assert(d / SIGNIFICANDS == m / SIGNIFICANDS + 1);
        assert(d % SIGNIFICANDS == m % SIGNIFICANDS);
        lemma_pow2_unfold(e + 1);
        let f = (SIGNIFICANDS + m % SIGNIFICANDS) as nat;
        let p = pow2(e);
        assert(f * (2 * p) == 2 * (f * p)) by (nonlinear_arith);
    }
}

impl Scalar {
    /// Infinite.
    pub open spec fn infinite(self) -> bool {
        self.magnitude() == INFINITE_MAGNITUDE
    }

    /// Twice the number. Doubling is exact unless the result is too large, which gives an infinity.
    pub fn doubled(self) -> (r: Scalar)
        ensures
            self.nan() ==> r.nan(),
            self.infinite() ==> r == self,
            self.finite() ==> {
                ||| r.finite() && r.value() == 2 * self.value()
                ||| r.infinite() && (r.bits >= SIGN_BIT) == (self.bits >= SIGN_BIT)
                    && self.magnitude() >= INFINITE_MAGNITUDE - SIGNIFICANDS
            },
    {
        let sign: u32 = if self.bits >= SIGN_BIT {
            SIGN_BIT
        } else {
            0
        };
        let m: u32 = self.bits - sign;
        if m >= INFINITE_MAGNITUDE {
            return self;
        }
        if m >= INFINITE_MAGNITUDE - SIGNIFICANDS {
            return Scalar { bits: sign + INFINITE_MAGNITUDE };
        }
        proof {
            lemma_doubled_magnitude(m);
        }
        let d: u32 = if m < SIGNIFICANDS {
            2 * m
        } else {
            m + SIGNIFICANDS
        };
        Scalar { bits: sign + d }
    }

    /// The larger of two numbers; a NaN yields to a number.
    pub open spec fn larger(self, other: Scalar) -> Scalar {
        if self.less(other) || self.nan() {
            other
        } else {
            self
        }
    }

    /// The larger of two numbers; a NaN yields to a number.
    pub fn max(self, other: Scalar) -> (r: Scalar)
        ensures
            r == self.larger(other),
    {
        if self.lt(other) || self.is_nan() {
            other
        } else {
            self
        }
    }

    /// The smaller of two numbers; a NaN yields to a number.
    pub open spec fn smaller(self, other: Scalar) -> Scalar {
        if other.less(self) || self.nan() {
            other
        } else {
            self
        }
    }

    /// The smaller of two numbers; a NaN yields to a number.
    pub fn min(self, other: Scalar) -> (r: Scalar)
        ensures
            r == self.smaller(other),
    {
        if other.lt(self) || self.is_nan() {
            other
        } else {
            self
        }
    }
}

/// **The larger of two numbers is one of them, and no smaller than either**; and so, the other way round, is
/// the smaller. Where one of them is not a number, it is the other one.
pub proof fn lemma_larger_and_smaller(a: Scalar, b: Scalar)
    ensures
        a.larger(b) == a || a.larger(b) == b,
        a.smaller(b) == a || a.smaller(b) == b,
        !a.larger(b).less(a) && !a.larger(b).less(b),
        !a.less(a.smaller(b)) && !b.less(a.smaller(b)),
        a.nan() ==> a.larger(b) == b && a.smaller(b) == b,
        b.nan() && !a.nan() ==> a.larger(b) == a && a.smaller(b) == a,
{
}

/// **Flipping the sign turns the order around**, and twice is once too often.
pub proof fn lemma_flipping_turns_the_order(a: Scalar, b: Scalar)
    ensures
        a.flipped().less(b.flipped()) <==> b.less(a),
        a.flipped().nan() == a.nan(),
        a.flipped().flipped() == a,
{
}

/// **The order of numbers is total, with what is no number last**: of any two, one comes before the other or
/// they are equally large.
pub proof fn lemma_order_is_total(a: Scalar, b: Scalar, c: Scalar)
    ensures
        !(a.before(b) && b.before(a)),
        a.before(b) && b.before(c) ==> a.before(c),
        !a.nan() && b.nan() ==> a.before(b),
        !a.nan() && !b.nan() ==> (a.before(b) <==> a.value() < b.value()),
        a.less(b) <==> a.before(b) && !b.nan(),
        a.less_or_equal(b) <==> !a.nan() && !b.nan() && !b.before(a),
{
}

} // verus!
