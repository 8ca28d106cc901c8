//! Signed fixed-point type `Q<I, F>`.

use vstd::prelude::*;
use vstd::arithmetic::power2::{pow2, lemma_pow2_pos, lemma2_to64, lemma2_to64_rest};
use crate::spec::{signed_lo, signed_hi, fits_signed, fits_unsigned, signed_wrap, unsigned_wrap,
    clamp, trunc_div, rescale};
use crate::bits::{lemma_pow2_halves, lemma_pow2_le, lemma_signed_wrap, lemma_signed_wrap_fits,
    lemma_signed_wrap_congruent, lemma_signed_wrap_wider, lemma_unsigned_wrap,
    lemma_unsigned_of_signed, lemma_i64_as_u64, lemma_i64_shl, lemma_i128_shr, lemma_i128_as_i64,
    lemma_mod_pow2_wider, lemma_one_shl, low_bits, mask_u64, wrap_i64};
use crate::error::FixedError;

verus! {

/// Signed fixed-point number with `I` integer bits (including sign) and `F`
/// fractional bits, backed by an `i64`.
///
/// The total bit width `I + F` must satisfy `1 <= I + F <= 64`. The value held
/// is `count * 2^-F`, where the *count* (the view `q@`) is the signed
/// two's-complement register word, sign-extended to 64 bits.
///
/// Follows TI-style Q notation: `Q<1, 8>` is a 9-bit signed value with
/// 1 integer bit (the sign) and 8 fractional bits, representing values
/// in increments of 1/256.
#[derive(Clone, Copy, Debug, PartialEq, Eq, PartialOrd, Ord, Hash)]
pub struct Q<const I: u32, const F: u32>(i64);

impl<const I: u32, const F: u32> View for Q<I, F> {
    type V = int;

    /// The signed count of `2^-F` units.
    closed spec fn view(&self) -> int {
        self.0 as int
    }
}

impl<const I: u32, const F: u32> Q<I, F> {
    /// Whether `Q<I, F>` is a usable format: between 1 and 64 bits in total.
    pub open spec fn valid() -> bool {
        1 <= I + F <= 64
    }

    /// Total number of bits, `I + F`.
    pub open spec fn width() -> nat {
        (I + F) as nat
    }

    /// Every value of a usable format holds a count that fits its width.
    #[verifier::type_invariant]
    spec fn count_fits(self) -> bool {
        Self::valid() ==> fits_signed(self.0 as int, Self::width())
    }

    /// The value whose 64-bit signed count is `c`.
    pub closed spec fn of_count(c: int) -> Self {
        Q(c as i64)
    }

    /// `of_count` builds the value of any 64-bit count.
    pub proof fn lemma_of_count(c: int)
        requires
            i64::MIN <= c <= i64::MAX,
        ensures
            Self::of_count(c)@ == c,
    {
    }

    /// Every value is the value of its own count.
    pub proof fn lemma_of_view(a: Self)
        ensures
            a == Self::of_count(a@),
    {
    }

    /// Values with the same count are the same value.
    pub proof fn lemma_same_count(a: Self, b: Self)
        requires
            a@ == b@,
        ensures
            a == b,
    {
    }

    /// Total number of integer bits (including the sign bit).
    pub fn integer_bits() -> (r: u32)
        ensures
            r == I,
    {
        I
    }

    /// Total number of fractional bits.
    pub fn fractional_bits() -> (r: u32)
        ensures
            r == F,
    {
        F
    }

    /// Total number of bits, `I + F`.
    pub fn total_bits() -> (r: u32)
        requires
            I + F <= u32::MAX,
        ensures
            r == Self::width(),
    {
        I + F
    }

    /// The value zero (0.0).
    pub fn zero() -> (r: Self)
        ensures
            r@ == 0,
    {
        proof {
            if Self::valid() {
                lemma_pow2_halves(Self::width());
            }
        }
        Self(0)
    }

    /// The value one (1.0); needs at least one integer bit besides the sign.
    pub fn one() -> (r: Self)
        requires
            Self::valid(),
            I > 1,
        ensures
            r@ == pow2(F as nat),
    {
        proof {
            lemma_one_shl(F);
            lemma_pow2_le(F as nat, (Self::width() - 2) as nat);
            lemma_pow2_le((Self::width() - 2) as nat, 62);
            lemma2_to64_rest();
            lemma_pow2_halves(Self::width());
            lemma_pow2_halves((Self::width() - 1) as nat);
        }
        Self((1u64 << F) as i64)
    }

    /// Maximum representable value, `2^(I-1) - 2^(-F)`.
    pub fn max_value() -> (r: Self)
        requires
            Self::valid(),
        ensures
            r@ == signed_hi(Self::width()),
    {
        proof {
            lemma2_to64_rest();
            lemma_pow2_halves(Self::width());
        }
        if I + F >= 64 {
            Self(i64::MAX)
        } else {
            proof {
                lemma_one_shl((I + F - 1) as u32);
                lemma_pow2_le((Self::width() - 1) as nat, 62);
            }
            Self((1u64 << (I + F - 1)) as i64 - 1)
        }
    }

    /// Minimum representable value (most negative), `-2^(I-1)`.
    pub fn min_value() -> (r: Self)
        requires
            Self::valid(),
        ensures
            r@ == signed_lo(Self::width()),
    {
        proof {
            lemma2_to64_rest();
            lemma_pow2_halves(Self::width());
        }
        if I + F >= 64 {
            Self(i64::MIN)
        } else {
            proof {
                lemma_one_shl((I + F - 1) as u32);
                lemma_pow2_le((Self::width() - 1) as nat, 62);
            }
            Self(-((1u64 << (I + F - 1)) as i64))
        }
    }

    /// The stored count, with the range fact that the type maintains.
    pub(crate) fn raw(self) -> (r: i64)
        ensures
            r == self@,
            Self::valid() ==> fits_signed(r as int, Self::width()),
    {
        proof {
            use_type_invariant(&self);
        }
        self.0
    }

    /// Builds a value from a 64-bit word, keeping its low `I + F` bits and
    /// sign-extending them.
    pub(crate) fn from_raw(raw: i64) -> (r: Self)
        requires
            Self::valid(),
        ensures
            r@ == signed_wrap(raw as int, Self::width()),
    {
        let v = wrap_i64(raw, I + F);
        proof {
            lemma_signed_wrap(raw as int, Self::width());
        }
        Self(v)
    }

    /// Constructs from a raw bit pattern (the low `I + F` bits), sign-extending.
    ///
    /// `bits` is the unsigned two's-complement pattern as produced by
    /// [`to_bits`](Self::to_bits); any bits above the low `I + F` are masked
    /// off (never panics), matching RTL register truncation.
    pub fn from_bits(bits: u64) -> (r: Self)
        requires
            Self::valid(),
        ensures
            r@ == signed_wrap(bits as int, Self::width()),
    {
        let raw = bits as i64;
        proof {
            assert((raw as u64) == bits) by (bit_vector)
                requires
                    raw == bits as i64,
            ;
            lemma_i64_as_u64(raw);
            lemma_mod_pow2_wider(raw as int, Self::width(), 64);
            lemma_mod_pow2_wider(bits as int, Self::width(), 64);
        }
        Self::from_raw(raw)
    }

    /// Constructs from a raw bit pattern, erroring if it does not fit: returns
    /// `OutOfRange` when `bits` sets any bit above the low `I + F`.
    pub fn try_from_bits(bits: u64) -> (r: Result<Self, FixedError>)
        requires
            Self::valid(),
        ensures
            fits_unsigned(bits as int, Self::width()) <==> r is Ok,
            r is Ok ==> r->Ok_0@ == signed_wrap(bits as int, Self::width()),
            r is Err ==> r->Err_0 == FixedError::OutOfRange,
    {
        let masked = mask_u64(bits, I + F);
        proof {
            lemma_unsigned_wrap(bits as int, Self::width());
        }
        if bits == masked {
            Ok(Self::from_bits(bits))
        } else {
            Err(FixedError::OutOfRange)
        }
    }

    /// Extracts the raw bit pattern: the low `I + F` bits of the
    /// two's-complement word (a negative value reads back as a large positive).
    pub fn to_bits(self) -> (r: u64)
        requires
            Self::valid(),
        ensures
            r as int == unsigned_wrap(self@, Self::width()),
            signed_wrap(r as int, Self::width()) == self@,
    {
        let raw = self.raw();
        proof {
            lemma_unsigned_of_signed(raw as int, Self::width());
            lemma_signed_wrap_fits(raw as int, Self::width());
            lemma_i64_as_u64(raw);
            lemma_mod_pow2_wider(raw as int, Self::width(), 64);
            lemma_mod_pow2_wider((raw as u64) as int, Self::width(), 64);
        }
        mask_u64(raw as u64, I + F)
    }

    /// Constructs from a signed count of `2^-F` units; an out-of-range count
    /// wraps to `I + F` bits like an RTL register.
    pub fn from_count(count: i64) -> (r: Self)
        requires
            Self::valid(),
        ensures
            r@ == signed_wrap(count as int, Self::width()),
    {
        Self::from_raw(count)
    }

    /// Constructs from a signed count of `2^-F` units, returning `OutOfRange`
    /// instead of wrapping when the count lies outside `[MIN, MAX]`.
    pub fn try_from_count(count: i64) -> (r: Result<Self, FixedError>)
        requires
            Self::valid(),
        ensures
            fits_signed(count as int, Self::width()) <==> r is Ok,
            r is Ok ==> r->Ok_0@ == count,
            r is Err ==> r->Err_0 == FixedError::OutOfRange,
    {
        if count >= Self::min_value().0 && count <= Self::max_value().0 {
            proof {
                lemma_signed_wrap_fits(count as int, Self::width());
            }
            Ok(Self::from_raw(count))
        } else {
            Err(FixedError::OutOfRange)
        }
    }

    /// The value as a signed count of `2^-F` units (the exact inverse of
    /// [`from_count`](Self::from_count)).
    pub fn to_count(self) -> (r: i64)
        ensures
            r == self@,
    {
        self.0
    }

    /// The smaller of `self` and `other`.
    pub fn min(self, other: Self) -> (r: Self)
        ensures
            r == (if self@ < other@ { self } else { other }),
    {
        if self.0 < other.0 {
            self
        } else {
            other
        }
    }

    /// The larger of `self` and `other`.
    pub fn max(self, other: Self) -> (r: Self)
        ensures
            r == (if self@ > other@ { self } else { other }),
    {
        if self.0 > other.0 {
            self
        } else {
            other
        }
    }

    /// `self` clamped to `[lo, hi]` (as `self.max(lo).min(hi)`).
    pub fn clamp(self, lo: Self, hi: Self) -> (r: Self)
        ensures
            r@ == (if lo@ <= hi@ { clamp(self@, lo@, hi@) } else { hi@ }),
    {
        self.max(lo).min(hi)
    }

    /// Wrapping addition: the exact sum wrapped to `I + F` bits.
    pub fn wrapping_add(self, rhs: Self) -> (r: Self)
        requires
            Self::valid(),
        ensures
            r@ == signed_wrap(self@ + rhs@, Self::width()),
    {
        let s = self.raw().wrapping_add(rhs.raw());
        proof {
            crate::bits::lemma_i64_wrapping_add(self@ as i64, rhs@ as i64);
            lemma_signed_wrap_wider(self@ + rhs@, Self::width(), 64);
        }
        Self::from_raw(s)
    }

    /// Wrapping subtraction: the exact difference wrapped to `I + F` bits.
    pub fn wrapping_sub(self, rhs: Self) -> (r: Self)
        requires
            Self::valid(),
        ensures
            r@ == signed_wrap(self@ - rhs@, Self::width()),
    {
        let d = self.raw().wrapping_sub(rhs.raw());
        proof {
            crate::bits::lemma_i64_wrapping_sub(self@ as i64, rhs@ as i64);
            lemma_signed_wrap_wider(self@ - rhs@, Self::width(), 64);
        }
        Self::from_raw(d)
    }

    /// Wrapping negation: `-self` wrapped to `I + F` bits.
    pub fn wrapping_neg(self) -> (r: Self)
        requires
            Self::valid(),
        ensures
            r@ == signed_wrap(-self@, Self::width()),
    {
        let a = self.raw();
        let n = if a == i64::MIN {
            a
        } else {
            -a
        };
        proof {
            crate::bits::lemma_i64_neg_wraps(a, n);
            lemma_signed_wrap_wider(-self@, Self::width(), 64);
        }
        Self::from_raw(n)
    }

    /// Wrapping same-type multiply: `(self * rhs) >> F`, truncated to
    /// `I + F` bits. The full product is computed in 128 bits.
    pub fn wrapping_mul(self, rhs: Self) -> (r: Self)
        requires
            Self::valid(),
        ensures
            r@ == signed_wrap((self@ * rhs@) / (pow2(F as nat) as int), Self::width()),
    {
        let a = self.raw();
        let b = rhs.raw();
        proof {
            crate::bits::lemma_product_fits_i128(a, b);
        }
        let product = a as i128 * b as i128;
        let shifted = product >> F;
        proof {
            lemma_i128_shr(product, F);
            lemma_i128_as_i64(shifted);
            lemma_signed_wrap_wider(shifted as int, Self::width(), 64);
        }
        Self::from_raw(shifted as i64)
    }

    /// Wrapping same-type divide: `(self << F) / rhs` (quotient rounded toward
    /// zero), truncated to `I + F` bits. The numerator is widened to 128 bits.
    ///
    /// The divisor must be non-zero, and the one quotient that overflows 128
    /// bits (`-2^127 / -1`) is excluded.
    pub fn wrapping_div(self, rhs: Self) -> (r: Self)
        requires
            Self::valid(),
            rhs@ != 0,
            !(self@ * pow2(F as nat) == i128::MIN && rhs@ == -1),
        ensures
            r@ == signed_wrap(trunc_div(self@ * pow2(F as nat), rhs@), Self::width()),
    {
        let numer = Self::widen_numerator(self.raw());
        let q = crate::bits::div_toward_zero(numer, rhs.raw() as i128);
        proof {
            lemma_i128_as_i64(q);
            lemma_signed_wrap_wider(q as int, Self::width(), 64);
        }
        Self::from_raw(q as i64)
    }

    /// Checked same-type divide: `(self << F) / rhs`, or `None` when `rhs` is
    /// zero. The quotient is rounded toward zero and truncated to `I + F` bits.
    pub fn checked_div(self, rhs: Self) -> (r: Option<Self>)
        requires
            Self::valid(),
            !(self@ * pow2(F as nat) == i128::MIN && rhs@ == -1),
        ensures
            r is None <==> rhs@ == 0,
            r is Some ==> r->0@ == signed_wrap(trunc_div(self@ * pow2(F as nat), rhs@), Self::width()),
    {
        if rhs.raw() == 0 {
            None
        } else {
            Some(self.wrapping_div(rhs))
        }
    }

    /// Saturating addition: the exact sum clamped to `[MIN, MAX]`.
    pub fn saturating_add(self, rhs: Self) -> (r: Self)
        requires
            Self::valid(),
        ensures
            r@ == clamp(self@ + rhs@, signed_lo(Self::width()), signed_hi(Self::width())),
    {
        let a = self.raw();
        let b = rhs.raw();
        let sum = a as i128 + b as i128;
        let lo = Self::min_value().raw();
        let hi = Self::max_value().raw();
        let clamped = if sum < lo as i128 {
            lo
        } else if sum > hi as i128 {
            hi
        } else {
            sum as i64
        };
        proof {
            lemma_pow2_halves(Self::width());
            lemma_signed_wrap_fits(clamped as int, Self::width());
        }
        Self::from_raw(clamped)
    }

    /// Saturating subtraction: the exact difference clamped to `[MIN, MAX]`.
    pub fn saturating_sub(self, rhs: Self) -> (r: Self)
        requires
            Self::valid(),
        ensures
            r@ == clamp(self@ - rhs@, signed_lo(Self::width()), signed_hi(Self::width())),
    {
        let a = self.raw();
        let b = rhs.raw();
        let diff = a as i128 - b as i128;
        let lo = Self::min_value().raw();
        let hi = Self::max_value().raw();
        let clamped = if diff < lo as i128 {
            lo
        } else if diff > hi as i128 {
            hi
        } else {
            diff as i64
        };
        proof {
            lemma_pow2_halves(Self::width());
            lemma_signed_wrap_fits(clamped as int, Self::width());
        }
        Self::from_raw(clamped)
    }

    /// Saturating same-type multiply: `(self * rhs) >> F` clamped to
    /// `[MIN, MAX]` rather than truncated.
    pub fn saturating_mul(self, rhs: Self) -> (r: Self)
        requires
            Self::valid(),
        ensures
            r@ == clamp((self@ * rhs@) / (pow2(F as nat) as int), signed_lo(Self::width()),
                signed_hi(Self::width())),
    {
        let a = self.raw();
        let b = rhs.raw();
        proof {
            crate::bits::lemma_product_fits_i128(a, b);
        }
        let product = a as i128 * b as i128;
        let shifted = product >> F;
        let lo = Self::min_value().raw();
        let hi = Self::max_value().raw();
        let clamped = if shifted < lo as i128 {
            lo
        } else if shifted > hi as i128 {
            hi
        } else {
            shifted as i64
        };
        proof {
            lemma_i128_shr(product, F);
            lemma_pow2_halves(Self::width());
            lemma_signed_wrap_fits(clamped as int, Self::width());
        }
        Self::from_raw(clamped)
    }

    /// Saturating negation: `MIN` saturates to `MAX` instead of wrapping.
    pub fn saturating_neg(self) -> (r: Self)
        requires
            Self::valid(),
        ensures
            r@ == clamp(-self@, signed_lo(Self::width()), signed_hi(Self::width())),
    {
        let a = self.raw();
        proof {
            lemma_pow2_halves(Self::width());
        }
        let neg = -(a as i128);
        if neg > Self::max_value().raw() as i128 {
            Self::max_value()
        } else {
            proof {
                lemma_signed_wrap_fits(neg as int, Self::width());
            }
            Self::from_raw(neg as i64)
        }
    }

    /// Absolute value. `MIN` has no positive counterpart and is not
    /// accepted.
    pub fn abs(self) -> (r: Self)
        requires
            Self::valid(),
            self@ != signed_lo(Self::width()),
        ensures
            r@ == (if self@ < 0 { -self@ } else { self@ }),
    {
        proof {
            use_type_invariant(&self);
            if self@ < 0 {
                lemma_signed_wrap_fits(-self@, Self::width());
            }
        }
        if self.raw() < 0 {
            self.wrapping_neg()
        } else {
            self
        }
    }

    /// Widening addition into `Q<IO, FO>`, which must be wider than the
    /// input. The operands are aligned to `FO` fractional bits (an arithmetic
    /// right shift when `FO < F`) and added in 128 bits; the sum is kept to
    /// `IO + FO` bits. With at least one more integer bit and no fewer
    /// fractional bits the sum is exact.
    pub fn widening_add<const IO: u32, const FO: u32>(self, rhs: Self) -> (r: Q<IO, FO>)
        requires
            Self::valid(),
            Q::<IO, FO>::valid(),
            IO + FO > I + F,
        ensures
            r@ == signed_wrap(rescale(self@, FO - F) + rescale(rhs@, FO - F), Q::<IO, FO>::width()),
            IO > I && FO >= F ==> r@ == (self@ + rhs@) * pow2((FO - F) as nat),
    {
        let shift: i32 = FO as i32 - F as i32;
        let a = align_i128(self.raw(), shift, Ghost(Self::width()));
        let b = align_i128(rhs.raw(), shift, Ghost(Self::width()));
        let sum = a + b;
        proof {
            lemma_i128_as_i64(sum);
            lemma_signed_wrap_wider(sum as int, Q::<IO, FO>::width(), 64);
            if IO > I && FO >= F {
                lemma_wide_sum_fits(self@, rhs@, I as nat, F as nat, IO as nat, FO as nat);
                vstd::arithmetic::mul::lemma_mul_is_distributive_add_other_way(
                    pow2((FO - F) as nat) as int, self@, rhs@);
                lemma_signed_wrap_fits((self@ + rhs@) * pow2((FO - F) as nat), Q::<IO, FO>::width());
            }
        }
        Q::<IO, FO>::from_raw(sum as i64)
    }

    /// Widening subtraction into `Q<IO, FO>`, which must be wider than the
    /// input; aligned like [`widening_add`](Self::widening_add). With at least
    /// one more integer bit and no fewer fractional bits the difference is
    /// exact.
    pub fn widening_sub<const IO: u32, const FO: u32>(self, rhs: Self) -> (r: Q<IO, FO>)
        requires
            Self::valid(),
            Q::<IO, FO>::valid(),
            IO + FO > I + F,
        ensures
            r@ == signed_wrap(rescale(self@, FO - F) - rescale(rhs@, FO - F), Q::<IO, FO>::width()),
            IO > I && FO >= F ==> r@ == (self@ - rhs@) * pow2((FO - F) as nat),
    {
        let shift: i32 = FO as i32 - F as i32;
        let a = align_i128(self.raw(), shift, Ghost(Self::width()));
        let b = align_i128(rhs.raw(), shift, Ghost(Self::width()));
        let diff = a - b;
        proof {
            lemma_i128_as_i64(diff);
            lemma_signed_wrap_wider(diff as int, Q::<IO, FO>::width(), 64);
            if IO > I && FO >= F {
                lemma_wide_sum_fits(self@, -rhs@, I as nat, F as nat, IO as nat, FO as nat);
                vstd::arithmetic::mul::lemma_mul_is_distributive_sub_other_way(
                    pow2((FO - F) as nat) as int, self@, rhs@);
                lemma_signed_wrap_fits((self@ - rhs@) * pow2((FO - F) as nat), Q::<IO, FO>::width());
            }
        }
        Q::<IO, FO>::from_raw(diff as i64)
    }

    /// Widening multiply: `self * rhs` realigned from `F + F2` to `FO`
    /// fractional bits and kept to `IO + FO` bits, which must be at least
    /// `I + F + I2 + F2 - 1`. With `IO >= I + I2` and `FO >= F + F2` the product
    /// is exact.
    pub fn widening_mul<const I2: u32, const F2: u32, const IO: u32, const FO: u32>(
        self,
        rhs: Q<I2, F2>,
    ) -> (r: Q<IO, FO>)
        requires
            Self::valid(),
            Q::<I2, F2>::valid(),
            Q::<IO, FO>::valid(),
            IO + FO + 1 >= I + F + I2 + F2,
        ensures
            r@ == signed_wrap(rescale(self@ * rhs@, FO - (F + F2)), Q::<IO, FO>::width()),
            IO >= I + I2 && FO >= F + F2 ==> r@ == self@ * rhs@ * pow2((FO - F - F2) as nat),
    {
        let a = self.raw();
        let b = rhs.raw();
        proof {
            crate::bits::lemma_product_fits_i128(a, b);
        }
        let product = a as i128 * b as i128;
        let frac_in = F + F2;
        let shift: i32 = frac_in as i32 - FO as i32;
        let result = if shift > 0 {
            proof {
                lemma_i128_shr(product, shift as u32);
                lemma_i128_as_i64(product >> (shift as u32));
            }
            product >> (shift as u32)
        } else {
            proof {
                crate::bits::lemma_i128_shl_low_word(product, (-shift) as u32);
            }
            product << ((-shift) as u32)
        };
        proof {
            lemma_signed_wrap_wider(rescale(a * b, FO - (F + F2)), Q::<IO, FO>::width(), 64);
            if IO >= I + I2 && FO >= F + F2 {
                lemma_wide_product_fits(a as int, b as int, I as nat, F as nat, I2 as nat, F2 as nat, IO as nat, FO as nat);
                lemma_signed_wrap_fits(a * b * pow2((FO - F - F2) as nat), Q::<IO, FO>::width());
            }
        }
        Q::<IO, FO>::from_raw(result as i64)
    }

    // -----------------------------------------------------------------------
    // Proof helpers
    // -----------------------------------------------------------------------

    /// `count * 2^F` as a 128-bit numerator.
    fn widen_numerator(count: i64) -> (r: i128)
        requires
            Self::valid(),
        ensures
            r == count * pow2(F as nat),
    {
        proof {
            crate::bits::lemma_scaled_fits_i128(count, F);
        }
        (count as i128) << F
    }
}

/// `x` aligned by `shift` binary places in 128 bits: shifted left when
/// `shift >= 0`, arithmetically right otherwise.
fn align_i128(x: i64, shift: i32, Ghost(n): Ghost<nat>) -> (r: i128)
    requires
        -64 <= shift <= 64,
        1 <= n <= 64,
        fits_signed(x as int, n),
        n + shift <= 127,
    ensures
        r as int == rescale(x as int, shift as int),
        -0x4000_0000_0000_0000_0000_0000_0000_0000 <= r < 0x4000_0000_0000_0000_0000_0000_0000_0000,
{
    proof {
        crate::bits::lemma_pow2_128();
        lemma_pow2_halves(127);
        lemma_pow2_halves(n);
        assert(pow2(126) == 0x4000_0000_0000_0000_0000_0000_0000_0000);
    }
    if shift >= 0 {
        proof {
            crate::bits::lemma_scaled_fits_i128(x, shift as u32);
            lemma_aligned_bound(x as int, n, shift as nat);
        }
        (x as i128) << (shift as u32)
    } else {
        proof {
            lemma_i128_shr(x as i128, (-shift) as u32);
            lemma_shr_shrinks(x as int, (-shift) as nat);
            lemma2_to64_rest();
            lemma_pow2_le(63, 126);
        }
        (x as i128) >> ((-shift) as u32)
    }
}

/// A signed `n`-bit count scaled by `2^s`, with `n + s <= 127`, lies in
/// `[-2^126, 2^126)`.
proof fn lemma_aligned_bound(x: int, n: nat, s: nat)
    requires
        1 <= n,
        n + s <= 127,
        fits_signed(x, n),
    ensures
        -pow2(126) <= x * pow2(s) < pow2(126),
{
    lemma_pow2_halves(n);
    vstd::arithmetic::power2::lemma_pow2_adds((n - 1) as nat, s);
    lemma_pow2_le((n - 1 + s) as nat, 126);
    lemma_pow2_pos(s);
    let h = pow2((n - 1) as nat) as int;
    let p = pow2(s) as int;
    assert(-(h * p) <= x * p < h * p) by (nonlinear_arith)
        requires
            -h <= x < h,
            p > 0,
    ;
}

/// Flooring division by a power of two never grows the magnitude.
proof fn lemma_shr_shrinks(x: int, k: nat)
    ensures
        x >= 0 ==> 0 <= x / (pow2(k) as int) <= x,
        x < 0 ==> x <= x / (pow2(k) as int) < 0,
{
    lemma_pow2_pos(k);
    let d = pow2(k) as int;
    vstd::arithmetic::div_mod::lemma_fundamental_div_mod(x, d);
    vstd::arithmetic::div_mod::lemma_mod_bound(x, d);
    let q = x / d;
    let r = x % d;
    assert(x >= 0 ==> 0 <= q <= x) by (nonlinear_arith)
        requires
            x == d * q + r,
            0 <= r < d,
            d >= 1,
    ;
    assert(x < 0 ==> x <= q < 0) by (nonlinear_arith)
        requires
            x == d * q + r,
            0 <= r < d,
            d >= 1,
    ;
}

/// The sum of an `I + F`-bit count and a count of at most the same
/// magnitude, aligned to `FO >= F` fractional bits, fits in `IO + FO` bits
/// when `IO > I`.
proof fn lemma_wide_sum_fits(a: int, b: int, i: nat, f: nat, io: nat, fo: nat)
    requires
        1 <= i + f <= 64,
        1 <= io + fo <= 64,
        fits_signed(a, i + f),
        signed_lo(i + f) <= b <= -signed_lo(i + f),
        io > i,
        fo >= f,
    ensures
        fits_signed((a + b) * pow2((fo - f) as nat), io + fo),
{
    let n = i + f;
    let s = (fo - f) as nat;
    lemma_pow2_halves(n);
    lemma_pow2_halves(io + fo);
    lemma_pow2_pos(s);
    let h = pow2((n - 1) as nat) as int;
    let p = pow2(s) as int;
    let g = pow2((io + fo - 1) as nat) as int;
    vstd::arithmetic::power2::lemma_pow2_adds(n, s);
    assert(n + s == i + fo);
    lemma_pow2_le(n + s, (io + fo - 1) as nat);
    assert(2 * h * p <= g) by (nonlinear_arith)
        requires
            pow2(n) == 2 * h,
            pow2(n + s) == pow2(n) * pow2(s),
            pow2(n + s) <= g,
            p == pow2(s),
    ;
    assert(-g <= (a + b) * p <= g - 1) by (nonlinear_arith)
        requires
            -h <= a < h,
            -h <= b <= h,
            p >= 1,
            2 * h * p <= g,
    ;
}

/// The product of an `I + F`-bit and an `I2 + F2`-bit count, realigned to
/// `FO >= F + F2` fractional bits, fits in `IO + FO` bits when `IO >= I + I2`.
proof fn lemma_wide_product_fits(a: int, b: int, i: nat, f: nat, i2: nat, f2: nat, io: nat, fo: nat)
    requires
        1 <= i + f <= 64,
        1 <= i2 + f2 <= 64,
        1 <= io + fo <= 64,
        fits_signed(a, i + f),
        fits_signed(b, i2 + f2),
        io >= i + i2,
        fo >= f + f2,
    ensures
        fits_signed(a * b * pow2((fo - f - f2) as nat), io + fo),
{
    let n1 = i + f;
    let n2 = i2 + f2;
    let s = (fo - f - f2) as nat;
    lemma_pow2_halves(n1);
    lemma_pow2_halves(n2);
    lemma_pow2_halves(io + fo);
    lemma_pow2_pos(s);
    let h1 = pow2((n1 - 1) as nat) as int;
    let h2 = pow2((n2 - 1) as nat) as int;
    let p = pow2(s) as int;
    let g = pow2((io + fo - 1) as nat) as int;
    let e = ((n1 - 1) + (n2 - 1)) as nat;
    vstd::arithmetic::power2::lemma_pow2_adds((n1 - 1) as nat, (n2 - 1) as nat);
    vstd::arithmetic::power2::lemma_pow2_adds(e, s);
    assert(e + s < io + fo - 1);
    lemma_pow2_le(e + s + 1, (io + fo - 1) as nat);
    vstd::arithmetic::power2::lemma_pow2_unfold(e + s + 1);
    assert(2 * (h1 * h2 * p) <= g) by (nonlinear_arith)
        requires
            pow2(e) == h1 * h2,
            pow2(e + s) == pow2(e) * p,
            pow2(e + s + 1) == 2 * pow2(e + s),
            pow2(e + s + 1) <= g,
    ;
    assert(-(h1 * h2) <= a * b <= h1 * h2) by (nonlinear_arith)
        requires
            -h1 <= a < h1,
            -h2 <= b < h2,
            h1 > 0,
            h2 > 0,
    ;
    vstd::arithmetic::mul::lemma_mul_strictly_positive(h1, h2);
    assert(-g <= a * b * p <= g - 1) by (nonlinear_arith)
        requires
            -(h1 * h2) <= a * b <= h1 * h2,
            p >= 1,
            h1 * h2 >= 1,
            2 * (h1 * h2 * p) <= g,
    ;
}

impl<const I: u32, const F: u32> Q<I, F> {
    /// The value `from` gives for the whole number `v`: `v * 2^F` counts
    /// wrapped to `I + F` bits, or a zero word outside the usable formats.
    pub closed spec fn of_whole(v: int) -> Self {
        if Self::valid() {
            Q(signed_wrap(v * pow2(F as nat), Self::width()) as i64)
        } else {
            Q(0)
        }
    }

    /// The wrapped count of a whole number fits the backing word.
    proof fn lemma_whole_in_range(v: int)
        requires
            Self::valid(),
        ensures
            i64::MIN <= signed_wrap(v * pow2(F as nat), Self::width()) <= i64::MAX,
    {
        lemma_signed_wrap(v * pow2(F as nat), Self::width());
        lemma_pow2_halves(Self::width());
        lemma_pow2_le((Self::width() - 1) as nat, 63);
        lemma2_to64_rest();
    }

    /// The whole number `val` (that is, `val * 2^F` counts) wrapped to
    /// `I + F` bits. A type outside the usable formats yields a zero word.
    fn from_whole(val: i64) -> (r: Self)
        ensures
            Self::valid() ==> r@ == signed_wrap(val * pow2(F as nat), Self::width()),
            r == Self::of_whole(val as int),
    {
        proof {
            if Self::valid() {
                Self::lemma_whole_in_range(val as int);
            }
        }
        if I > 64 || F > 64 || I + F == 0 || I + F > 64 {
            return Q(0);
        }
        if F >= 64 {
            // All the bits of `val` are shifted out of the 64-bit word.
            proof {
                lemma2_to64_rest();
                crate::bits::lemma_signed_wrap_add_multiple(0, val as int, 64);
            }
            return Self::from_count(0);
        }
        proof {
            lemma_i64_shl(val, F);
            lemma_signed_wrap_wider(val * pow2(F as nat), Self::width(), 64);
        }
        Self::from_count(val << F)
    }
}

impl<const I: u32, const F: u32> Default for Q<I, F> {
    /// The value zero.
    fn default() -> (r: Self)
        ensures
            r@ == 0,
    {
        proof {
            if Self::valid() {
                lemma_pow2_halves(Self::width());
            }
        }
        Q(0)
    }
}

impl<const I: u32, const F: u32> From<i8> for Q<I, F> {
    /// The whole number `val`, wrapped to `I + F` bits.
    fn from(val: i8) -> (r: Self)
        ensures
            Self::valid() ==> r@ == signed_wrap(val * pow2(F as nat), Self::width()),
    {
        Self::from_whole(val as i64)
    }
}

impl<const I: u32, const F: u32> vstd::std_specs::convert::FromSpecImpl<i8> for Q<I, F> {
    open spec fn obeys_from_spec() -> bool {
        true
    }

    open spec fn from_spec(v: i8) -> Self {
        Self::of_whole(v as int)
    }
}

impl<const I: u32, const F: u32> From<i16> for Q<I, F> {
    /// The whole number `val`, wrapped to `I + F` bits.
    fn from(val: i16) -> (r: Self)
        ensures
            Self::valid() ==> r@ == signed_wrap(val * pow2(F as nat), Self::width()),
    {
        Self::from_whole(val as i64)
    }
}

impl<const I: u32, const F: u32> vstd::std_specs::convert::FromSpecImpl<i16> for Q<I, F> {
    open spec fn obeys_from_spec() -> bool {
        true
    }

    open spec fn from_spec(v: i16) -> Self {
        Self::of_whole(v as int)
    }
}

impl<const I: u32, const F: u32> From<i32> for Q<I, F> {
    /// The whole number `val`, wrapped to `I + F` bits.
    fn from(val: i32) -> (r: Self)
        ensures
            Self::valid() ==> r@ == signed_wrap(val * pow2(F as nat), Self::width()),
    {
        Self::from_whole(val as i64)
    }
}

impl<const I: u32, const F: u32> vstd::std_specs::convert::FromSpecImpl<i32> for Q<I, F> {
    open spec fn obeys_from_spec() -> bool {
        true
    }

    open spec fn from_spec(v: i32) -> Self {
        Self::of_whole(v as int)
    }
}

impl<const I: u32, const F: u32> From<i64> for Q<I, F> {
    /// The whole number `val`, wrapped to `I + F` bits.
    fn from(val: i64) -> (r: Self)
        ensures
            Self::valid() ==> r@ == signed_wrap(val * pow2(F as nat), Self::width()),
    {
        Self::from_whole(val as i64)
    }
}

impl<const I: u32, const F: u32> vstd::std_specs::convert::FromSpecImpl<i64> for Q<I, F> {
    open spec fn obeys_from_spec() -> bool {
        true
    }

    open spec fn from_spec(v: i64) -> Self {
        Self::of_whole(v as int)
    }
}

} // verus!
