//! Unsigned fixed-point type `UQ<I, F>`.

use vstd::prelude::*;
use vstd::arithmetic::power2::{pow2, lemma_pow2_pos, lemma2_to64_rest};
use crate::spec::{fits_unsigned, unsigned_hi, unsigned_wrap, signed_wrap, rescale, clamp};
use crate::bits::{lemma_pow2_le, lemma_unsigned_wrap, lemma_unsigned_wrap_wider,
    lemma_signed_wrap_wider, lemma_signed_wrap_add_multiple, lemma_one_shl, lemma_u64_shl,
    lemma_u128_shl, lemma_u128_shr, lemma_u128_as_u64, lemma_i128_as_i64, lemma_i128_shr,
    lemma_i128_shl, low_bits, mask_u64};
use crate::error::FixedError;
use crate::q::Q;

verus! {

/// Unsigned fixed-point number with `I` integer bits and `F` fractional bits,
/// backed by a `u64`.
///
/// The total bit width `I + F` must satisfy `1 <= I + F <= 64`. The value held
/// is `count * 2^-F`, where the *count* (the view `u@`) is the unsigned
/// register word.
#[derive(Clone, Copy, Debug, PartialEq, Eq, PartialOrd, Ord, Hash)]
pub struct UQ<const I: u32, const F: u32>(u64);

impl<const I: u32, const F: u32> View for UQ<I, F> {
    type V = int;

    /// The unsigned count of `2^-F` units.
    closed spec fn view(&self) -> int {
        self.0 as int
    }
}

impl<const I: u32, const F: u32> UQ<I, F> {
    /// Whether `UQ<I, F>` is a usable format: between 1 and 64 bits in total.
    pub open spec fn valid() -> bool {
        1 <= I + F <= 64
    }

    /// Total number of bits, `I + F`.
    pub open spec fn width() -> nat {
        (I + F) as nat
    }

    /// Every value of a usable format holds a count that fits its width.
    #[verifier::type_invariant]
    spec fn count_fits(self) -> bool {
        Self::valid() ==> fits_unsigned(self.0 as int, Self::width())
    }

    /// The value whose 64-bit unsigned count is `c`.
    pub closed spec fn of_count(c: int) -> Self {
        UQ(c as u64)
    }

    /// `of_count` builds the value of any 64-bit count.
    pub proof fn lemma_of_count(c: int)
        requires
            0 <= c <= u64::MAX,
        ensures
            Self::of_count(c)@ == c,
    {
    }

    /// Every value is the value of its own count.
    pub proof fn lemma_of_view(a: Self)
        ensures
            a == Self::of_count(a@),
    {
    }

    /// Values with the same count are the same value.
    pub proof fn lemma_same_count(a: Self, b: Self)
        requires
            a@ == b@,
        ensures
            a == b,
    {
    }

    /// Total number of integer bits.
    pub fn integer_bits() -> (r: u32)
        ensures
            r == I,
    {
        I
    }

    /// Total number of fractional bits.
    pub fn fractional_bits() -> (r: u32)
        ensures
            r == F,
    {
        F
    }

    /// Total number of bits, `I + F`.
    pub fn total_bits() -> (r: u32)
        requires
            I + F <= u32::MAX,
        ensures
            r == Self::width(),
    {
        I + F
    }

    /// The value zero (0.0).
    pub fn zero() -> (r: Self)
        ensures
            r@ == 0,
    {
        proof {
            lemma_pow2_pos(Self::width());
        }
        Self(0)
    }

    /// The value one (1.0); needs at least one integer bit.
    pub fn one() -> (r: Self)
        requires
            Self::valid(),
            I >= 1,
        ensures
            r@ == pow2(F as nat),
    {
        proof {
            lemma_one_shl(F);
            vstd::arithmetic::power2::lemma_pow2_strictly_increases(F as nat, Self::width());
        }
        Self(1u64 << F)
    }

    /// Maximum representable value, `2^I - 2^(-F)`: all bits set.
    pub fn max_value() -> (r: Self)
        requires
            Self::valid(),
        ensures
            r@ == unsigned_hi(Self::width()),
    {
        Self(low_bits(I + F))
    }

    /// Minimum representable value (zero).
    pub fn min_value() -> (r: Self)
        requires
            Self::valid(),
        ensures
            r@ == 0,
    {
        Self::zero()
    }

    /// The stored count, with the range fact that the type maintains.
    pub(crate) fn raw(self) -> (r: u64)
        ensures
            r == self@,
            Self::valid() ==> fits_unsigned(r as int, Self::width()),
    {
        proof {
            use_type_invariant(&self);
        }
        self.0
    }

    /// Builds a value from a 64-bit word, keeping its low `I + F` bits.
    pub(crate) fn from_raw(raw: u64) -> (r: Self)
        requires
            Self::valid(),
        ensures
            r@ == unsigned_wrap(raw as int, Self::width()),
    {
        let v = mask_u64(raw, I + F);
        proof {
            lemma_unsigned_wrap(raw as int, Self::width());
        }
        Self(v)
    }

    /// Constructs from a raw bit pattern, which must already fit in the low
    /// `I + F` bits.
    pub fn from_bits(raw: u64) -> (r: Self)
        requires
            Self::valid(),
            fits_unsigned(raw as int, Self::width()),
        ensures
            r@ == raw,
    {
        proof {
            lemma_unsigned_wrap(raw as int, Self::width());
        }
        Self::from_raw(raw)
    }

    /// Extracts the raw bit pattern.
    pub fn to_bits(self) -> (r: u64)
        ensures
            r == self@,
            Self::valid() ==> fits_unsigned(r as int, Self::width()),
    {
        proof {
            use_type_invariant(&self);
        }
        self.0
    }

    /// Constructs from an unsigned count of `2^-F` units; an out-of-range
    /// count wraps to `I + F` bits like an RTL register.
    pub fn from_count(count: u64) -> (r: Self)
        requires
            Self::valid(),
        ensures
            r@ == unsigned_wrap(count as int, Self::width()),
    {
        Self::from_raw(count)
    }

    /// Constructs from an unsigned count of `2^-F` units, returning
    /// `OutOfRange` instead of wrapping when the count exceeds `MAX`.
    pub fn try_from_count(count: u64) -> (r: Result<Self, FixedError>)
        requires
            Self::valid(),
        ensures
            fits_unsigned(count as int, Self::width()) <==> r is Ok,
            r is Ok ==> r->Ok_0@ == count,
            r is Err ==> r->Err_0 == FixedError::OutOfRange,
    {
        if count <= Self::max_value().0 {
            proof {
                lemma_unsigned_wrap(count as int, Self::width());
            }
            Ok(Self::from_raw(count))
        } else {
            Err(FixedError::OutOfRange)
        }
    }

    /// The value as an unsigned count of `2^-F` units.
    pub fn to_count(self) -> (r: u64)
        ensures
            r == self@,
    {
        self.0
    }

    /// Constructs from an integer: `val` whole units, which must fit in `I`
    /// integer bits.
    pub fn from_int(val: u64) -> (r: Self)
        requires
            Self::valid(),
            F < 64,
            fits_unsigned(val as int, I as nat),
        ensures
            r@ == val * pow2(F as nat),
    {
        let shifted = val << F;
        proof {
            lemma_u64_shl(val, F);
            lemma_exact_fits(val as int, I as nat, F as nat, Self::width());
            crate::bits::lemma_fits_unsigned_wider(val * pow2(F as nat), Self::width(), 64);
            lemma_unsigned_wrap(val * pow2(F as nat), 64);
        }
        Self::from_bits(shifted)
    }

    /// The integer part, rounding down.
    pub fn to_int(self) -> (r: u64)
        requires
            F < 64,
        ensures
            r == self@ / (pow2(F as nat) as int),
    {
        proof {
            crate::bits::lemma_u64_shr(self.0, F);
        }
        self.0 >> F
    }

    /// The smaller of `self` and `other`.
    pub fn min(self, other: Self) -> (r: Self)
        ensures
            r == (if self@ < other@ { self } else { other }),
    {
        if self.0 < other.0 {
            self
        } else {
            other
        }
    }

    /// The larger of `self` and `other`.
    pub fn max(self, other: Self) -> (r: Self)
        ensures
            r == (if self@ > other@ { self } else { other }),
    {
        if self.0 > other.0 {
            self
        } else {
            other
        }
    }

    /// `self` clamped to `[lo, hi]` (as `self.max(lo).min(hi)`).
    pub fn clamp(self, lo: Self, hi: Self) -> (r: Self)
        ensures
            r@ == (if lo@ <= hi@ { clamp(self@, lo@, hi@) } else { hi@ }),
    {
        self.max(lo).min(hi)
    }

    /// Wrapping addition: the exact sum modulo `2^(I+F)`.
    pub fn wrapping_add(self, rhs: Self) -> (r: Self)
        requires
            Self::valid(),
        ensures
            r@ == unsigned_wrap(self@ + rhs@, Self::width()),
    {
        let s = self.raw().wrapping_add(rhs.raw());
        proof {
            crate::bits::lemma_u64_wrapping_add(self@ as u64, rhs@ as u64);
            lemma_unsigned_wrap_wider(self@ + rhs@, Self::width(), 64);
        }
        Self::from_raw(s)
    }

    /// Wrapping subtraction: the exact difference modulo `2^(I+F)`.
    pub fn wrapping_sub(self, rhs: Self) -> (r: Self)
        requires
            Self::valid(),
        ensures
            r@ == unsigned_wrap(self@ - rhs@, Self::width()),
    {
        let d = self.raw().wrapping_sub(rhs.raw());
        proof {
            crate::bits::lemma_u64_wrapping_sub(self@ as u64, rhs@ as u64);
            lemma_unsigned_wrap_wider(self@ - rhs@, Self::width(), 64);
        }
        Self::from_raw(d)
    }

    /// Wrapping same-type multiply: `(self * rhs) >> F`, truncated to
    /// `I + F` bits. The full product is computed in 128 bits.
    pub fn wrapping_mul(self, rhs: Self) -> (r: Self)
        requires
            Self::valid(),
        ensures
            r@ == unsigned_wrap((self@ * rhs@) / (pow2(F as nat) as int), Self::width()),
    {
        let a = self.raw();
        let b = rhs.raw();
        proof {
            crate::bits::lemma_u64_product_fits(a, b);
        }
        let product = a as u128 * b as u128;
        let shifted = product >> F;
        proof {
            lemma_u128_shr(product, F);
            lemma_u128_as_u64(shifted);
            lemma_unsigned_wrap_wider(shifted as int, Self::width(), 64);
        }
        Self::from_raw(shifted as u64)
    }

    /// Wrapping same-type divide: `(self << F) / rhs`, truncated to `I + F`
    /// bits. The numerator is widened to 128 bits; the divisor must be
    /// non-zero.
    pub fn wrapping_div(self, rhs: Self) -> (r: Self)
        requires
            Self::valid(),
            rhs@ != 0,
        ensures
            r@ == unsigned_wrap((self@ * pow2(F as nat)) / rhs@, Self::width()),
    {
        let a = self.raw();
        proof {
            crate::bits::lemma_u64_scaled_fits(a, F);
        }
        let numer = (a as u128) << F;
        let result = numer / rhs.raw() as u128;
        proof {
            lemma_u128_as_u64(result);
            lemma_unsigned_wrap_wider(result as int, Self::width(), 64);
        }
        Self::from_raw(result as u64)
    }

    /// Checked same-type divide: `(self << F) / rhs`, or `None` when `rhs` is
    /// zero.
    pub fn checked_div(self, rhs: Self) -> (r: Option<Self>)
        requires
            Self::valid(),
        ensures
            r is None <==> rhs@ == 0,
            r is Some ==> r->0@ == unsigned_wrap((self@ * pow2(F as nat)) / rhs@, Self::width()),
    {
        if rhs.raw() == 0 {
            None
        } else {
            Some(self.wrapping_div(rhs))
        }
    }

    /// Saturating addition: the exact sum clamped to `MAX`.
    pub fn saturating_add(self, rhs: Self) -> (r: Self)
        requires
            Self::valid(),
        ensures
            r@ == clamp(self@ + rhs@, 0, unsigned_hi(Self::width())),
    {
        let a = self.raw();
        let b = rhs.raw();
        if I + F >= 64 {
            proof {
                lemma2_to64_rest();
            }
            Self(a.saturating_add(b))
        } else {
            let sum = a as u128 + b as u128;
            let max = Self::max_value();
            if sum > max.raw() as u128 {
                max
            } else {
                proof {
                    lemma_unsigned_wrap(sum as int, Self::width());
                }
                Self::from_raw(sum as u64)
            }
        }
    }

    /// Saturating subtraction: the exact difference clamped to zero.
    pub fn saturating_sub(self, rhs: Self) -> (r: Self)
        requires
            Self::valid(),
        ensures
            r@ == clamp(self@ - rhs@, 0, unsigned_hi(Self::width())),
    {
        if rhs.raw() > self.raw() {
            Self::zero()
        } else {
            proof {
                lemma_unsigned_wrap(self@ - rhs@, Self::width());
            }
            Self::from_raw(self.raw() - rhs.raw())
        }
    }

    /// Saturating same-type multiply: `(self * rhs) >> F` clamped to `MAX`.
    pub fn saturating_mul(self, rhs: Self) -> (r: Self)
        requires
            Self::valid(),
        ensures
            r@ == clamp((self@ * rhs@) / (pow2(F as nat) as int), 0, unsigned_hi(Self::width())),
    {
        let a = self.raw();
        let b = rhs.raw();
        proof {
            crate::bits::lemma_u64_product_fits(a, b);
        }
        let product = a as u128 * b as u128;
        let shifted = product >> F;
        proof {
            lemma_u128_shr(product, F);
        }
        let max = Self::max_value();
        if shifted > max.raw() as u128 {
            max
        } else {
            proof {
                lemma_unsigned_wrap(shifted as int, Self::width());
            }
            Self::from_raw(shifted as u64)
        }
    }

    /// Widening addition into `UQ<IO, FO>`, which must be wider than the
    /// input. The operands are first aligned to `FO` fractional bits (a right
    /// shift when `FO < F`), then added; the sum is kept to `IO + FO` bits.
    pub fn widening_add<const IO: u32, const FO: u32>(self, rhs: Self) -> (r: UQ<IO, FO>)
        requires
            Self::valid(),
            UQ::<IO, FO>::valid(),
            IO + FO > I + F,
        ensures
            r@ == unsigned_wrap(rescale(self@, FO - F) + rescale(rhs@, FO - F), UQ::<IO, FO>::width()),
            IO > I && FO >= F ==> r@ == (self@ + rhs@) * pow2((FO - F) as nat),
    {
        let shift: i32 = FO as i32 - F as i32;
        let a = align_u128(self.raw(), shift, Ghost(Self::width()));
        let b = align_u128(rhs.raw(), shift, Ghost(Self::width()));
        proof {
            crate::bits::lemma_pow2_128();
            lemma_pow2_le((I + FO) as nat, 127);
        }
        let sum = a + b;
        proof {
            lemma_u128_as_u64(sum);
            lemma_unsigned_wrap_wider(sum as int, UQ::<IO, FO>::width(), 64);
            if IO > I && FO >= F {
                let p = pow2((FO - F) as nat) as int;
                vstd::arithmetic::mul::lemma_mul_is_distributive_add_other_way(p, self@, rhs@);
                crate::bits::lemma_pow2_halves((I + F + 1) as nat);
                lemma_exact_fits(self@ + rhs@, (I + F + 1) as nat, (FO - F) as nat,
                    UQ::<IO, FO>::width());
                lemma_unsigned_wrap((self@ + rhs@) * p, UQ::<IO, FO>::width());
            }
        }
        UQ::<IO, FO>::from_raw(sum as u64)
    }

    /// Widening subtraction into the signed `Q<IO, FO>`, which must be wider
    /// than the input. The operands are aligned to `FO` fractional bits and
    /// subtracted; the difference is kept to `IO + FO` bits.
    pub fn widening_sub<const IO: u32, const FO: u32>(self, rhs: Self) -> (r: Q<IO, FO>)
        requires
            Self::valid(),
            Q::<IO, FO>::valid(),
            IO + FO > I + F,
        ensures
            r@ == signed_wrap(rescale(self@, FO - F) - rescale(rhs@, FO - F), Q::<IO, FO>::width()),
            IO > I && FO >= F ==> r@ == (self@ - rhs@) * pow2((FO - F) as nat),
    {
        let shift: i32 = FO as i32 - F as i32;
        let a = align_u128(self.raw(), shift, Ghost(Self::width()));
        let b = align_u128(rhs.raw(), shift, Ghost(Self::width()));
        proof {
            crate::bits::lemma_pow2_128();
            lemma_pow2_le((I + FO) as nat, 127);
        }
        let diff = a as i128 - b as i128;
        proof {
            lemma_i128_as_i64(diff);
            lemma_signed_wrap_wider(diff as int, Q::<IO, FO>::width(), 64);
            if IO > I && FO >= F {
                let p = pow2((FO - F) as nat) as int;
                vstd::arithmetic::mul::lemma_mul_is_distributive_sub_other_way(p, self@, rhs@);
                lemma_exact_diff_fits(self@, rhs@, Self::width(), (FO - F) as nat,
                    Q::<IO, FO>::width());
                crate::bits::lemma_signed_wrap_fits((self@ - rhs@) * p, Q::<IO, FO>::width());
            }
        }
        Q::<IO, FO>::from_count(diff as i64)
    }

    /// Widening multiply into `UQ<IO, FO>`, which must hold at least
    /// `I + F + I2 + F2` bits. The full product is realigned from `F + F2` to
    /// `FO` fractional bits and kept to `IO + FO` bits.
    pub fn widening_mul<const I2: u32, const F2: u32, const IO: u32, const FO: u32>(
        self,
        rhs: UQ<I2, F2>,
    ) -> (r: UQ<IO, FO>)
        requires
            Self::valid(),
            UQ::<I2, F2>::valid(),
            UQ::<IO, FO>::valid(),
            IO + FO >= I + F + I2 + F2,
        ensures
            r@ == unsigned_wrap(rescale(self@ * rhs@, FO - (F + F2)), UQ::<IO, FO>::width()),
            IO >= I + I2 && FO >= F + F2 ==> r@ == self@ * rhs@ * pow2((FO - F - F2) as nat),
    {
        let a = self.raw();
        let b = rhs.raw();
        proof {
            crate::bits::lemma_narrow_product_fits(a, b, Self::width(), UQ::<I2, F2>::width());
        }
        let product = a as u128 * b as u128;
        let frac_in = F + F2;
        let shift: i32 = frac_in as i32 - FO as i32;
        let result = if shift > 0 {
            proof {
                lemma_u128_shr(product, shift as u32);
            }
            product >> (shift as u32)
        } else {
            proof {
                lemma_pow2_le((-shift) as nat, 64);
                lemma2_to64_rest();
                assert(product * pow2((-shift) as nat) <= u128::MAX) by (nonlinear_arith)
                    requires
                        product < 0x1_0000_0000_0000_0000,
                        pow2((-shift) as nat) <= 0x1_0000_0000_0000_0000,
                ;
                lemma_u128_shl(product, (-shift) as u32);
            }
            product << ((-shift) as u32)
        };
        proof {
            lemma_u128_as_u64(result);
            lemma_unsigned_wrap_wider(result as int, UQ::<IO, FO>::width(), 64);
            if IO >= I + I2 && FO >= F + F2 {
                crate::bits::lemma_pow2_adds_bound(a as int, b as int, Self::width(),
                    UQ::<I2, F2>::width());
                lemma_exact_fits(a * b, (Self::width() + UQ::<I2, F2>::width()) as nat,
                    (FO - F - F2) as nat, UQ::<IO, FO>::width());
                lemma_unsigned_wrap(a * b * pow2((FO - F - F2) as nat), UQ::<IO, FO>::width());
            }
        }
        UQ::<IO, FO>::from_raw(result as u64)
    }
}

/// `x` aligned by `shift` binary places in 128 bits: shifted left when
/// `shift >= 0`, right otherwise.
fn align_u128(x: u64, shift: i32, Ghost(n): Ghost<nat>) -> (r: u128)
    requires
        -64 <= shift <= 64,
        x < pow2(n),
        0 <= n + shift <= 127,
    ensures
        r as int == rescale(x as int, shift as int),
        r < pow2((n + shift) as nat),
{
    if shift >= 0 {
        proof {
            crate::bits::lemma_shifted_bound(x as int, n, shift as nat);
            crate::bits::lemma_pow2_128();
            lemma_pow2_le((n + shift) as nat, 127);
            lemma_u128_shl(x as u128, shift as u32);
        }
        (x as u128) << (shift as u32)
    } else {
        proof {
            lemma_u128_shr(x as u128, (-shift) as u32);
            crate::bits::lemma_divided_bound(x as int, n, (-shift) as nat);
        }
        (x as u128) >> ((-shift) as u32)
    }
}

impl<const I: u32, const F: u32> UQ<I, F> {
    /// The value `from` gives for the whole number `v`: `v * 2^F` counts
    /// wrapped to `I + F` bits, or a zero word outside the usable formats.
    pub closed spec fn of_whole(v: int) -> Self {
        if Self::valid() {
            UQ(unsigned_wrap(v * pow2(F as nat), Self::width()) as u64)
        } else {
            UQ(0)
        }
    }

    /// The wrapped count of a whole number fits the backing word.
    proof fn lemma_whole_in_range(v: int)
        requires
            Self::valid(),
        ensures
            0 <= unsigned_wrap(v * pow2(F as nat), Self::width()) <= u64::MAX,
    {
        lemma_unsigned_wrap(v * pow2(F as nat), Self::width());
        lemma_pow2_le(Self::width(), 64);
        lemma2_to64_rest();
    }

    /// The whole number `val` (that is, `val * 2^F` counts) wrapped to
    /// `I + F` bits. A type outside the usable formats yields a zero word.
    fn from_whole(val: u64) -> (r: Self)
        ensures
            Self::valid() ==> r@ == unsigned_wrap(val * pow2(F as nat), Self::width()),
            r == Self::of_whole(val as int),
    {
        proof {
            if Self::valid() {
                Self::lemma_whole_in_range(val as int);
            }
        }
        if I > 64 || F > 64 || I + F == 0 || I + F > 64 {
            return UQ(0);
        }
        if F >= 64 {
            // All the bits of `val` are shifted out of the 64-bit word.
            proof {
                lemma2_to64_rest();
                lemma_signed_wrap_add_multiple(0, val as int, 64);
            }
            return Self::from_count(0);
        }
        proof {
            lemma_u64_shl(val, F);
            lemma_unsigned_wrap_wider(val * pow2(F as nat), Self::width(), 64);
        }
        Self::from_count(val << F)
    }
}

impl<const I: u32, const F: u32> Default for UQ<I, F> {
    /// The value zero.
    fn default() -> (r: Self)
        ensures
            r@ == 0,
    {
        proof {
            lemma_pow2_pos(Self::width());
        }
        UQ(0)
    }
}

impl<const I: u32, const F: u32> From<u8> for UQ<I, F> {
    /// The whole number `val`, wrapped to `I + F` bits.
    fn from(val: u8) -> (r: Self)
        ensures
            Self::valid() ==> r@ == unsigned_wrap(val * pow2(F as nat), Self::width()),
    {
        Self::from_whole(val as u64)
    }
}

impl<const I: u32, const F: u32> vstd::std_specs::convert::FromSpecImpl<u8> for UQ<I, F> {
    open spec fn obeys_from_spec() -> bool {
        true
    }

    open spec fn from_spec(v: u8) -> Self {
        Self::of_whole(v as int)
    }
}

impl<const I: u32, const F: u32> From<u16> for UQ<I, F> {
    /// The whole number `val`, wrapped to `I + F` bits.
    fn from(val: u16) -> (r: Self)
        ensures
            Self::valid() ==> r@ == unsigned_wrap(val * pow2(F as nat), Self::width()),
    {
        Self::from_whole(val as u64)
    }
}

impl<const I: u32, const F: u32> vstd::std_specs::convert::FromSpecImpl<u16> for UQ<I, F> {
    open spec fn obeys_from_spec() -> bool {
        true
    }

    open spec fn from_spec(v: u16) -> Self {
        Self::of_whole(v as int)
    }
}

impl<const I: u32, const F: u32> From<u32> for UQ<I, F> {
    /// The whole number `val`, wrapped to `I + F` bits.
    fn from(val: u32) -> (r: Self)
        ensures
            Self::valid() ==> r@ == unsigned_wrap(val * pow2(F as nat), Self::width()),
    {
        Self::from_whole(val as u64)
    }
}

impl<const I: u32, const F: u32> vstd::std_specs::convert::FromSpecImpl<u32> for UQ<I, F> {
    open spec fn obeys_from_spec() -> bool {
        true
    }

    open spec fn from_spec(v: u32) -> Self {
        Self::of_whole(v as int)
    }
}

impl<const I: u32, const F: u32> From<u64> for UQ<I, F> {
    /// The whole number `val`, wrapped to `I + F` bits.
    fn from(val: u64) -> (r: Self)
        ensures
            Self::valid() ==> r@ == unsigned_wrap(val * pow2(F as nat), Self::width()),
    {
        Self::from_whole(val as u64)
    }
}

impl<const I: u32, const F: u32> vstd::std_specs::convert::FromSpecImpl<u64> for UQ<I, F> {
    open spec fn obeys_from_spec() -> bool {
        true
    }

    open spec fn from_spec(v: u64) -> Self {
        Self::of_whole(v as int)
    }
}

/// A count below `2^n`, scaled by `2^s`, fits an unsigned `m`-bit word when
/// `n + s <= m`.
proof fn lemma_exact_fits(x: int, n: nat, s: nat, m: nat)
    requires
        0 <= x < pow2(n),
        n + s <= m,
    ensures
        fits_unsigned(x * pow2(s), m),
{
    crate::bits::lemma_shifted_bound(x, n, s);
    lemma_pow2_le(n + s, m);
}

/// The difference of two unsigned `n`-bit counts, scaled by `2^s`, fits a
/// signed `m`-bit word when `n + s < m`.
proof fn lemma_exact_diff_fits(a: int, b: int, n: nat, s: nat, m: nat)
    requires
        0 <= a < pow2(n),
        0 <= b < pow2(n),
        n + s < m,
    ensures
        crate::spec::fits_signed((a - b) * pow2(s), m),
{
    lemma_pow2_pos(s);
    vstd::arithmetic::power2::lemma_pow2_adds(n, s);
    lemma_pow2_le(n + s, (m - 1) as nat);
    crate::bits::lemma_pow2_halves(m);
    let p = pow2(s) as int;
    let q = pow2(n) as int;
    assert(-(q * p) < (a - b) * p < q * p) by (nonlinear_arith)
        requires
            -q < a - b < q,
            p > 0,
    ;
}

} // verus!
