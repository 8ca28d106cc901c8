//! Signed complex fixed-point type `CQ<I, F>`.

use vstd::prelude::*;
use vstd::arithmetic::power2::{pow2, lemma2_to64_rest};
use crate::spec::{signed_lo, signed_hi, fits_signed, fits_unsigned, signed_wrap, unsigned_wrap, clamp};
use crate::bits::{lemma_pow2_halves, lemma_pow2_le, lemma_signed_wrap_fits, lemma_signed_wrap_wider,
    lemma_i128_shr, lemma_i128_as_i64, lemma_product_fits_i128};
use crate::error::FixedError;
use crate::q::Q;

verus! {

/// Signed complex fixed-point number: a real and an imaginary `Q<I, F>`.
///
/// Both components share the `Q<I, F>` format, so a value takes two `i64`
/// registers whatever its width: a bit-accurate model of IQ samples and
/// complex datapaths, not a packed wire format. Complex numbers have no
/// total order, so `CQ` has no `Ord`.
///
/// Bit growth: addition and subtraction grow by one integer bit like `Q`; a
/// complex product grows by one integer bit more than a real one, since each
/// component is a sum or difference of two full products,
/// `(a + bi)(c + di) = (ac - bd) + (ad + bc)i`.
#[derive(Clone, Copy, Debug, PartialEq, Eq, Hash)]
pub struct CQ<const I: u32, const F: u32> {
    /// The real part.
    pub re: Q<I, F>,
    /// The imaginary part.
    pub im: Q<I, F>,
}

impl<const I: u32, const F: u32> Default for CQ<I, F> {
    /// The value zero, `0 + 0i`.
    fn default() -> (r: Self)
        ensures
            r@ == (0int, 0int),
    {
        CQ { re: Q::default(), im: Q::default() }
    }
}

impl<const I: u32, const F: u32> View for CQ<I, F> {
    type V = (int, int);

    /// The counts of the real and the imaginary part.
    open spec fn view(&self) -> (int, int) {
        (self.re@, self.im@)
    }
}

/// The real part's count of the product of two complex counts,
/// `ac - bd`, before any rescaling.
pub open spec fn cmul_re(a: (int, int), b: (int, int)) -> int {
    a.0 * b.0 - a.1 * b.1
}

/// The imaginary part's count of the product of two complex counts,
/// `ad + bc`, before any rescaling.
pub open spec fn cmul_im(a: (int, int), b: (int, int)) -> int {
    a.0 * b.1 + a.1 * b.0
}

impl<const I: u32, const F: u32> CQ<I, F> {
    /// Whether the component format `Q<I, F>` is usable.
    pub open spec fn valid() -> bool {
        Q::<I, F>::valid()
    }

    /// Bits of each component, `I + F`.
    pub open spec fn width() -> nat {
        Q::<I, F>::width()
    }

    /// Integer bits of each component (including the sign bit).
    pub fn integer_bits() -> (r: u32)
        ensures
            r == I,
    {
        I
    }

    /// Fractional bits of each component.
    pub fn fractional_bits() -> (r: u32)
        ensures
            r == F,
    {
        F
    }

    /// Bits of each component, `I + F`.
    pub fn total_bits() -> (r: u32)
        requires
            I + F <= u32::MAX,
        ensures
            r == Self::width(),
    {
        I + F
    }

    /// The value zero, `0 + 0i`.
    pub fn zero() -> (r: Self)
        ensures
            r@ == (0int, 0int),
    {
        Self { re: Q::zero(), im: Q::zero() }
    }

    /// The real unit, `1 + 0i`; needs an integer bit besides the sign.
    pub fn one() -> (r: Self)
        requires
            Self::valid(),
            I > 1,
        ensures
            r@ == (pow2(F as nat) as int, 0int),
    {
        Self { re: Q::one(), im: Q::zero() }
    }

    /// The imaginary unit, `0 + 1i` (named after the engineering
    /// convention); needs an integer bit besides the sign.
    pub fn j() -> (r: Self)
        requires
            Self::valid(),
            I > 1,
        ensures
            r@ == (0int, pow2(F as nat) as int),
    {
        Self { re: Q::zero(), im: Q::one() }
    }

    /// Constructs from real and imaginary parts.
    pub fn new(re: Q<I, F>, im: Q<I, F>) -> (r: Self)
        ensures
            r.re == re,
            r.im == im,
    {
        Self { re, im }
    }

    /// A purely real value: the imaginary part is zero.
    pub fn from_re(re: Q<I, F>) -> (r: Self)
        requires
            Self::valid(),
        ensures
            r.re == re,
            r.im@ == 0,
    {
        Self { re, im: Q::zero() }
    }

    /// Constructs from the raw bit patterns of both parts, each of which must
    /// fit in the low `I + F` bits, sign-extending them; the inverse of
    /// [`to_bits`](Self::to_bits).
    pub fn from_bits(re: u64, im: u64) -> (r: Self)
        requires
            Self::valid(),
            fits_unsigned(re as int, Self::width()),
            fits_unsigned(im as int, Self::width()),
        ensures
            r@ == (signed_wrap(re as int, Self::width()), signed_wrap(im as int, Self::width())),
    {
        Self { re: Q::from_bits(re), im: Q::from_bits(im) }
    }

    /// The raw bit patterns of both parts: the low `I + F` bits of each
    /// two's-complement word.
    pub fn to_bits(self) -> (r: (u64, u64))
        requires
            Self::valid(),
        ensures
            r.0 as int == unsigned_wrap(self.re@, Self::width()),
            r.1 as int == unsigned_wrap(self.im@, Self::width()),
            signed_wrap(r.0 as int, Self::width()) == self.re@,
            signed_wrap(r.1 as int, Self::width()) == self.im@,
    {
        (self.re.to_bits(), self.im.to_bits())
    }

    /// Constructs from signed counts of `2^-F` units, each of which must lie
    /// in `[MIN, MAX]`; the exact inverse of [`to_count`](Self::to_count).
    pub fn from_count(re: i64, im: i64) -> (r: Self)
        requires
            Self::valid(),
            fits_signed(re as int, Self::width()),
            fits_signed(im as int, Self::width()),
        ensures
            r@ == (re as int, im as int),
    {
        proof {
            lemma_signed_wrap_fits(re as int, Self::width());
            lemma_signed_wrap_fits(im as int, Self::width());
        }
        Self { re: Q::from_count(re), im: Q::from_count(im) }
    }

    /// Constructs from signed counts, returning `OutOfRange` when either
    /// count lies outside `[MIN, MAX]`.
    pub fn try_from_count(re: i64, im: i64) -> (r: Result<Self, FixedError>)
        requires
            Self::valid(),
        ensures
            r is Ok <==> fits_signed(re as int, Self::width()) && fits_signed(im as int, Self::width()),
            r is Ok ==> r->Ok_0@ == (re as int, im as int),
            r is Err ==> r->Err_0 == FixedError::OutOfRange,
    {
        match Q::<I, F>::try_from_count(re) {
            Ok(r) => match Q::<I, F>::try_from_count(im) {
                Ok(i) => Ok(Self { re: r, im: i }),
                Err(e) => Err(e),
            },
            Err(e) => Err(e),
        }
    }

    /// The signed counts of both parts; the inverse of
    /// [`from_count`](Self::from_count).
    pub fn to_count(self) -> (r: (i64, i64))
        ensures
            r.0 == self.re@,
            r.1 == self.im@,
    {
        (self.re.to_count(), self.im.to_count())
    }

    /// Componentwise wrapping addition.
    pub fn wrapping_add(self, rhs: Self) -> (r: Self)
        requires
            Self::valid(),
        ensures
            r@ == (signed_wrap(self.re@ + rhs.re@, Self::width()), signed_wrap(
                self.im@ + rhs.im@,
                Self::width(),
            )),
    {
        Self { re: self.re.wrapping_add(rhs.re), im: self.im.wrapping_add(rhs.im) }
    }

    /// Componentwise wrapping subtraction.
    pub fn wrapping_sub(self, rhs: Self) -> (r: Self)
        requires
            Self::valid(),
        ensures
            r@ == (signed_wrap(self.re@ - rhs.re@, Self::width()), signed_wrap(
                self.im@ - rhs.im@,
                Self::width(),
            )),
    {
        Self { re: self.re.wrapping_sub(rhs.re), im: self.im.wrapping_sub(rhs.im) }
    }

    /// Componentwise wrapping negation (`MIN` stays `MIN`).
    pub fn wrapping_neg(self) -> (r: Self)
        requires
            Self::valid(),
        ensures
            r@ == (signed_wrap(-self.re@, Self::width()), signed_wrap(-self.im@, Self::width())),
    {
        Self { re: self.re.wrapping_neg(), im: self.im.wrapping_neg() }
    }

    /// The two 128-bit product components `ac - bd` and `ad + bc`.
    fn product_counts(self, rhs: Self) -> (r: (i128, i128))
        requires
            Self::valid(),
            cmul_im(self@, rhs@) <= i128::MAX,
        ensures
            r.0 as int == cmul_re(self@, rhs@),
            r.1 as int == cmul_im(self@, rhs@),
    {
        let a = self.re.raw() as i128;
        let b = self.im.raw() as i128;
        let c = rhs.re.raw() as i128;
        let d = rhs.im.raw() as i128;
        proof {
            lemma_product_fits_i128(a as i64, c as i64);
            lemma_product_fits_i128(b as i64, d as i64);
            lemma_product_fits_i128(a as i64, d as i64);
            lemma_product_fits_i128(b as i64, c as i64);
            assert(-0x8000_0000_0000_0000_0000_0000_0000_0000 < a * c - b * d
                < 0x8000_0000_0000_0000_0000_0000_0000_0000) by (nonlinear_arith)
                requires
                    -0x8000_0000_0000_0000 <= a < 0x8000_0000_0000_0000,
                    -0x8000_0000_0000_0000 <= b < 0x8000_0000_0000_0000,
                    -0x8000_0000_0000_0000 <= c < 0x8000_0000_0000_0000,
                    -0x8000_0000_0000_0000 <= d < 0x8000_0000_0000_0000,
            ;
            assert(-0x8000_0000_0000_0000_0000_0000_0000_0000 < a * d + b * c) by (nonlinear_arith)
                requires
                    -0x8000_0000_0000_0000 <= a < 0x8000_0000_0000_0000,
                    -0x8000_0000_0000_0000 <= b < 0x8000_0000_0000_0000,
                    -0x8000_0000_0000_0000 <= c < 0x8000_0000_0000_0000,
                    -0x8000_0000_0000_0000 <= d < 0x8000_0000_0000_0000,
            ;
        }
        (a * c - b * d, a * d + b * c)
    }

    /// Wrapping same-type complex multiply: each component of
    /// `(ac - bd) + (ad + bc)i` is computed in 128 bits, shifted right by `F`
    /// and wrapped to `I + F` bits. The one imaginary part that overflows 128
    /// bits (every component `-2^63`) is excluded.
    pub fn wrapping_mul(self, rhs: Self) -> (r: Self)
        requires
            Self::valid(),
            cmul_im(self@, rhs@) <= i128::MAX,
        ensures
            r@ == (signed_wrap(cmul_re(self@, rhs@) / (pow2(F as nat) as int), Self::width()),
                signed_wrap(cmul_im(self@, rhs@) / (pow2(F as nat) as int), Self::width())),
    {
        let (re, im) = self.product_counts(rhs);
        let re_s = re >> F;
        let im_s = im >> F;
        proof {
            lemma_i128_shr(re, F);
            lemma_i128_shr(im, F);
            lemma_i128_as_i64(re_s);
            lemma_i128_as_i64(im_s);
            lemma_signed_wrap_wider(re_s as int, Self::width(), 64);
            lemma_signed_wrap_wider(im_s as int, Self::width(), 64);
        }
        Self { re: Q::from_raw(re_s as i64), im: Q::from_raw(im_s as i64) }
    }

    /// Same-width conjugate: the imaginary part is negated with wrapping.
    pub fn wrapping_conj(self) -> (r: Self)
        requires
            Self::valid(),
        ensures
            r@ == (self.re@, signed_wrap(-self.im@, Self::width())),
    {
        Self { re: self.re, im: self.im.wrapping_neg() }
    }

    /// Componentwise saturating addition.
    pub fn saturating_add(self, rhs: Self) -> (r: Self)
        requires
            Self::valid(),
        ensures
            r@ == (clamp(self.re@ + rhs.re@, signed_lo(Self::width()), signed_hi(Self::width())),
                clamp(self.im@ + rhs.im@, signed_lo(Self::width()), signed_hi(Self::width()))),
    {
        Self { re: self.re.saturating_add(rhs.re), im: self.im.saturating_add(rhs.im) }
    }

    /// Componentwise saturating subtraction.
    pub fn saturating_sub(self, rhs: Self) -> (r: Self)
        requires
            Self::valid(),
        ensures
            r@ == (clamp(self.re@ - rhs.re@, signed_lo(Self::width()), signed_hi(Self::width())),
                clamp(self.im@ - rhs.im@, signed_lo(Self::width()), signed_hi(Self::width()))),
    {
        Self { re: self.re.saturating_sub(rhs.re), im: self.im.saturating_sub(rhs.im) }
    }

    /// Saturating same-type complex multiply: each component of
    /// `(ac - bd) + (ad + bc)i` is computed in 128 bits, shifted right by `F`
    /// and clamped to `[MIN, MAX]`. The one imaginary part that overflows 128
    /// bits (every component `-2^63`) is excluded.
    pub fn saturating_mul(self, rhs: Self) -> (r: Self)
        requires
            Self::valid(),
            cmul_im(self@, rhs@) <= i128::MAX,
        ensures
            r@ == (clamp(
                cmul_re(self@, rhs@) / (pow2(F as nat) as int),
                signed_lo(Self::width()),
                signed_hi(Self::width()),
            ), clamp(
                cmul_im(self@, rhs@) / (pow2(F as nat) as int),
                signed_lo(Self::width()),
                signed_hi(Self::width()),
            )),
    {
        let (pre, pim) = self.product_counts(rhs);
        let re = pre >> F;
        let im = pim >> F;
        proof {
            lemma_i128_shr(pre, F);
            lemma_i128_shr(pim, F);
        }
        let lo = Q::<I, F>::min_value().raw() as i128;
        let hi = Q::<I, F>::max_value().raw() as i128;
        let re = if re < lo {
            lo
        } else if re > hi {
            hi
        } else {
            re
        };
        let im = if im < lo {
            lo
        } else if im > hi {
            hi
        } else {
            im
        };
        proof {
            lemma_pow2_halves(Self::width());
            lemma_pow2_le((Self::width() - 1) as nat, 63);
            lemma2_to64_rest();
            lemma_signed_wrap_fits(re as int, Self::width());
            lemma_signed_wrap_fits(im as int, Self::width());
        }
        Self { re: Q::from_raw(re as i64), im: Q::from_raw(im as i64) }
    }
}

impl<const I: u32, const F: u32> CQ<I, F> {
    /// Widening conjugate `re - im·i` as a `CQ<I + 1, F>`: the extra integer
    /// bit holds the negation of `MIN` exactly.
    pub fn conj<const IO: u32>(self) -> (r: CQ<IO, F>)
        requires
            Self::valid(),
            CQ::<IO, F>::valid(),
            IO == I + 1,
        ensures
            r@ == (self.re@, -self.im@),
    {
        let re = self.re.widen::<IO, F>();
        proof {
            vstd::arithmetic::power2::lemma2_to64();
            assert(self.re@ * pow2(0) == self.re@) by (nonlinear_arith)
                requires
                    pow2(0) == 1,
            ;
        }
        CQ { re, im: self.im.neg::<IO>() }
    }

    /// Rotation by +90 degrees, `(a + bi)·i = -b + ai`, as a `CQ<I + 1, F>`.
    pub fn mul_j<const IO: u32>(self) -> (r: CQ<IO, F>)
        requires
            Self::valid(),
            CQ::<IO, F>::valid(),
            IO == I + 1,
        ensures
            r@ == (-self.im@, self.re@),
    {
        let im = self.re.widen::<IO, F>();
        proof {
            vstd::arithmetic::power2::lemma2_to64();
            assert(self.re@ * pow2(0) == self.re@) by (nonlinear_arith)
                requires
                    pow2(0) == 1,
            ;
        }
        CQ { re: self.im.neg::<IO>(), im }
    }

    /// Rotation by -90 degrees, `(a + bi)·(-i) = b - ai`, as a `CQ<I + 1, F>`.
    pub fn mul_neg_j<const IO: u32>(self) -> (r: CQ<IO, F>)
        requires
            Self::valid(),
            CQ::<IO, F>::valid(),
            IO == I + 1,
        ensures
            r@ == (self.im@, -self.re@),
    {
        let re = self.im.widen::<IO, F>();
        proof {
            vstd::arithmetic::power2::lemma2_to64();
            assert(self.im@ * pow2(0) == self.im@) by (nonlinear_arith)
                requires
                    pow2(0) == 1,
            ;
        }
        CQ { re, im: self.re.neg::<IO>() }
    }

    /// Squared magnitude `re² + im²` as a real `Q<2I + 1, 2F>`: exact, with
    /// no square root.
    pub fn norm_sqr<const IO: u32, const FO: u32>(self) -> (r: Q<IO, FO>)
        requires
            Self::valid(),
            Q::<IO, FO>::valid(),
            IO == 2 * I + 1,
            FO == 2 * F,
        ensures
            r@ == self.re@ * self.re@ + self.im@ * self.im@,
    {
        let x = self.re.raw() as i128;
        let y = self.im.raw() as i128;
        proof {
            let n = Self::width();
            lemma_pow2_halves(n);
            let h = pow2((n - 1) as nat) as int;
            vstd::arithmetic::power2::lemma_pow2_adds((n - 1) as nat, (n - 1) as nat);
            lemma_pow2_halves((2 * n - 1) as nat);
            lemma_pow2_halves(2 * n);
            lemma_pow2_halves(2 * n + 1);
            assert(((n - 1) as nat + (n - 1) as nat) as nat == (2 * n - 2) as nat);
            assert(0 <= x * x <= h * h && 0 <= y * y <= h * h) by (nonlinear_arith)
                requires
                    -h <= x < h,
                    -h <= y < h,
            ;
            lemma_pow2_le((2 * n - 1) as nat, 62);
            lemma2_to64_rest();
            assert(pow2((2 * n - 1) as nat) == 2 * (h * h));
            lemma_signed_wrap_fits(x * x + y * y, Q::<IO, FO>::width());
        }
        let sum = x * x + y * y;
        Q::<IO, FO>::from_raw(sum as i64)
    }
}

} // verus!
