//! Conversions between formats: lossless widening, truncating and
//! saturating narrowing, value-preserving narrowing, rounding toward zero,
//! general reformatting, and the signed/unsigned crossings.
//!
//! Every conversion realigns the binary point by shifting the count by
//! `FO - F` places (see [`rescale`]); they differ in what happens to the bits
//! that no longer fit.

use vstd::prelude::*;
use vstd::arithmetic::power2::{pow2, lemma_pow2_pos, lemma2_to64_rest};
use crate::spec::{signed_lo, signed_hi, unsigned_hi, fits_signed, fits_unsigned, signed_wrap,
    unsigned_wrap, rescale, rescale_toward_zero, rescale_exact, clamp};
use crate::bits::{lemma_pow2_halves, lemma_pow2_le, lemma_signed_wrap, lemma_signed_wrap_fits,
    lemma_signed_wrap_wider, lemma_unsigned_wrap, lemma_unsigned_wrap_wider, lemma_i64_shl,
    lemma_i64_shr, lemma_u64_shl, lemma_u64_shr, lemma_i128_shr, lemma_i128_as_i64,
    lemma_u128_shr, lemma_u128_as_u64, lemma_scaled_fits_i128, lemma_fits_signed_wider,
    lemma_fits_signed_scaled, lemma_fits_unsigned_wider, lemma_shifted_bound, lemma_divided_bound,
    lemma_i128_low_bits_clear, lemma_i64_as_u64};
use crate::error::FixedError;
use crate::q::Q;
use crate::uq::UQ;
use crate::cq::CQ;

verus! {

/// What a 64-bit signed shift by `s` places leaves of count `x`: the
/// rescaled count, wrapped to 64 bits (bits shifted out on the left are lost).
pub open spec fn shifted_i64(x: int, s: int) -> int {
    signed_wrap(rescale(x, s), 64)
}

/// What a 64-bit unsigned shift by `s` places leaves of count `x`.
pub open spec fn shifted_u64(x: int, s: int) -> int {
    unsigned_wrap(rescale(x, s), 64)
}

/// Shifts an `i64` count by `s` places, `|s| < 64`: left for `s >= 0`,
/// arithmetic right otherwise.
fn shift_i64(x: i64, s: i32) -> (r: i64)
    requires
        -64 < s < 64,
    ensures
        r as int == shifted_i64(x as int, s as int),
{
    if s >= 0 {
        proof {
            lemma_i64_shl(x, s as u32);
        }
        x << (s as u32)
    } else {
        proof {
            lemma_i64_shr(x, (-s) as u32);
            lemma_pow2_halves(64);
            lemma2_to64_rest();
            lemma_signed_wrap_fits((x as int) / (pow2((-s) as nat) as int), 64);
        }
        x >> ((-s) as u32)
    }
}

/// Shifts a `u64` count by `s` places, `|s| < 64`.
fn shift_u64(x: u64, s: i32) -> (r: u64)
    requires
        -64 < s < 64,
    ensures
        r as int == shifted_u64(x as int, s as int),
{
    if s >= 0 {
        proof {
            lemma_u64_shl(x, s as u32);
        }
        x << (s as u32)
    } else {
        proof {
            lemma_u64_shr(x, (-s) as u32);
            lemma2_to64_rest();
            lemma_pow2_pos((-s) as nat);
            lemma_divided_bound(x as int, 64, 0);
            vstd::arithmetic::div_mod::lemma_div_is_ordered_by_denominator(
                x as int,
                1,
                pow2((-s) as nat) as int,
            );
            lemma_unsigned_wrap((x as int) / (pow2((-s) as nat) as int), 64);
        }
        x >> ((-s) as u32)
    }
}

/// Shifts a 64-bit signed count held in an `i128` by `s` places,
/// `|s| <= 64`; the result is exact.
fn shift_i128(x: i128, s: i32) -> (r: i128)
    requires
        -64 <= s <= 64,
        i64::MIN <= x <= i64::MAX,
    ensures
        r as int == rescale(x as int, s as int),
{
    if s >= 0 {
        proof {
            lemma_scaled_fits_i128(x as i64, s as u32);
        }
        (x << (s as u32))
    } else {
        proof {
            lemma_i128_shr(x, (-s) as u32);
        }
        x >> ((-s) as u32)
    }
}

impl<const I: u32, const F: u32> Q<I, F> {
    /// Lossless widening to a format with at least as many integer and
    /// fractional bits: the value is unchanged.
    pub fn widen<const IO: u32, const FO: u32>(self) -> (r: Q<IO, FO>)
        requires
            Self::valid(),
            Q::<IO, FO>::valid(),
            IO >= I,
            FO >= F,
        ensures
            r@ == self@ * pow2((FO - F) as nat),
    {
        let x = self.raw();
        let s: i32 = FO as i32 - F as i32;
        let w = shift_i64(x, s);
        proof {
            let n = Self::width();
            let m = Q::<IO, FO>::width();
            lemma_fits_signed_scaled(x as int, n, s as nat);
            lemma_fits_signed_wider(x * pow2(s as nat), n + s as nat, m);
            lemma_fits_signed_wider(x * pow2(s as nat), m, 64);
            lemma_signed_wrap_fits(x * pow2(s as nat), 64);
            lemma_signed_wrap_fits(x * pow2(s as nat), m);
        }
        Q::<IO, FO>::from_raw(w)
    }

    /// Narrowing by truncation: excess low bits are dropped (flooring toward
    /// negative infinity, like a Verilog sized assignment) and the result is
    /// wrapped to `IO + FO` bits.
    pub fn truncate<const IO: u32, const FO: u32>(self) -> (r: Q<IO, FO>)
        requires
            Self::valid(),
            Q::<IO, FO>::valid(),
            -64 < FO - F < 64,
        ensures
            r@ == signed_wrap(rescale(self@, FO - F), Q::<IO, FO>::width()),
    {
        let shifted = shift_i64(self.raw(), FO as i32 - F as i32);
        proof {
            lemma_signed_wrap_wider(rescale(self@, FO - F), Q::<IO, FO>::width(), 64);
        }
        Q::<IO, FO>::from_raw(shifted)
    }

    /// Narrowing with saturation: the value, realigned to `FO` fractional
    /// bits, is clamped to the destination range `[MIN, MAX]`.
    pub fn saturate<const IO: u32, const FO: u32>(self) -> (r: Q<IO, FO>)
        requires
            Self::valid(),
            Q::<IO, FO>::valid(),
            -64 < FO - F < 64,
        ensures
            r@ == clamp(rescale(self@, FO - F), signed_lo(Q::<IO, FO>::width()),
                signed_hi(Q::<IO, FO>::width())),
    {
        let shifted = shift_i128(self.raw() as i128, FO as i32 - F as i32);
        let lo = Q::<IO, FO>::min_value().raw();
        let hi = Q::<IO, FO>::max_value().raw();
        let clamped = if shifted < lo as i128 {
            lo
        } else if shifted > hi as i128 {
            hi
        } else {
            shifted as i64
        };
        proof {
            lemma_pow2_halves(Q::<IO, FO>::width());
            lemma_signed_wrap_fits(clamped as int, Q::<IO, FO>::width());
        }
        Q::<IO, FO>::from_raw(clamped)
    }

    /// Value-preserving narrowing: succeeds only when `Q<IO, FO>` holds the
    /// value exactly. Dropping a set fractional bit gives `Inexact`; a value
    /// outside `[MIN, MAX]` gives `OutOfRange`.
    pub fn try_narrow<const IO: u32, const FO: u32>(self) -> (r: Result<Q<IO, FO>, FixedError>)
        requires
            Self::valid(),
            Q::<IO, FO>::valid(),
        ensures
            r matches Err(FixedError::Inexact) <==> !rescale_exact(self@, FO - F),
            r matches Err(FixedError::OutOfRange) <==> rescale_exact(self@, FO - F) && !fits_signed(
                rescale(self@, FO - F),
                Q::<IO, FO>::width(),
            ),
            r is Ok <==> rescale_exact(self@, FO - F) && fits_signed(
                rescale(self@, FO - F),
                Q::<IO, FO>::width(),
            ),
            r is Ok ==> r->Ok_0@ == rescale(self@, FO - F),
    {
        let raw = self.raw() as i128;
        let fdiff: i32 = F as i32 - FO as i32;
        if fdiff > 0 {
            proof {
                lemma_i128_low_bits_clear(raw, fdiff as u32);
            }
            if raw & ((1i128 << (fdiff as u32)) - 1) != 0 {
                return Err(FixedError::Inexact);
            }
        }
        let n = shift_i128(raw, -fdiff);
        proof {
            lemma_pow2_halves(Q::<IO, FO>::width());
            lemma_pow2_le((Q::<IO, FO>::width() - 1) as nat, 63);
            lemma2_to64_rest();
        }
        if n >= Q::<IO, FO>::min_value().raw() as i128 && n <= Q::<IO, FO>::max_value().raw() as i128 {
            proof {
                lemma_signed_wrap_fits(n as int, Q::<IO, FO>::width());
            }
            Ok(Q::<IO, FO>::from_raw(n as i64))
        } else {
            Err(FixedError::OutOfRange)
        }
    }

    /// Narrowing that rounds toward zero: dropped low bits reduce the
    /// magnitude (`-2.7` becomes `-2.0`, where `truncate` gives `-3.0`). An
    /// out-of-range integer part wraps to `IO + FO` bits.
    pub fn round_to_zero<const IO: u32, const FO: u32>(self) -> (r: Q<IO, FO>)
        requires
            Self::valid(),
            Q::<IO, FO>::valid(),
        ensures
            r@ == signed_wrap(rescale_toward_zero(self@, FO - F), Q::<IO, FO>::width()),
    {
        let raw = self.raw() as i128;
        let fdiff: i32 = F as i32 - FO as i32;
        let n = if fdiff > 0 {
            if raw >= 0 {
                shift_i128(raw, -fdiff)
            } else {
                let m = -raw;
                proof {
                    lemma_i128_shr(m, fdiff as u32);
                    lemma_pow2_pos(fdiff as nat);
                    vstd::arithmetic::div_mod::lemma_div_is_ordered_by_denominator(
                        m as int,
                        1,
                        pow2(fdiff as nat) as int,
                    );
                    vstd::arithmetic::div_mod::lemma_div_pos_is_pos(m as int, pow2(fdiff as nat) as int);
                }
                -(m >> (fdiff as u32))
            }
        } else {
            shift_i128(raw, -fdiff)
        };
        proof {
            lemma_i128_as_i64(n);
            lemma_signed_wrap_wider(n as int, Q::<IO, FO>::width(), 64);
        }
        Q::<IO, FO>::from_raw(n as i64)
    }

    /// General format conversion: the binary point is moved by shifting the
    /// 64-bit count by `FO - F` places, and the result is wrapped to
    /// `IO + FO` bits.
    pub fn reformat<const IO: u32, const FO: u32>(self) -> (r: Q<IO, FO>)
        requires
            Self::valid(),
            Q::<IO, FO>::valid(),
            -64 < FO - F < 64,
        ensures
            r@ == signed_wrap(rescale(self@, FO - F), Q::<IO, FO>::width()),
    {
        let shifted = shift_i64(self.raw(), FO as i32 - F as i32);
        proof {
            lemma_signed_wrap_wider(rescale(self@, FO - F), Q::<IO, FO>::width(), 64);
        }
        Q::<IO, FO>::from_raw(shifted)
    }

    /// Converts to an unsigned format: a negative value becomes zero, any
    /// other is shifted by `FO - F` places as a 64-bit word and masked to
    /// `IO + FO` bits.
    pub fn to_unsigned<const IO: u32, const FO: u32>(self) -> (r: UQ<IO, FO>)
        requires
            Self::valid(),
            UQ::<IO, FO>::valid(),
            -64 < FO - F < 64,
        ensures
            r@ == (if self@ < 0 {
                0
            } else {
                unsigned_wrap(rescale(self@, FO - F), UQ::<IO, FO>::width())
            }),
    {
        let x = self.raw();
        if x < 0 {
            return UQ::<IO, FO>::zero();
        }
        let shifted = shift_u64(x as u64, FO as i32 - F as i32);
        proof {
            lemma_i64_as_u64(x);
            lemma2_to64_rest();
            lemma_unsigned_wrap(x as int, 64);
            lemma_unsigned_wrap_wider(rescale(self@, FO - F), UQ::<IO, FO>::width(), 64);
        }
        UQ::<IO, FO>::from_raw(shifted)
    }
}

/// Shifts an unsigned 64-bit count held in a `u128` by `s` places,
/// `|s| <= 64`; the result is exact.
fn shift_u128(x: u128, s: i32) -> (r: u128)
    requires
        -64 <= s <= 64,
        x <= u64::MAX,
    ensures
        r as int == rescale(x as int, s as int),
{
    if s >= 0 {
        proof {
            lemma2_to64_rest();
            lemma_pow2_le(s as nat, 64);
            crate::bits::lemma_u64_scaled_fits(x as u64, s as u32);
        }
        x << (s as u32)
    } else {
        proof {
            lemma_u128_shr(x, (-s) as u32);
        }
        x >> ((-s) as u32)
    }
}

/// The exact count of an unsigned 64-bit `x` moved by `s` places,
/// `|s| < 64`, which always fits a signed 128-bit word.
fn shift_unsigned_to_i128(x: u64, s: i32) -> (r: i128)
    requires
        -64 < s < 64,
    ensures
        r as int == rescale(x as int, s as int),
        r >= 0,
{
    let t = shift_u128(x as u128, s);
    proof {
        lemma2_to64_rest();
        if s >= 0 {
            let p = pow2(s as nat) as int;
            lemma_pow2_le(s as nat, 63);
            assert(x * p <= 0x7FFF_FFFF_FFFF_FFFF_FFFF_FFFF_FFFF_FFFF) by (nonlinear_arith)
                requires
                    0 <= x <= 0xFFFF_FFFF_FFFF_FFFF,
                    0 <= p <= 0x8000_0000_0000_0000,
            ;
        } else {
            let p = pow2((-s) as nat) as int;
            lemma_pow2_pos((-s) as nat);
            assert(x as int / p <= x as int) by (nonlinear_arith)
                requires
                    x >= 0,
                    p >= 1,
            ;
        }
    }
    t as i128
}

impl<const I: u32, const F: u32> UQ<I, F> {
    /// Lossless widening to a format with at least as many integer and
    /// fractional bits: the value is unchanged.
    pub fn widen<const IO: u32, const FO: u32>(self) -> (r: UQ<IO, FO>)
        requires
            Self::valid(),
            UQ::<IO, FO>::valid(),
            IO >= I,
            FO >= F,
        ensures
            r@ == self@ * pow2((FO - F) as nat),
    {
        let x = self.raw();
        let s: i32 = FO as i32 - F as i32;
        let w = shift_u64(x, s);
        proof {
            let n = Self::width();
            let m = UQ::<IO, FO>::width();
            lemma_shifted_bound(x as int, n, s as nat);
            lemma_fits_unsigned_wider(x * pow2(s as nat), n + s as nat, m);
            lemma_fits_unsigned_wider(x * pow2(s as nat), m, 64);
            lemma2_to64_rest();
            lemma_unsigned_wrap(x * pow2(s as nat), 64);
            lemma_unsigned_wrap(x * pow2(s as nat), m);
        }
        UQ::<IO, FO>::from_raw(w)
    }

    /// Narrowing by truncation: excess low bits are dropped and the result
    /// is masked to `IO + FO` bits.
    pub fn truncate<const IO: u32, const FO: u32>(self) -> (r: UQ<IO, FO>)
        requires
            Self::valid(),
            UQ::<IO, FO>::valid(),
            -64 < FO - F < 64,
        ensures
            r@ == unsigned_wrap(rescale(self@, FO - F), UQ::<IO, FO>::width()),
    {
        let shifted = shift_u64(self.raw(), FO as i32 - F as i32);
        proof {
            lemma_unsigned_wrap_wider(rescale(self@, FO - F), UQ::<IO, FO>::width(), 64);
        }
        UQ::<IO, FO>::from_raw(shifted)
    }

    /// Narrowing with saturation: the value, realigned to `FO` fractional
    /// bits, is clamped to `MAX`.
    pub fn saturate<const IO: u32, const FO: u32>(self) -> (r: UQ<IO, FO>)
        requires
            Self::valid(),
            UQ::<IO, FO>::valid(),
            -64 < FO - F < 64,
        ensures
            r@ == clamp(rescale(self@, FO - F), 0, unsigned_hi(UQ::<IO, FO>::width())),
    {
        let shifted = shift_u128(self.raw() as u128, FO as i32 - F as i32);
        let hi = UQ::<IO, FO>::max_value().raw();
        let clamped = if shifted > hi as u128 {
            hi
        } else {
            shifted as u64
        };
        proof {
            lemma_unsigned_wrap(clamped as int, UQ::<IO, FO>::width());
        }
        UQ::<IO, FO>::from_raw(clamped)
    }

    /// Value-preserving narrowing: succeeds only when `UQ<IO, FO>` holds the
    /// value exactly. Dropping a set fractional bit gives `Inexact`; a value
    /// above `MAX` gives `OutOfRange`.
    pub fn try_narrow<const IO: u32, const FO: u32>(self) -> (r: Result<UQ<IO, FO>, FixedError>)
        requires
            Self::valid(),
            UQ::<IO, FO>::valid(),
        ensures
            r matches Err(FixedError::Inexact) <==> !rescale_exact(self@, FO - F),
            r matches Err(FixedError::OutOfRange) <==> rescale_exact(self@, FO - F) && !fits_unsigned(
                rescale(self@, FO - F),
                UQ::<IO, FO>::width(),
            ),
            r is Ok <==> rescale_exact(self@, FO - F) && fits_unsigned(
                rescale(self@, FO - F),
                UQ::<IO, FO>::width(),
            ),
            r is Ok ==> r->Ok_0@ == rescale(self@, FO - F),
    {
        let raw = self.raw() as u128;
        let fdiff: i32 = F as i32 - FO as i32;
        if fdiff > 0 {
            proof {
                crate::bits::lemma_u128_low_bits_clear(raw, fdiff as u32);
                lemma_pow2_pos(fdiff as nat);
            }
            if raw & ((1u128 << (fdiff as u32)) - 1) != 0 {
                return Err(FixedError::Inexact);
            }
        }
        let n = shift_u128(raw, -fdiff);
        proof {
            lemma2_to64_rest();
            lemma_pow2_le(UQ::<IO, FO>::width(), 64);
        }
        if n <= UQ::<IO, FO>::max_value().raw() as u128 {
            proof {
                lemma_unsigned_wrap(n as int, UQ::<IO, FO>::width());
            }
            Ok(UQ::<IO, FO>::from_raw(n as u64))
        } else {
            Err(FixedError::OutOfRange)
        }
    }

    /// Narrowing that rounds toward zero; for unsigned values this drops the
    /// low bits exactly as [`truncate`](Self::truncate) does. An out-of-range
    /// integer part wraps to `IO + FO` bits.
    pub fn round_to_zero<const IO: u32, const FO: u32>(self) -> (r: UQ<IO, FO>)
        requires
            Self::valid(),
            UQ::<IO, FO>::valid(),
        ensures
            r@ == unsigned_wrap(rescale(self@, FO - F), UQ::<IO, FO>::width()),
    {
        let raw = self.raw() as u128;
        let fdiff: i32 = F as i32 - FO as i32;
        let n = shift_u128(raw, -fdiff);
        proof {
            lemma_u128_as_u64(n);
            lemma_unsigned_wrap_wider(n as int, UQ::<IO, FO>::width(), 64);
        }
        UQ::<IO, FO>::from_raw(n as u64)
    }

    /// General format conversion: the binary point is moved by shifting the
    /// 64-bit count by `FO - F` places, and the result is masked to
    /// `IO + FO` bits.
    pub fn reformat<const IO: u32, const FO: u32>(self) -> (r: UQ<IO, FO>)
        requires
            Self::valid(),
            UQ::<IO, FO>::valid(),
            -64 < FO - F < 64,
        ensures
            r@ == unsigned_wrap(rescale(self@, FO - F), UQ::<IO, FO>::width()),
    {
        let shifted = shift_u64(self.raw(), FO as i32 - F as i32);
        proof {
            lemma_unsigned_wrap_wider(rescale(self@, FO - F), UQ::<IO, FO>::width(), 64);
        }
        UQ::<IO, FO>::from_raw(shifted)
    }

    /// Converts to a signed format: the count, realigned to `FO` fractional
    /// bits, is wrapped to `IO + FO` bits, so a value beyond the signed range
    /// wraps rather than panicking.
    pub fn to_signed<const IO: u32, const FO: u32>(self) -> (r: Q<IO, FO>)
        requires
            Self::valid(),
            Q::<IO, FO>::valid(),
            -64 < FO - F < 64,
        ensures
            r@ == signed_wrap(rescale(self@, FO - F), Q::<IO, FO>::width()),
    {
        let t = shift_unsigned_to_i128(self.raw(), FO as i32 - F as i32);
        proof {
            lemma_i128_as_i64(t);
            lemma_signed_wrap_wider(t as int, Q::<IO, FO>::width(), 64);
        }
        Q::<IO, FO>::from_raw(t as i64)
    }

    /// Converts to a signed format like [`to_signed`](Self::to_signed), but
    /// returns `OutOfRange` instead of wrapping when the realigned value
    /// falls outside `[MIN, MAX]`.
    pub fn try_to_signed<const IO: u32, const FO: u32>(self) -> (r: Result<Q<IO, FO>, FixedError>)
        requires
            Self::valid(),
            Q::<IO, FO>::valid(),
            -64 < FO - F < 64,
        ensures
            r is Ok <==> fits_signed(rescale(self@, FO - F), Q::<IO, FO>::width()),
            r is Ok ==> r->Ok_0@ == rescale(self@, FO - F),
            r is Err ==> r->Err_0 == FixedError::OutOfRange,
    {
        let t = shift_unsigned_to_i128(self.raw(), FO as i32 - F as i32);
        proof {
            lemma_pow2_halves(Q::<IO, FO>::width());
        }
        if t <= Q::<IO, FO>::max_value().raw() as i128 {
            proof {
                lemma_signed_wrap_fits(t as int, Q::<IO, FO>::width());
            }
            Ok(Q::<IO, FO>::from_raw(t as i64))
        } else {
            Err(FixedError::OutOfRange)
        }
    }
}

/// Which error, if any, narrowing the signed count `x` by `shift` places to
/// `n` bits meets: a set bit shifted out is checked first, then the range.
pub open spec fn signed_narrow_error(x: int, shift: int, n: nat) -> Option<FixedError> {
    if !rescale_exact(x, shift) {
        Some(FixedError::Inexact)
    } else if !fits_signed(rescale(x, shift), n) {
        Some(FixedError::OutOfRange)
    } else {
        None
    }
}

impl<const I: u32, const F: u32> CQ<I, F> {
    /// Componentwise lossless widening: the value is unchanged.
    pub fn widen<const IO: u32, const FO: u32>(self) -> (r: CQ<IO, FO>)
        requires
            Self::valid(),
            CQ::<IO, FO>::valid(),
            IO >= I,
            FO >= F,
        ensures
            r@ == (self.re@ * pow2((FO - F) as nat), self.im@ * pow2((FO - F) as nat)),
    {
        CQ { re: self.re.widen(), im: self.im.widen() }
    }

    /// Componentwise narrowing by truncation (see [`Q::truncate`]).
    pub fn truncate<const IO: u32, const FO: u32>(self) -> (r: CQ<IO, FO>)
        requires
            Self::valid(),
            CQ::<IO, FO>::valid(),
            -64 < FO - F < 64,
        ensures
            r@ == (signed_wrap(rescale(self.re@, FO - F), CQ::<IO, FO>::width()), signed_wrap(
                rescale(self.im@, FO - F),
                CQ::<IO, FO>::width(),
            )),
    {
        CQ { re: self.re.truncate(), im: self.im.truncate() }
    }

    /// Componentwise narrowing with saturation (see [`Q::saturate`]).
    pub fn saturate<const IO: u32, const FO: u32>(self) -> (r: CQ<IO, FO>)
        requires
            Self::valid(),
            CQ::<IO, FO>::valid(),
            -64 < FO - F < 64,
        ensures
            r@ == (clamp(
                rescale(self.re@, FO - F),
                signed_lo(CQ::<IO, FO>::width()),
                signed_hi(CQ::<IO, FO>::width()),
            ), clamp(
                rescale(self.im@, FO - F),
                signed_lo(CQ::<IO, FO>::width()),
                signed_hi(CQ::<IO, FO>::width()),
            )),
    {
        CQ { re: self.re.saturate(), im: self.im.saturate() }
    }

    /// Componentwise value-preserving narrowing: succeeds only when both
    /// parts are held exactly; otherwise the real part's error, if it has
    /// one, else the imaginary part's.
    pub fn try_narrow<const IO: u32, const FO: u32>(self) -> (r: Result<CQ<IO, FO>, FixedError>)
        requires
            Self::valid(),
            CQ::<IO, FO>::valid(),
        ensures
            r is Ok <==> signed_narrow_error(self.re@, FO - F, CQ::<IO, FO>::width()) is None
                && signed_narrow_error(self.im@, FO - F, CQ::<IO, FO>::width()) is None,
            r is Ok ==> r->Ok_0@ == (rescale(self.re@, FO - F), rescale(self.im@, FO - F)),
            r is Err ==> Some(r->Err_0) == (if signed_narrow_error(
                self.re@,
                FO - F,
                CQ::<IO, FO>::width(),
            ) is Some {
                signed_narrow_error(self.re@, FO - F, CQ::<IO, FO>::width())
            } else {
                signed_narrow_error(self.im@, FO - F, CQ::<IO, FO>::width())
            }),
    {
        match self.re.try_narrow::<IO, FO>() {
            Err(e) => Err(e),
            Ok(re) => match self.im.try_narrow::<IO, FO>() {
                Err(e) => Err(e),
                Ok(im) => Ok(CQ { re, im }),
            },
        }
    }

    /// Componentwise narrowing that rounds toward zero (see
    /// [`Q::round_to_zero`]).
    pub fn round_to_zero<const IO: u32, const FO: u32>(self) -> (r: CQ<IO, FO>)
        requires
            Self::valid(),
            CQ::<IO, FO>::valid(),
        ensures
            r@ == (signed_wrap(rescale_toward_zero(self.re@, FO - F), CQ::<IO, FO>::width()),
                signed_wrap(rescale_toward_zero(self.im@, FO - F), CQ::<IO, FO>::width())),
    {
        CQ { re: self.re.round_to_zero(), im: self.im.round_to_zero() }
    }

    /// Componentwise general format conversion (see [`Q::reformat`]).
    pub fn reformat<const IO: u32, const FO: u32>(self) -> (r: CQ<IO, FO>)
        requires
            Self::valid(),
            CQ::<IO, FO>::valid(),
            -64 < FO - F < 64,
        ensures
            r@ == (signed_wrap(rescale(self.re@, FO - F), CQ::<IO, FO>::width()), signed_wrap(
                rescale(self.im@, FO - F),
                CQ::<IO, FO>::width(),
            )),
    {
        CQ { re: self.re.reformat(), im: self.im.reformat() }
    }
}

} // verus!
