//! Tests for `Q`/`UQ` arithmetic: operators, wrapping, saturating, widening,
//! shifts, and bitwise operations.

use qfixed::{Q, UQ};

/// Reading a fixed-point value as `f64`, and quantizing an `f64` (scaled by
/// `2^F`, fraction dropped).
trait Real {
    fn to_f64(self) -> f64;
    fn from_f64(v: f64) -> Self;
}

impl<const I: u32, const F: u32> Real for Q<I, F> {
    fn to_f64(self) -> f64 {
        self.to_count() as f64 / (1u64 << F) as f64
    }

    fn from_f64(v: f64) -> Self {
        Q::from_count((v * (1u64 << F) as f64) as i64)
    }
}

impl<const I: u32, const F: u32> Real for UQ<I, F> {
    fn to_f64(self) -> f64 {
        self.to_count() as f64 / (1u64 << F) as f64
    }

    fn from_f64(v: f64) -> Self {
        UQ::from_count((v * (1u64 << F) as f64) as u64)
    }
}

// ---------------------------------------------------------------------------
// Q: Arithmetic (std::ops)
// ---------------------------------------------------------------------------

/// Verifies Q addition: 3 + 4 = 7.
#[test]
fn ops_q_add() {
    let a = Q::<12, 4>::from(3i32);
    let b = Q::<12, 4>::from(4i32);
    let c = a.add::<13>(b);
    assert_eq!(c.to_f64(), 7.0);
}

/// Verifies Q subtraction: 10 - 3 = 7.
#[test]
fn ops_q_sub() {
    let a = Q::<12, 4>::from(10i32);
    let b = Q::<12, 4>::from(3i32);
    let c = a.sub::<13>(b);
    assert_eq!(c.to_f64(), 7.0);
}

/// Verifies Q negation: -5 = -(5).
#[test]
fn ops_q_neg() {
    let a = Q::<12, 4>::from(5i32);
    let b = a.neg::<13>();
    assert_eq!(b.to_f64(), -5.0);
}

/// Verifies that Q4.4 addition widens to Q5.4 (no overflow possible).
#[test]
fn ops_q_add_widens() {
    let a = Q::<4, 4>::max_value(); // 7.9375
    let b = Q::<4, 4>::from(1i32);
    let c: Q<5, 4> = a.add(b);
    // Q5.4 has enough range — no overflow
    assert!((c.to_f64() - 8.9375).abs() < 1e-4);
}

// ---------------------------------------------------------------------------
// Q: Wrapping operations
// ---------------------------------------------------------------------------

/// Verifies wrapping_add wraps MAX + 1 LSB to MIN.
#[test]
fn ops_q_wrapping_add() {
    let a = Q::<4, 4>::max_value(); // 7.9375
    let b = Q::<4, 4>::from_bits(1); // 0.0625
    let c = a.wrapping_add(b); // Should wrap to MIN
    assert_eq!(c, Q::<4, 4>::min_value());
}

/// Verifies wrapping_mul: 2.0 * 3.5 = 7.0 in Q8.8.
#[test]
fn ops_q_wrapping_mul() {
    let a = Q::<8, 8>::from(2i32);
    let b = Q::<8, 8>::from_f64(3.5);
    let c = a.wrapping_mul(b);
    assert_eq!(c.to_f64(), 7.0);
}

/// Verifies wrapping_div: 7.0 / 2.0 = 3.5 in Q8.8.
#[test]
fn ops_q_wrapping_div() {
    let a = Q::<8, 8>::from(7i32);
    let b = Q::<8, 8>::from(2i32);
    let c = a.wrapping_div(b);
    assert!((c.to_f64() - 3.5).abs() < 1e-10);
}

// ---------------------------------------------------------------------------
// Q: Widening multiply
// ---------------------------------------------------------------------------

/// Verifies widening_mul with integer operands: 3 * 4 = 12.
#[test]
fn ops_q_widening_mul_basic() {
    let a = Q::<12, 4>::from(3i32);
    let b = Q::<12, 4>::from(4i32);
    let c: Q<24, 8> = a.widening_mul(b);
    assert_eq!(c.to_f64(), 12.0);
}

/// Verifies widening_mul preserves fractional precision: 2.5 * 3.0 = 7.5.
#[test]
fn ops_q_widening_mul_fractional() {
    let a = Q::<12, 4>::from_f64(2.5);
    let b = Q::<12, 4>::from_f64(3.0);
    let c: Q<24, 8> = a.widening_mul(b);
    assert!((c.to_f64() - 7.5).abs() < 0.01);
}

/// Verifies widening_mul across different Q formats: Q12.4 * Q4.12.
#[test]
fn ops_q_widening_mul_cross_type() {
    let a = Q::<12, 4>::from(5i32);
    let b = Q::<4, 12>::from_f64(0.5);
    let c: Q<16, 16> = a.widening_mul(b);
    assert!((c.to_f64() - 2.5).abs() < 0.001);
}

// ---------------------------------------------------------------------------
// UQ: Arithmetic
// ---------------------------------------------------------------------------

/// Verifies UQ addition: 0.5 + 0.25 = 0.75.
#[test]
fn ops_uq_add() {
    let a = UQ::<1, 7>::from_f64(0.5);
    let b = UQ::<1, 7>::from_f64(0.25);
    let c = a.add::<2>(b);
    assert!((c.to_f64() - 0.75).abs() < 0.01);
}

/// Verifies that UQ subtraction returns signed Q (can be negative).
#[test]
fn ops_uq_sub_returns_signed() {
    let a = UQ::<1, 7>::from_f64(0.25);
    let b = UQ::<1, 7>::from_f64(0.5);
    let c: Q<2, 7> = a.sub(b);
    assert!((c.to_f64() - (-0.25)).abs() < 0.01);
}

// ---------------------------------------------------------------------------
// Shift operations
// ---------------------------------------------------------------------------

/// Verifies left shift: 1 << 3 = 8 in integer part.
#[test]
fn ops_q_shift_left() {
    let a = Q::<12, 4>::from(1i32);
    let b = a << 3;
    assert_eq!(b.to_f64(), 8.0);
}

/// Verifies arithmetic right shift preserves sign: -8 >> 2 = -2.
#[test]
fn ops_q_arithmetic_shift_right() {
    let a = Q::<12, 4>::from(-8i32);
    let b = a >> 2;
    assert_eq!(b.to_f64(), -2.0);
}

/// Verifies logical right shift fills with zero: 128 >> 1 = 64.
#[test]
fn ops_uq_logical_shift_right() {
    let a = UQ::<8, 0>::from(128u32);
    let b = a >> 1;
    assert_eq!(b.to_f64(), 64.0);
}

// ---------------------------------------------------------------------------
// Bitwise operations
// ---------------------------------------------------------------------------

/// Verifies bitwise AND between two Q8.0 values.
#[test]
fn ops_q_bitand() {
    let a = Q::<8, 0>::from(0b1010_1100u8 as i8 as i32);
    let b = Q::<8, 0>::from(0b1111_0000u8 as i8 as i32);
    let c = a & b;
    assert_eq!(c.to_bits(), 0b1010_0000);
}

// ---------------------------------------------------------------------------
// min, max, clamp
// ---------------------------------------------------------------------------

/// Verifies min, max, and clamp behavior.
#[test]
fn ops_q_min_max_clamp() {
    let a = Q::<8, 8>::from(3i32);
    let b = Q::<8, 8>::from(7i32);
    let lo = Q::<8, 8>::from(4i32);
    let hi = Q::<8, 8>::from(6i32);

    assert_eq!(a.min(b).to_f64(), 3.0);
    assert_eq!(a.max(b).to_f64(), 7.0);
    assert_eq!(a.clamp(lo, hi).to_f64(), 4.0); // 3 clamped up to 4
    assert_eq!(b.clamp(lo, hi).to_f64(), 6.0); // 7 clamped down to 6
}

// ---------------------------------------------------------------------------
// abs
// ---------------------------------------------------------------------------

/// Verifies abs returns magnitude for both negative and positive values.
#[test]
fn ops_q_abs() {
    let a = Q::<8, 8>::from(-5i32);
    assert_eq!(a.abs().to_f64(), 5.0);
    let b = Q::<8, 8>::from(3i32);
    assert_eq!(b.abs().to_f64(), 3.0);
}

// ---------------------------------------------------------------------------
// Q: Saturating arithmetic
// ---------------------------------------------------------------------------

/// saturating_add clamps to MAX on positive overflow.
#[test]
fn ops_q_saturating_add_overflow() {
    let max = Q::<4, 4>::max_value();
    let one = Q::<4, 4>::from(1i32);
    assert_eq!(max.saturating_add(one), Q::<4, 4>::max_value());
}

/// saturating_add works normally when no overflow.
#[test]
fn ops_q_saturating_add_normal() {
    let a = Q::<8, 8>::from(3i32);
    let b = Q::<8, 8>::from(4i32);
    assert_eq!(a.saturating_add(b).to_f64(), 7.0);
}

/// saturating_sub clamps to MIN on negative overflow.
#[test]
fn ops_q_saturating_sub_underflow() {
    let min = Q::<4, 4>::min_value();
    let one = Q::<4, 4>::from(1i32);
    assert_eq!(min.saturating_sub(one), Q::<4, 4>::min_value());
}

/// saturating_sub works normally when no underflow.
#[test]
fn ops_q_saturating_sub_normal() {
    let a = Q::<8, 8>::from(7i32);
    let b = Q::<8, 8>::from(3i32);
    assert_eq!(a.saturating_sub(b).to_f64(), 4.0);
}

/// saturating_mul clamps to MAX on positive overflow.
#[test]
fn ops_q_saturating_mul_overflow() {
    let max = Q::<4, 4>::max_value();
    let two = Q::<4, 4>::from(2i32);
    assert_eq!(max.saturating_mul(two), Q::<4, 4>::max_value());
}

/// saturating_mul clamps to MIN on negative overflow.
#[test]
fn ops_q_saturating_mul_negative_overflow() {
    let max = Q::<4, 4>::max_value();
    let neg_two = Q::<4, 4>::from(-2i32);
    assert_eq!(max.saturating_mul(neg_two), Q::<4, 4>::min_value());
}

/// saturating_mul works normally when no overflow.
#[test]
fn ops_q_saturating_mul_normal() {
    let a = Q::<8, 8>::from_f64(2.0);
    let b = Q::<8, 8>::from_f64(3.5);
    assert_eq!(a.saturating_mul(b).to_f64(), 7.0);
}

/// saturating_neg: MIN saturates to MAX.
#[test]
fn ops_q_saturating_neg_min() {
    let min = Q::<4, 4>::min_value();
    assert_eq!(min.saturating_neg(), Q::<4, 4>::max_value());
}

/// saturating_neg works normally for non-MIN values.
#[test]
fn ops_q_saturating_neg_normal() {
    let a = Q::<8, 8>::from(5i32);
    assert_eq!(a.saturating_neg().to_f64(), -5.0);
    let b = Q::<8, 8>::from(-3i32);
    assert_eq!(b.saturating_neg().to_f64(), 3.0);
}

// ---------------------------------------------------------------------------
// UQ: Saturating arithmetic
// ---------------------------------------------------------------------------

/// saturating_add clamps to MAX on overflow.
#[test]
fn ops_uq_saturating_add_overflow() {
    let max = UQ::<4, 4>::max_value();
    let one = UQ::<4, 4>::from(1u32);
    assert_eq!(max.saturating_add(one), UQ::<4, 4>::max_value());
}

/// saturating_add works normally when no overflow.
#[test]
fn ops_uq_saturating_add_normal() {
    let a = UQ::<8, 8>::from(3u32);
    let b = UQ::<8, 8>::from(4u32);
    assert_eq!(a.saturating_add(b).to_f64(), 7.0);
}

/// saturating_sub clamps to zero on underflow.
#[test]
fn ops_uq_saturating_sub_underflow() {
    let a = UQ::<4, 4>::from(1u32);
    let b = UQ::<4, 4>::from(3u32);
    assert_eq!(a.saturating_sub(b), UQ::<4, 4>::zero());
}

/// saturating_sub works normally when no underflow.
#[test]
fn ops_uq_saturating_sub_normal() {
    let a = UQ::<8, 8>::from(7u32);
    let b = UQ::<8, 8>::from(3u32);
    assert_eq!(a.saturating_sub(b).to_f64(), 4.0);
}

/// saturating_mul clamps to MAX on overflow.
#[test]
fn ops_uq_saturating_mul_overflow() {
    let max = UQ::<4, 4>::max_value();
    let two = UQ::<4, 4>::from(2u32);
    assert_eq!(max.saturating_mul(two), UQ::<4, 4>::max_value());
}

/// saturating_mul works normally when no overflow.
#[test]
fn ops_uq_saturating_mul_normal() {
    let a = UQ::<8, 8>::from_f64(2.0);
    let b = UQ::<8, 8>::from_f64(3.5);
    assert_eq!(a.saturating_mul(b).to_f64(), 7.0);
}

// ---------------------------------------------------------------------------
// Q: Widening add/sub
// ---------------------------------------------------------------------------

/// widening_add: MAX + MAX fits in wider output.
#[test]
fn ops_q_widening_add_no_overflow() {
    let max = Q::<4, 4>::max_value(); // 7.9375
    let sum: Q<5, 4> = max.widening_add(max);
    assert_eq!(sum.to_f64(), max.to_f64() * 2.0);
}

/// widening_add: normal values with same fractional bits.
#[test]
fn ops_q_widening_add_normal() {
    let a = Q::<4, 4>::from_f64(2.5);
    let b = Q::<4, 4>::from_f64(3.25);
    let sum: Q<5, 4> = a.widening_add(b);
    assert_eq!(sum.to_f64(), 5.75);
}

/// widening_add: fractional alignment when FO > F.
#[test]
fn ops_q_widening_add_frac_widen() {
    let a = Q::<4, 4>::from_f64(1.5);
    let b = Q::<4, 4>::from_f64(2.25);
    let sum: Q<5, 8> = a.widening_add(b);
    assert_eq!(sum.to_f64(), 3.75);
}

/// widening_sub: MIN - MAX fits in wider output.
#[test]
fn ops_q_widening_sub_no_overflow() {
    let min = Q::<4, 4>::min_value(); // -8.0
    let max = Q::<4, 4>::max_value(); // 7.9375
    let diff: Q<5, 4> = min.widening_sub(max);
    assert_eq!(diff.to_f64(), min.to_f64() - max.to_f64());
}

/// widening_sub: normal case.
#[test]
fn ops_q_widening_sub_normal() {
    let a = Q::<4, 4>::from_f64(1.5);
    let b = Q::<4, 4>::from_f64(3.75);
    let diff: Q<5, 4> = a.widening_sub(b);
    assert_eq!(diff.to_f64(), -2.25);
}

// ---------------------------------------------------------------------------
// UQ: Widening add/sub
// ---------------------------------------------------------------------------

/// widening_add: MAX + MAX fits in wider output.
#[test]
fn ops_uq_widening_add_no_overflow() {
    let max = UQ::<4, 4>::max_value(); // 15.9375
    let sum: UQ<5, 4> = max.widening_add(max);
    assert_eq!(sum.to_f64(), max.to_f64() * 2.0);
}

/// widening_add: normal case.
#[test]
fn ops_uq_widening_add_normal() {
    let a = UQ::<4, 4>::from_f64(5.5);
    let b = UQ::<4, 4>::from_f64(3.25);
    let sum: UQ<5, 4> = a.widening_add(b);
    assert_eq!(sum.to_f64(), 8.75);
}

/// widening_sub: returns signed Q, positive result.
#[test]
fn ops_uq_widening_sub_positive() {
    let a = UQ::<4, 4>::from_f64(5.5);
    let b = UQ::<4, 4>::from_f64(3.25);
    let diff: Q<5, 4> = a.widening_sub(b);
    assert_eq!(diff.to_f64(), 2.25);
}

/// widening_sub: returns signed Q, negative result.
#[test]
fn ops_uq_widening_sub_negative() {
    let a = UQ::<4, 4>::from_f64(2.0);
    let b = UQ::<4, 4>::from_f64(5.5);
    let diff: Q<5, 4> = a.widening_sub(b);
    assert_eq!(diff.to_f64(), -3.5);
}

/// widening_sub: fractional alignment when FO > F.
#[test]
fn ops_uq_widening_sub_frac_widen() {
    let a = UQ::<4, 4>::from_f64(3.0);
    let b = UQ::<4, 4>::from_f64(1.5);
    let diff: Q<5, 8> = a.widening_sub(b);
    assert_eq!(diff.to_f64(), 1.5);
}

// ---------------------------------------------------------------------------
// sum: logarithmic bit growth into a caller-chosen accumulator
// ---------------------------------------------------------------------------

/// Summing 64 `Q<12, 4>` values fits in `Q<18, 4>` (only 6 extra integer
/// bits, not 64) without overflow.
#[test]
fn q_sum_64_values_six_bits_growth() {
    let xs = [Q::<12, 4>::from(1000i32); 64];
    let total: Q<18, 4> = Q::sum(&xs);
    assert_eq!(total.to_f64(), 64_000.0);
}

/// `sum` works over owned values and preserves fractional precision.
#[test]
fn q_sum_owned_fractional() {
    let xs = [
        Q::<8, 8>::from_f64(0.5),
        Q::<8, 8>::from_f64(0.25),
        Q::<8, 8>::from_f64(1.25),
    ];
    let total: Q<10, 8> = Q::sum(&xs);
    assert!((total.to_f64() - 2.0).abs() < 1e-6);
}

/// `sum` over a slice of values matches the owned result.
#[test]
fn q_sum_borrowed() {
    let xs = [Q::<8, 8>::from(3i32), Q::<8, 8>::from(4i32)];
    let total: Q<10, 8> = Q::sum(&xs);
    assert_eq!(total.to_f64(), 7.0);
}

/// `sum` handles negative values; the wide accumulator never overflows.
#[test]
fn q_sum_negative_values() {
    let xs = [Q::<4, 4>::min_value(); 8]; // 8 * -8.0 = -64.0
    let total: Q<8, 4> = Q::sum(&xs);
    assert_eq!(total.to_f64(), -64.0);
}

/// `sum` of an empty slice yields ZERO.
#[test]
fn q_sum_empty_is_zero() {
    let total: Q<18, 4> = Q::sum::<12, 4>(&[]);
    assert_eq!(total, Q::<18, 4>::zero());
}

/// `sum` realigns the fractional point when `FO != F`.
#[test]
fn q_sum_frac_realign() {
    let xs = [Q::<8, 4>::from_f64(1.5), Q::<8, 4>::from_f64(2.25)];
    let total: Q<10, 8> = Q::sum(&xs);
    assert_eq!(total.to_f64(), 3.75);
}

/// UQ `sum` grows logarithmically and stays unsigned.
#[test]
fn uq_sum_64_values() {
    let xs = [UQ::<8, 8>::from(200u32); 64];
    let total: UQ<14, 8> = UQ::sum(&xs);
    assert_eq!(total.to_f64(), 12_800.0);
}

/// UQ `sum` over borrowed values, with fractional precision.
#[test]
fn uq_sum_borrowed_fractional() {
    let xs = [
        UQ::<1, 7>::from_f64(0.5),
        UQ::<1, 7>::from_f64(0.25),
        UQ::<1, 7>::from_f64(0.125),
    ];
    let total: UQ<3, 7> = UQ::sum(&xs);
    assert!((total.to_f64() - 0.875).abs() < 1e-3);
}

// ---------------------------------------------------------------------------
// try_sum: checked accumulation (errors instead of wrapping)
// ---------------------------------------------------------------------------

/// `try_sum` succeeds when the accumulator is wide enough for all N values.
#[test]
fn q_try_sum_ok() {
    let xs = [Q::<12, 4>::from(1000i32); 64];
    let total = Q::<18, 4>::try_sum(&xs).unwrap();
    assert_eq!(total.to_f64(), 64_000.0);
}

/// `try_sum` errors when the chosen output type is too narrow to hold the sum,
/// rather than silently wrapping like `sum`.
#[test]
fn q_try_sum_too_narrow_errors() {
    let xs = [Q::<12, 4>::from(1000i32); 64];
    assert_eq!(
        Q::<12, 4>::try_sum(&xs),
        Err(qfixed::FixedError::OutOfRange)
    );
}

/// `try_sum` over an empty slice is `Ok(ZERO)`.
#[test]
fn q_try_sum_empty_ok_zero() {
    let total = Q::<18, 4>::try_sum::<12, 4>(&[]).unwrap();
    assert_eq!(total, Q::<18, 4>::zero());
}

/// `try_sum` accepts slices and detects negative overflow.
#[test]
fn q_try_sum_negative_overflow_errors() {
    let xs = [Q::<4, 4>::min_value(); 8]; // 8 * -8.0 = -64.0, needs |I| >= 8
    assert!(Q::<6, 4>::try_sum(&xs).is_err());
    assert_eq!(Q::<8, 4>::try_sum(&xs).unwrap().to_f64(), -64.0);
}

/// UQ `try_sum` succeeds within range and errors on overflow.
#[test]
fn uq_try_sum_ok_and_overflow() {
    let xs = [UQ::<8, 8>::from(200u32); 64]; // 12_800 needs 14 integer bits
    assert_eq!(UQ::<14, 8>::try_sum(&xs).unwrap().to_f64(), 12_800.0);
    assert!(UQ::<8, 8>::try_sum(&xs).is_err());
}
