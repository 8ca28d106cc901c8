//! Basic tests for the `Q` and `UQ` types.

use qfixed::{Q, UQ};

/// The value a `Q` holds, as `f64`.
fn qv<const I: u32, const F: u32>(q: Q<I, F>) -> f64 {
    q.to_count() as f64 / (1u64 << F) as f64
}

/// The value a `UQ` holds, as `f64`.
fn uv<const I: u32, const F: u32>(q: UQ<I, F>) -> f64 {
    q.to_count() as f64 / (1u64 << F) as f64
}

/// `v` quantized to a `Q` (scaled by `2^F`, fraction dropped).
fn qf<const I: u32, const F: u32>(v: f64) -> Q<I, F> {
    Q::from_count((v * (1u64 << F) as f64) as i64)
}

/// `v` quantized to a `UQ` (scaled by `2^F`, fraction dropped).
fn uf<const I: u32, const F: u32>(v: f64) -> UQ<I, F> {
    UQ::from_count((v * (1u64 << F) as f64) as u64)
}

/// The whole part of a `Q` (the count shifted down by `F`).
fn q_int<const I: u32, const F: u32>(q: Q<I, F>) -> i64 {
    q.to_count() >> F
}

#[test]
fn basic_q_from_bits_roundtrip() {
    let v = Q::<12, 4>::from_bits(0x0108);
    assert_eq!(v.to_bits(), 0x0108);
}

#[test]
fn basic_q_negative_from_bits() {
    let v = Q::<4, 4>::from_bits(-16i64 as u64);
    assert_eq!(v.to_bits(), 0xF0);
    assert_eq!(q_int(v), -1);
}

#[test]
fn basic_q_sign_extension() {
    let v = Q::<4, 4>::from_bits(-1i64 as u64);
    assert_eq!(v.to_bits(), 0xFF);
}

#[test]
fn q_from_int() {
    let v = Q::<12, 4>::from(42i64);
    assert_eq!(q_int(v), 42);
    assert_eq!(v.to_bits(), 42 << 4);
}

#[test]
fn basic_q_from_f64() {
    let v = qf::<12, 4>(16.5);
    assert_eq!(v.to_bits(), 0x108);
}

#[test]
fn basic_q_to_f64() {
    let v = Q::<12, 4>::from_bits(0x108);
    assert!((qv(v) - 16.5).abs() < 1e-10);
}

#[test]
fn basic_q_constants() {
    assert_eq!(Q::<12, 4>::zero().to_bits(), 0);
    assert_eq!(Q::<12, 4>::one().to_bits(), 16);
    assert_eq!(Q::<12, 4>::max_value().to_bits(), 0x7FFF);
    assert_eq!(q_int(Q::<12, 4>::min_value()), -(1i64 << 11));
}

#[test]
fn basic_q_add() {
    let a = Q::<12, 4>::from(3i64);
    let b = Q::<12, 4>::from(4i64);
    let c = a.add::<13>(b);
    assert_eq!(q_int(c), 7);
}

#[test]
fn basic_q_sub() {
    let a = Q::<12, 4>::from(10i64);
    let b = Q::<12, 4>::from(3i64);
    let c = a.sub::<13>(b);
    assert_eq!(q_int(c), 7);
}

#[test]
fn basic_q_neg() {
    let a = Q::<12, 4>::from(5i64);
    let b = a.neg::<13>();
    assert_eq!(q_int(b), -5);
}

#[test]
fn basic_q_add_widens() {
    let a = Q::<4, 4>::max_value();
    let b = Q::<4, 4>::from(1i64);
    let c: Q<5, 4> = a.add(b);
    assert!((qv(c) - 8.9375).abs() < 1e-4);
}

#[test]
fn basic_q_wrapping_add() {
    let a = Q::<4, 4>::max_value();
    let b = Q::<4, 4>::from_bits(1);
    let c = a.wrapping_add(b);
    assert_eq!(c, Q::<4, 4>::min_value());
}

#[test]
fn basic_q_wrapping_mul() {
    let a = Q::<8, 8>::from(2i64);
    let b = qf::<8, 8>(3.5);
    let c = a.wrapping_mul(b);
    assert_eq!(q_int(c), 7);
}

#[test]
fn basic_q_wrapping_div() {
    let a = Q::<8, 8>::from(7i64);
    let b = Q::<8, 8>::from(2i64);
    let c = a.wrapping_div(b);
    assert!((qv(c) - 3.5).abs() < 1e-10);
}

#[test]
fn basic_q_widening_mul_basic() {
    let a = Q::<12, 4>::from(3i64);
    let b = Q::<12, 4>::from(4i64);
    let c: Q<24, 8> = a.widening_mul(b);
    assert_eq!(q_int(c), 12);
}

#[test]
fn basic_q_widening_mul_fractional() {
    let a = qf::<12, 4>(2.5);
    let b = qf::<12, 4>(3.0);
    let c: Q<24, 8> = a.widening_mul(b);
    assert!((qv(c) - 7.5).abs() < 0.01);
}

#[test]
fn basic_q_widening_mul_cross_type() {
    let a = Q::<12, 4>::from(5i64);
    let b = qf::<4, 12>(0.5);
    let c: Q<16, 16> = a.widening_mul(b);
    assert!((qv(c) - 2.5).abs() < 0.001);
}

#[test]
fn basic_q_widen() {
    let a = qf::<12, 4>(16.5);
    let b: Q<16, 16> = a.widen();
    assert!((qv(b) - 16.5).abs() < 1e-4);
}

#[test]
fn basic_q_truncate() {
    let a = qf::<16, 16>(16.5);
    let b: Q<12, 4> = a.truncate();
    assert!((qv(b) - 16.5).abs() < 0.1);
}

#[test]
fn basic_q_saturate() {
    let a = Q::<16, 16>::from(1000i64);
    let b: Q<4, 4> = a.saturate();
    assert_eq!(b, Q::<4, 4>::max_value());
}

#[test]
fn basic_q_saturate_negative() {
    let a = Q::<16, 16>::from(-1000i64);
    let b: Q<4, 4> = a.saturate();
    assert_eq!(b, Q::<4, 4>::min_value());
}

#[test]
fn basic_q_11bit_edge_coeff() {
    let a = Q::<11, 0>::from(500i64);
    let b = Q::<11, 0>::from(-300i64);
    assert_eq!(q_int(a), 500);
    assert_eq!(q_int(b), -300);
    assert_eq!(q_int(a.add::<12>(b)), 200);

    assert_eq!(q_int(Q::<11, 0>::max_value()), 1023);
    assert_eq!(q_int(Q::<11, 0>::min_value()), -1024);
}

#[test]
fn basic_q_21bit_edge_constant() {
    let a = Q::<21, 0>::from(100_000i64);
    let b = Q::<21, 0>::from(-50_000i64);
    assert_eq!(q_int(a.add::<22>(b)), 50_000);
}

#[test]
fn basic_uq_from_bits_roundtrip() {
    let v = UQ::<4, 14>::from_bits(0x1234);
    assert_eq!(v.to_bits(), 0x1234);
}

#[test]
fn basic_uq_constants() {
    assert_eq!(UQ::<1, 7>::zero().to_bits(), 0);
    assert_eq!(UQ::<1, 7>::one().to_bits(), 128);
    assert_eq!(UQ::<1, 7>::max_value().to_bits(), 0xFF);
}

#[test]
fn basic_uq_18bit_reciprocal() {
    let v = uf::<4, 14>(0.5);
    assert!((uv(v) - 0.5).abs() < 0.001);
    assert_eq!(UQ::<4, 14>::total_bits(), 18);
}

#[test]
fn basic_uq_add() {
    let a = uf::<1, 7>(0.5);
    let b = uf::<1, 7>(0.25);
    let c = a.add::<2>(b);
    assert!((uv(c) - 0.75).abs() < 0.01);
}

#[test]
fn basic_uq_sub_returns_signed() {
    let a = uf::<1, 7>(0.25);
    let b = uf::<1, 7>(0.5);
    let c: Q<2, 7> = a.sub(b);
    assert!((qv(c) - (-0.25)).abs() < 0.01);
}

#[test]
fn basic_uq_to_signed() {
    let v = uf::<0, 16>(0.5);
    let s: Q<16, 16> = v.to_signed();
    assert!((qv(s) - 0.5).abs() < 0.001);
}

#[test]
fn basic_q_to_unsigned() {
    let v = qf::<4, 12>(0.75);
    let u: UQ<4, 12> = v.to_unsigned();
    assert!((uv(u) - 0.75).abs() < 0.001);
}

#[test]
fn basic_q_to_unsigned_clamps_negative() {
    let v = Q::<4, 12>::from(-1i64);
    let u: UQ<4, 12> = v.to_unsigned();
    assert_eq!(u, UQ::<4, 12>::zero());
}

#[test]
fn basic_q_shift_left() {
    let a = Q::<12, 4>::from(1i64);
    let b = a << 3;
    assert_eq!(q_int(b), 8);
}

#[test]
fn basic_q_arithmetic_shift_right() {
    let a = Q::<12, 4>::from(-8i64);
    let b = a >> 2;
    assert_eq!(q_int(b), -2);
}

#[test]
fn basic_uq_logical_shift_right() {
    let a = UQ::<8, 0>::from_int(128);
    let b = a >> 1;
    assert_eq!(b.to_int(), 64);
}

#[test]
fn basic_q_bitand() {
    let a = Q::<8, 0>::from(0b1010_1100u8 as i8 as i64);
    let b = Q::<8, 0>::from(0b1111_0000u8 as i8 as i64);
    let c = a & b;
    assert_eq!(c.to_bits(), 0b1010_0000);
}

#[test]
fn basic_q_from_i32() {
    let v: Q<16, 16> = Q::from(42i32);
    assert_eq!(q_int(v), 42);
}

#[test]
fn basic_uq_from_u8() {
    let v: UQ<8, 8> = UQ::from(5u8);
    assert_eq!(v.to_int(), 5);
}

#[test]
fn basic_q_min_max_clamp() {
    let a = Q::<8, 8>::from(3i64);
    let b = Q::<8, 8>::from(7i64);
    let lo = Q::<8, 8>::from(4i64);
    let hi = Q::<8, 8>::from(6i64);

    assert_eq!(q_int(a.min(b)), 3);
    assert_eq!(q_int(a.max(b)), 7);
    assert_eq!(q_int(a.clamp(lo, hi)), 4);
    assert_eq!(q_int(b.clamp(lo, hi)), 6);
}

#[test]
fn basic_q_reformat() {
    let a = qf::<12, 4>(2.5);
    let b: Q<4, 12> = a.reformat();
    assert!((qv(b) - 2.5).abs() < 0.01);
}

#[test]
fn basic_q_64bit_full() {
    let a = Q::<32, 32>::from(1i64);
    let b = Q::<32, 32>::from(2i64);
    let c = a.wrapping_add(b);
    assert_eq!(q_int(c), 3);
}

#[test]
fn basic_q_abs() {
    let a = Q::<8, 8>::from(-5i64);
    assert_eq!(q_int(a.abs()), 5);
    let b = Q::<8, 8>::from(3i64);
    assert_eq!(q_int(b.abs()), 3);
}

#[test]
fn basic_q_saturating_add_overflow() {
    let max = Q::<4, 4>::max_value();
    let one = Q::<4, 4>::from(1i64);
    assert_eq!(max.saturating_add(one), Q::<4, 4>::max_value());
}

#[test]
fn basic_q_saturating_add_normal() {
    let a = Q::<8, 8>::from(3i64);
    let b = Q::<8, 8>::from(4i64);
    assert_eq!(q_int(a.saturating_add(b)), 7);
}

#[test]
fn basic_q_saturating_sub_underflow() {
    let min = Q::<4, 4>::min_value();
    let one = Q::<4, 4>::from(1i64);
    assert_eq!(min.saturating_sub(one), Q::<4, 4>::min_value());
}

#[test]
fn basic_q_saturating_sub_normal() {
    let a = Q::<8, 8>::from(7i64);
    let b = Q::<8, 8>::from(3i64);
    assert_eq!(q_int(a.saturating_sub(b)), 4);
}

#[test]
fn basic_q_saturating_mul_overflow() {
    let max = Q::<4, 4>::max_value();
    let two = Q::<4, 4>::from(2i64);
    assert_eq!(max.saturating_mul(two), Q::<4, 4>::max_value());
}

#[test]
fn basic_q_saturating_mul_negative_overflow() {
    let max = Q::<4, 4>::max_value();
    let neg_two = Q::<4, 4>::from(-2i64);
    assert_eq!(max.saturating_mul(neg_two), Q::<4, 4>::min_value());
}

#[test]
fn basic_q_saturating_mul_normal() {
    let a = qf::<8, 8>(2.0);
    let b = qf::<8, 8>(3.5);
    assert_eq!(qv(a.saturating_mul(b)), 7.0);
}

#[test]
fn basic_q_saturating_neg_min() {
    let min = Q::<4, 4>::min_value();
    assert_eq!(min.saturating_neg(), Q::<4, 4>::max_value());
}

#[test]
fn basic_q_saturating_neg_normal() {
    let a = Q::<8, 8>::from(5i64);
    assert_eq!(q_int(a.saturating_neg()), -5);
    let b = Q::<8, 8>::from(-3i64);
    assert_eq!(q_int(b.saturating_neg()), 3);
}

#[test]
fn basic_uq_saturating_add_overflow() {
    let max = UQ::<4, 4>::max_value();
    let one = UQ::<4, 4>::from_int(1);
    assert_eq!(max.saturating_add(one), UQ::<4, 4>::max_value());
}

#[test]
fn basic_uq_saturating_add_normal() {
    let a = UQ::<8, 8>::from_int(3);
    let b = UQ::<8, 8>::from_int(4);
    assert_eq!(a.saturating_add(b).to_int(), 7);
}

#[test]
fn basic_uq_saturating_sub_underflow() {
    let a = UQ::<4, 4>::from_int(1);
    let b = UQ::<4, 4>::from_int(3);
    assert_eq!(a.saturating_sub(b), UQ::<4, 4>::zero());
}

#[test]
fn basic_uq_saturating_sub_normal() {
    let a = UQ::<8, 8>::from_int(7);
    let b = UQ::<8, 8>::from_int(3);
    assert_eq!(a.saturating_sub(b).to_int(), 4);
}

#[test]
fn basic_uq_saturating_mul_overflow() {
    let max = UQ::<4, 4>::max_value();
    let two = UQ::<4, 4>::from_int(2);
    assert_eq!(max.saturating_mul(two), UQ::<4, 4>::max_value());
}

#[test]
fn basic_uq_saturating_mul_normal() {
    let a = uf::<8, 8>(2.0);
    let b = uf::<8, 8>(3.5);
    assert_eq!(uv(a.saturating_mul(b)), 7.0);
}

#[test]
fn basic_q_widening_add_no_overflow() {
    let max = Q::<4, 4>::max_value();
    let sum: Q<5, 4> = max.widening_add(max);
    assert_eq!(qv(sum), qv(max) * 2.0);
}

#[test]
fn basic_q_widening_add_normal() {
    let a = qf::<4, 4>(2.5);
    let b = qf::<4, 4>(3.25);
    let sum: Q<5, 4> = a.widening_add(b);
    assert_eq!(qv(sum), 5.75);
}

#[test]
fn basic_q_widening_add_frac_widen() {
    let a = qf::<4, 4>(1.5);
    let b = qf::<4, 4>(2.25);
    let sum: Q<5, 8> = a.widening_add(b);
    assert_eq!(qv(sum), 3.75);
}

#[test]
fn basic_q_widening_sub_no_overflow() {
    let min = Q::<4, 4>::min_value();
    let max = Q::<4, 4>::max_value();
    let diff: Q<5, 4> = min.widening_sub(max);
    assert_eq!(qv(diff), qv(min) - qv(max));
}

#[test]
fn basic_q_widening_sub_normal() {
    let a = qf::<4, 4>(1.5);
    let b = qf::<4, 4>(3.75);
    let diff: Q<5, 4> = a.widening_sub(b);
    assert_eq!(qv(diff), -2.25);
}

#[test]
fn basic_uq_widening_add_no_overflow() {
    let max = UQ::<4, 4>::max_value();
    let sum: UQ<5, 4> = max.widening_add(max);
    assert_eq!(uv(sum), uv(max) * 2.0);
}

#[test]
fn basic_uq_widening_add_normal() {
    let a = uf::<4, 4>(5.5);
    let b = uf::<4, 4>(3.25);
    let sum: UQ<5, 4> = a.widening_add(b);
    assert_eq!(uv(sum), 8.75);
}

#[test]
fn basic_uq_widening_sub_positive() {
    let a = uf::<4, 4>(5.5);
    let b = uf::<4, 4>(3.25);
    let diff: Q<5, 4> = a.widening_sub(b);
    assert_eq!(qv(diff), 2.25);
}

#[test]
fn basic_uq_widening_sub_negative() {
    let a = uf::<4, 4>(2.0);
    let b = uf::<4, 4>(5.5);
    let diff: Q<5, 4> = a.widening_sub(b);
    assert_eq!(qv(diff), -3.5);
}

#[test]
fn basic_uq_widening_sub_frac_widen() {
    let a = uf::<4, 4>(3.0);
    let b = uf::<4, 4>(1.5);
    let diff: Q<5, 8> = a.widening_sub(b);
    assert_eq!(qv(diff), 1.5);
}

#[test]
fn basic_q4_12_saturating_add() {
    let a = qf::<4, 12>(0.75);
    let b = qf::<4, 12>(0.5);
    let sum = a.saturating_add(b);
    assert!((qv(sum) - 1.25).abs() < 1e-4);
}

#[test]
fn basic_q4_12_saturating_mul() {
    let color = qf::<4, 12>(0.8);
    let alpha = qf::<4, 12>(0.5);
    let result = color.saturating_mul(alpha);
    assert!((qv(result) - 0.4).abs() < 1e-3);
}

#[test]
fn basic_q4_12_widening_mul_then_saturate() {
    let a = qf::<4, 12>(1.5);
    let b = qf::<4, 12>(2.0);
    let wide: Q<8, 24> = a.widening_mul(b);
    let narrow: Q<4, 12> = wide.saturate();
    assert!((qv(narrow) - 3.0).abs() < 1e-3);
}
