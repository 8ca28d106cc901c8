//! Exact-value tests of the register arithmetic, the reductions and the
//! relations between operations.

use qfixed::{CQ, FixedError, Q, UQ};

#[test]
fn defaults_are_zero() {
    assert_eq!(Q::<4, 4>::default().to_count(), 0);
    assert_eq!(UQ::<4, 4>::default().to_count(), 0);
    assert_eq!(CQ::<4, 4>::default().to_count(), (0, 0));
}

#[test]
fn q_wrapping_ops_exact() {
    let min = Q::<4, 4>::min_value();
    assert_eq!(min.wrapping_neg(), min);
    assert_eq!(Q::<4, 4>::from_count(-100).wrapping_sub(Q::from_count(100)).to_count(), 56);
    // 7.5 * 2.0 = 15.0 wraps in Q4.4: count 240 -> -16.
    let a = Q::<4, 4>::from_count(120);
    let b = Q::<4, 4>::from_count(32);
    assert_eq!(a.wrapping_mul(b).to_count(), -16);
    // -7 / 2 rounds toward zero: -3.5 exactly in Q8.8, and -1/3 truncates.
    let n = Q::<8, 8>::from(-7i32);
    assert_eq!(n.wrapping_div(Q::from(2i32)).to_count(), -896);
    let third = Q::<8, 8>::from(-1i32).wrapping_div(Q::from(3i32));
    assert_eq!(third.to_count(), -85);
}

#[test]
fn q_saturating_ops_exact() {
    let a = Q::<4, 4>::from_count(100);
    assert_eq!(a.saturating_add(a).to_count(), 127);
    assert_eq!(a.neg::<5>().to_count(), -100);
    assert_eq!(Q::<4, 4>::from_count(-100).saturating_sub(a).to_count(), -128);
    // Full-width words saturate too.
    let big = Q::<32, 32>::max_value();
    assert_eq!(big.saturating_add(big), big);
    assert_eq!(Q::<32, 32>::min_value().saturating_neg(), big);
}

#[test]
fn q_abs_of_extremes() {
    let min = Q::<4, 4>::min_value();
    assert_eq!(Q::<4, 4>::from_count(min.to_count() + 1).abs().to_count(), 127);
    assert_eq!(Q::<4, 4>::from_count(-5).abs().to_count(), 5);
    assert_eq!(Q::<4, 4>::from_count(5).abs().to_count(), 5);
}

#[test]
fn q_full_products() {
    let a = Q::<4, 4>::min_value();
    let p = a.mul::<8, 8>(a);
    assert_eq!(p.to_count(), 16384);
    let u = UQ::<4, 4>::max_value();
    assert_eq!(u.mul::<8, 8>(u).to_count(), 65025);
    let d: Q<5, 4> = UQ::<4, 4>::zero().sub(u);
    assert_eq!(d.to_count(), -255);
}

#[test]
fn q_bitwise_and_shift_assign() {
    let a = Q::<8, 0>::from_count(0b0101);
    let b = Q::<8, 0>::from_count(-128);
    assert_eq!((a | b).to_count(), -123);
    let mut c = Q::<8, 0>::from_count(3);
    c.shl_assign(6);
    assert_eq!(c.to_count(), -64);
    c.shr_assign(3);
    assert_eq!(c.to_count(), -8);
}

#[test]
fn q_widening_mul_narrow_output_is_exact_when_wide_enough() {
    let a = Q::<4, 4>::from_count(-128);
    let b = Q::<4, 4>::from_count(-128);
    let c: Q<8, 8> = a.widening_mul(b);
    assert_eq!(c.to_count(), 16384);
    // Fewer fractional bits: the product is shifted right (floored).
    let d: Q<8, 2> = Q::<4, 4>::from_count(-3).widening_mul(Q::<4, 4>::from_count(5));
    assert_eq!(d.to_count(), -1);
}

#[test]
fn uq_wrapping_and_checked_ops() {
    let max = UQ::<4, 4>::max_value();
    assert_eq!(max.wrapping_add(UQ::from_count(1)).to_count(), 0);
    assert_eq!(UQ::<4, 4>::zero().wrapping_sub(UQ::from_count(1)).to_count(), 255);
    // 15.9375 * 2.0 wraps: count 510 -> 254.
    assert_eq!(max.wrapping_mul(UQ::from_count(32)).to_count(), 254);
    let seven = UQ::<8, 8>::from_int(7);
    assert_eq!(seven.wrapping_div(UQ::from_int(2)).to_count(), 896);
    assert_eq!(seven.checked_div(UQ::zero()), None);
    assert_eq!(seven.to_int(), 7);
    assert_eq!(UQ::<8, 8>::from_count(0x1FF).to_int(), 1);
}

#[test]
fn uq_min_max_clamp_and_bitwise() {
    let a = UQ::<8, 0>::from_count(0b1100);
    let b = UQ::<8, 0>::from_count(0b1010);
    assert_eq!(a.min(b).to_count(), 0b1010);
    assert_eq!(a.max(b).to_count(), 0b1100);
    assert_eq!(a.clamp(UQ::from_count(0), UQ::from_count(5)).to_count(), 5);
    assert_eq!((a & b).to_count(), 0b1000);
    assert_eq!((a | b).to_count(), 0b1110);
    assert_eq!((a << 5).to_count(), 128);
    let mut c = a;
    c.shl_assign(1);
    assert_eq!(c.to_count(), 24);
    c.shr_assign(3);
    assert_eq!(c.to_count(), 3);
}

#[test]
fn uq_widening_ops() {
    let a = UQ::<4, 4>::from_count(200);
    let b = UQ::<4, 4>::from_count(100);
    let s: UQ<5, 4> = a.widening_add(b);
    assert_eq!(s.to_count(), 300);
    let d: Q<5, 4> = b.widening_sub(a);
    assert_eq!(d.to_count(), -100);
    let p: UQ<8, 8> = a.widening_mul(b);
    assert_eq!(p.to_count(), 20000);
}

#[test]
fn uq_try_from_count_and_from_int() {
    assert_eq!(UQ::<4, 4>::try_from_count(256), Err(FixedError::OutOfRange));
    assert_eq!(UQ::<4, 4>::from_int(3).to_count(), 48);
    assert_eq!(UQ::<4, 4>::from_bits(0xAB).to_count(), 0xAB);
}

// ---------------------------------------------------------------------------
// Reductions
// ---------------------------------------------------------------------------

#[test]
fn q_sum_wraps_when_accumulator_too_narrow() {
    let xs = [Q::<12, 4>::from(1000i32); 64];
    // 64000 * 16 = 1024000 counts, wrapped to 16 bits.
    assert_eq!(Q::<12, 4>::sum(&xs).to_count(), -24576);
    assert_eq!(Q::<18, 4>::sum(&xs).to_count(), 1_024_000);
}

#[test]
fn q_sum_realigns_to_fewer_fractional_bits() {
    let xs = [Q::<8, 4>::from_count(3), Q::<8, 4>::from_count(4)];
    // 7 counts of 1/16 realigned to 1/4 floors to 1.
    let total: Q<10, 2> = Q::sum(&xs);
    assert_eq!(total.to_count(), 1);
    assert_eq!(Q::<10, 2>::try_sum(&xs).map(|q| q.to_count()), Ok(1));
}

#[test]
fn uq_sum_and_try_sum() {
    let xs = [UQ::<4, 4>::from_count(255); 4];
    assert_eq!(UQ::<6, 4>::sum(&xs).to_count(), 1020);
    assert_eq!(UQ::<4, 4>::sum(&xs).to_count(), 1020 % 256);
    assert_eq!(UQ::<4, 4>::try_sum(&xs), Err(FixedError::OutOfRange));
    assert_eq!(UQ::<6, 4>::try_sum::<4, 4>(&[]).map(|u| u.to_count()), Ok(0));
}

#[test]
fn cq_sum_and_try_sum() {
    let xs = [CQ::<4, 4>::from_count(100, -100), CQ::<4, 4>::from_count(50, 27)];
    let total: CQ<5, 4> = CQ::sum(&xs);
    assert_eq!(total.to_count(), (150, -73));
    assert_eq!(CQ::<5, 4>::try_sum(&xs).map(|z| z.to_count()), Ok((150, -73)));
    assert_eq!(CQ::<4, 4>::try_sum(&xs), Err(FixedError::OutOfRange));
    let wrapped: CQ<4, 4> = CQ::sum(&xs);
    assert_eq!(wrapped.to_count(), (-106, -73));
    let empty: CQ<4, 4> = CQ::sum::<4, 4>(&[]);
    assert_eq!(empty.to_count(), (0, 0));
}

// ---------------------------------------------------------------------------
// Relations between operations
// ---------------------------------------------------------------------------

#[test]
fn wrapping_sub_undoes_wrapping_add() {
    for &(a, b) in &[(100i64, 50i64), (-128, -128), (127, 1), (-3, 120)] {
        let x = Q::<4, 4>::from_count(a);
        let y = Q::<4, 4>::from_count(b);
        assert_eq!(x.wrapping_add(y).wrapping_sub(y), x);
    }
}

#[test]
fn bits_roundtrip_for_every_q4_4() {
    for c in -128i64..=127 {
        let x = Q::<4, 4>::from_count(c);
        assert_eq!(Q::<4, 4>::from_bits(x.to_bits()), x);
    }
}

#[test]
fn narrow_undoes_widen_for_every_q3_2() {
    for c in -16i64..=15 {
        let x = Q::<3, 2>::from_count(c);
        let w: Q<10, 9> = x.widen();
        assert_eq!(w.to_count(), c << 7);
        assert_eq!(w.try_narrow::<3, 2>(), Ok(x));
    }
}

// ---------------------------------------------------------------------------
// Complex values
// ---------------------------------------------------------------------------

#[test]
fn cq_componentwise_register_ops() {
    let a = CQ::<4, 4>::from_count(120, -128);
    let b = CQ::<4, 4>::from_count(10, 1);
    assert_eq!(a.wrapping_sub(b).to_count(), (110, 127));
    assert_eq!(a.wrapping_neg().to_count(), (-120, -128));
    assert_eq!(a.saturating_add(b).to_count(), (127, -127));
    assert_eq!(a.saturating_sub(b).to_count(), (110, -128));
    assert_eq!(a.wrapping_conj().to_count(), (120, -128));
}

#[test]
fn cq_products_exact() {
    let a = CQ::<4, 4>::from_count(16, 32);
    let b = CQ::<4, 4>::from_count(48, 64);
    // (1 + 2i)(3 + 4i) = -5 + 10i, counts in 2F = 8 fractional bits.
    let p: CQ<9, 8> = a.mul(b);
    assert_eq!(p.to_count(), (-5 * 256, 10 * 256));
    let w = a.wrapping_mul(b);
    assert_eq!(w.to_count(), (-80, -96));
    let s = a.saturating_mul(b);
    assert_eq!(s.to_count(), (-80, 127));
    let n: Q<9, 8> = a.norm_sqr();
    assert_eq!(n.to_count(), 5 * 256);
}

#[test]
fn cq_rotations_and_conjugate() {
    let z = CQ::<4, 4>::from_count(-128, 5);
    let c: CQ<5, 4> = z.conj();
    assert_eq!(c.to_count(), (-128, -5));
    let j: CQ<5, 4> = z.mul_j();
    assert_eq!(j.to_count(), (-5, -128));
    let nj: CQ<5, 4> = z.mul_neg_j();
    assert_eq!(nj.to_count(), (5, 128));
    assert_eq!(CQ::<4, 4>::j().to_count(), (0, 16));
    assert_eq!(CQ::<4, 4>::one().to_count(), (16, 0));
}

#[test]
fn cq_conversions_componentwise() {
    let z = CQ::<8, 4>::from_count(-40, 41);
    let t: CQ<8, 0> = z.truncate();
    assert_eq!(t.to_count(), (-3, 2));
    let r: CQ<8, 0> = z.round_to_zero();
    assert_eq!(r.to_count(), (-2, 2));
    let f: CQ<8, 6> = z.reformat();
    assert_eq!(f.to_count(), (-160, 164));
    let w: CQ<9, 5> = z.widen();
    assert_eq!(w.to_count(), (-80, 82));
    assert_eq!(z.try_narrow::<8, 3>(), Err(FixedError::Inexact));
    let s: CQ<2, 0> = z.saturate();
    assert_eq!(s.to_count(), (-2, 1));
}

#[test]
fn cq_bits_and_shifts_assign() {
    let z = CQ::<4, 4>::from_count(-1, 3);
    assert_eq!(z.to_bits(), (0xFF, 0x03));
    assert_eq!(CQ::<4, 4>::from_bits(0xFF, 0x03), z);
    let mut m = z;
    m.shl_assign(6);
    assert_eq!(m.to_count(), (-64, -64));
    m.shr_assign(2);
    assert_eq!(m.to_count(), (-16, -16));
    assert_eq!(CQ::<4, 4>::total_bits(), 8);
    assert_eq!(CQ::<4, 4>::integer_bits(), 4);
    assert_eq!(CQ::<4, 4>::fractional_bits(), 4);
}

#[test]
fn full_width_saturating_ops_on_ordinary_values() {
    let a = Q::<32, 32>::from_count(5);
    let b = Q::<32, 32>::from_count(7);
    assert_eq!(a.saturating_add(b).to_count(), 12);
    assert_eq!(a.saturating_sub(b).to_count(), -2);
    assert_eq!(a.saturating_neg().to_count(), -5);
    assert_eq!(Q::<32, 32>::min_value().saturating_sub(b), Q::<32, 32>::min_value());
    assert_eq!(Q::<8, 8>::from_count(5).wrapping_neg().to_count(), -5);
}

#[test]
fn try_sum_reports_totals_beyond_the_shift_word() {
    // Four counts of 2^62 realigned by 64 places: the exact total is 2^128
    // counts, far beyond any accumulator, and must not wrap to zero.
    let q = Q::<64, 0>::from_count(1i64 << 62);
    assert_eq!(Q::<0, 64>::try_sum(&[q; 4]), Err(FixedError::OutOfRange));
    let u = UQ::<64, 0>::from_count(1u64 << 62);
    assert_eq!(UQ::<0, 64>::try_sum(&[u; 4]), Err(FixedError::OutOfRange));
    let c = CQ::<64, 0>::from_count(1i64 << 62, 0);
    assert_eq!(CQ::<0, 64>::try_sum(&[c; 4]), Err(FixedError::OutOfRange));
    // A total that fits after the shift still comes back exactly.
    let one = Q::<64, 0>::from_count(-1);
    assert_eq!(Q::<1, 63>::try_sum(&[one]).map(|q| q.to_count()), Ok(i64::MIN));
}

#[test]
fn saturate_clamps_the_value_not_a_wrapped_word() {
    // 3.0 cannot be held by Q<1, 63>; the clamp gives MAX, not a wrapped MIN.
    let three = Q::<32, 0>::from_count(3);
    assert_eq!(three.saturate::<1, 63>().to_count(), i64::MAX);
    assert_eq!(Q::<32, 0>::from_count(-3).saturate::<1, 63>().to_count(), i64::MIN);
    let big = UQ::<32, 0>::from_count(3);
    assert_eq!(big.saturate::<1, 63>().to_count(), u64::MAX);
    let z = CQ::<32, 0>::from_count(3, -3).saturate::<1, 63>();
    assert_eq!(z.to_count(), (i64::MAX, i64::MIN));
}

#[test]
fn unsigned_to_signed_reads_the_exact_count() {
    let top = UQ::<64, 0>::from_count(1u64 << 63);
    assert_eq!(top.try_to_signed::<64, 0>(), Err(FixedError::OutOfRange));
    assert_eq!(top.to_signed::<64, 0>().to_count(), i64::MIN);
    assert_eq!(top.try_to_signed::<63, 0>(), Err(FixedError::OutOfRange));
    // Moving right by one place brings the largest count into range exactly.
    let ok = UQ::<64, 1>::from_count(u64::MAX).try_to_signed::<64, 0>().map(|q| q.to_count());
    assert_eq!(ok, Ok(i64::MAX));
}
