//! Tests for `Q`/`UQ` conversions: widen/truncate/saturate, signed/unsigned,
//! `From<integer>`, and reformat.

use qfixed::{Q, UQ};

fn qv<const I: u32, const F: u32>(q: Q<I, F>) -> f64 {
    q.to_count() as f64 / (1u64 << F) as f64
}

fn uv<const I: u32, const F: u32>(q: UQ<I, F>) -> f64 {
    q.to_count() as f64 / (1u64 << F) as f64
}

fn qf<const I: u32, const F: u32>(v: f64) -> Q<I, F> {
    Q::from_count((v * (1u64 << F) as f64) as i64)
}

fn uf<const I: u32, const F: u32>(v: f64) -> UQ<I, F> {
    UQ::from_count((v * (1u64 << F) as f64) as u64)
}

#[test]
fn convert_q_widen() {
    let a = qf::<12, 4>(16.5);
    let b: Q<16, 16> = a.widen();
    assert!((qv(b) - 16.5).abs() < 1e-4);
}

#[test]
fn convert_q_truncate() {
    let a = qf::<16, 16>(16.5);
    let b: Q<12, 4> = a.truncate();
    assert!((qv(b) - 16.5).abs() < 0.1);
}

#[test]
fn convert_q_saturate() {
    let a = Q::<16, 16>::from(1000i64);
    let b: Q<4, 4> = a.saturate();
    assert_eq!(b, Q::<4, 4>::max_value());
}

#[test]
fn convert_q_saturate_negative() {
    let a = Q::<16, 16>::from(-1000i64);
    let b: Q<4, 4> = a.saturate();
    assert_eq!(b, Q::<4, 4>::min_value());
}

#[test]
fn convert_uq_to_signed() {
    let v = uf::<0, 16>(0.5);
    let s: Q<16, 16> = v.to_signed();
    assert!((qv(s) - 0.5).abs() < 0.001);
}

#[test]
fn convert_q_to_unsigned() {
    let v = qf::<4, 12>(0.75);
    let u: UQ<4, 12> = v.to_unsigned();
    assert!((uv(u) - 0.75).abs() < 0.001);
}

#[test]
fn convert_q_to_unsigned_clamps_negative() {
    let v = Q::<4, 12>::from(-1i64);
    let u: UQ<4, 12> = v.to_unsigned();
    assert_eq!(u, UQ::<4, 12>::zero());
}

#[test]
fn convert_q_from_i32() {
    let v: Q<16, 16> = Q::from(42i32);
    assert_eq!(v.to_count() >> 16, 42);
}

#[test]
fn convert_uq_from_u8() {
    let v: UQ<8, 8> = UQ::from(5u8);
    assert_eq!(v.to_int(), 5);
}

#[test]
fn convert_q_reformat() {
    let a = qf::<12, 4>(2.5);
    let b: Q<4, 12> = a.reformat();
    assert!((qv(b) - 2.5).abs() < 0.01);
}

#[test]
fn q_truncate_floors_and_wraps() {
    // -2.5 in Q8.4 truncated to Q8.0 floors to -3.
    let a = Q::<8, 4>::from_count(-40);
    let b: Q<8, 0> = a.truncate();
    assert_eq!(b.to_count(), -3);
    // 100.0 in Q8.0 truncated to Q4.0 wraps: 100 mod 16 = 4.
    let c = Q::<8, 0>::from(100i32);
    let d: Q<4, 0> = c.truncate();
    assert_eq!(d.to_count(), 4);
}

#[test]
fn q_saturate_clamps_after_shift() {
    // 2.5 in Q8.4 saturated to Q2.0 (range [-2, 1]) clamps to 1.
    let a = Q::<8, 4>::from_count(40);
    let b: Q<2, 0> = a.saturate();
    assert_eq!(b.to_count(), 1);
}

#[test]
fn q_to_unsigned_shifts_and_masks() {
    // 3.25 in Q8.4 to UQ4.2: count 13; 0.0 stays 0.
    let a = Q::<8, 4>::from_count(52);
    let b: UQ<4, 2> = a.to_unsigned();
    assert_eq!(b.to_count(), 13);
    let z: UQ<4, 2> = Q::<8, 4>::from_count(0).to_unsigned();
    assert_eq!(z.to_count(), 0);
}

#[test]
fn uq_conversions() {
    let a = UQ::<8, 4>::from_count(0xAB);
    let w: UQ<16, 8> = a.widen();
    assert_eq!(w.to_count(), 0xAB0);
    let t: UQ<8, 0> = a.truncate();
    assert_eq!(t.to_count(), 0xA);
    let s: UQ<2, 0> = a.saturate();
    assert_eq!(s.to_count(), 3);
    let r: UQ<8, 2> = a.reformat();
    assert_eq!(r.to_count(), 0x2A);
    let z: UQ<8, 0> = a.round_to_zero();
    assert_eq!(z.to_count(), 0xA);
}

#[test]
fn uq_to_signed_wraps_out_of_range() {
    // 200 does not fit Q8.0 ([-128, 127]) and wraps to -56.
    let a = UQ::<8, 0>::from_count(200);
    let q: Q<8, 0> = a.to_signed();
    assert_eq!(q.to_count(), -56);
    assert!(a.try_to_signed::<9, 0>().is_ok());
}
