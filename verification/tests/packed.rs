//! Tests for the memory-compact packed containers and the bit-stream engine.

use core::mem::size_of;

use qfixed::bitstream::{low_mask, read_bits, write_bits};
use qfixed::packed::{PackedArray, PackedBits, PackedBitsVec, PackedVec};
use qfixed::{CQ, Q, UQ};

fn value<const I: u32, const F: u32>(q: Q<I, F>) -> f64 {
    q.to_count() as f64 / (1u64 << F) as f64
}

// ---------------------------------------------------------------------------
// Bit-stream engine
// ---------------------------------------------------------------------------

#[test]
fn read_after_write_all_shifts_and_widths() {
    for bit_offset in 0..24usize {
        for n in 1u32..=64 {
            for &raw in &[0u64, u64::MAX, 1, 0x8000_0000_0000_0000, 0x0F0F_0F0F_0F0F_0F0F] {
                let mut buf = [0xA5u8; 32];
                write_bits(&mut buf, bit_offset, n, raw);
                assert_eq!(
                    read_bits(&buf, bit_offset, n),
                    raw & low_mask(n),
                    "offset {bit_offset} n {n} raw {raw:#x}",
                );
            }
        }
    }
}

#[test]
fn write_preserves_neighbours() {
    for bit_offset in 0..16usize {
        for n in 1u32..=48 {
            let mut buf = [0xFFu8; 32];
            write_bits(&mut buf, bit_offset, n, 0);
            if bit_offset > 0 {
                assert_eq!(
                    read_bits(&buf, 0, bit_offset as u32),
                    low_mask(bit_offset as u32),
                    "leading bits clobbered at offset {bit_offset} n {n}",
                );
            }
            assert_eq!(
                read_bits(&buf, bit_offset + n as usize, 8),
                0xFF,
                "trailing bits clobbered at offset {bit_offset} n {n}",
            );
            assert_eq!(read_bits(&buf, bit_offset, n), 0);
        }
    }
}

#[test]
fn low_mask_values() {
    assert_eq!(low_mask(1), 1);
    assert_eq!(low_mask(12), 0xFFF);
    assert_eq!(low_mask(63), 0x7FFF_FFFF_FFFF_FFFF);
    assert_eq!(low_mask(64), u64::MAX);
}

#[test]
fn read_bits_spans_bytes_little_endian() {
    // Stream value 0x0201: bits 4..12 hold 0x20.
    let buf = [0x01u8, 0x02, 0x00];
    assert_eq!(read_bits(&buf, 0, 16), 0x0201);
    assert_eq!(read_bits(&buf, 4, 8), 0x20);
    assert_eq!(read_bits(&buf, 9, 1), 1);
    assert_eq!(read_bits(&buf, 10, 6), 0);
}

#[test]
fn write_bits_keeps_only_low_bits_of_value() {
    let mut buf = [0u8; 4];
    write_bits(&mut buf, 3, 5, 0xFF);
    assert_eq!(buf, [0xF8, 0x00, 0x00, 0x00]);
    write_bits(&mut buf, 6, 4, 0b1010);
    assert_eq!(read_bits(&buf, 6, 4), 0b1010);
    assert_eq!(read_bits(&buf, 3, 3), 0b111);
}

// ---------------------------------------------------------------------------
// PackedArray: byte-granular backing
// ---------------------------------------------------------------------------

#[test]
fn packed_array_backing_size() {
    assert_eq!(size_of::<PackedArray<Q<12, 4>, i16, 16>>(), 16 * 2);
    assert_eq!(size_of::<PackedArray<Q<4, 4>, i8, 100>>(), 100);
    assert_eq!(size_of::<PackedArray<Q<32, 32>, i64, 4>>(), 4 * 8);
    assert_eq!(size_of::<PackedArray<CQ<4, 4>, i8, 100>>(), 200);
}

#[test]
fn packed_array_q_roundtrip_exhaustive() {
    let mut arr = PackedArray::<Q<4, 4>, i8, 256>::new();
    for count in -128i64..=127 {
        let idx = (count + 128) as usize;
        arr.set(idx, Q::from_count(count));
    }
    for count in -128i64..=127 {
        let idx = (count + 128) as usize;
        assert_eq!(arr.get(idx).unwrap().to_count(), count, "count {count}");
    }
}

#[test]
fn packed_array_subbyte_width() {
    let mut arr = PackedArray::<Q<3, 2>, i8, 32>::new();
    for count in -16i64..=15 {
        arr.set((count + 16) as usize, Q::from_count(count));
    }
    for count in -16i64..=15 {
        assert_eq!(arr.get((count + 16) as usize).unwrap().to_count(), count);
    }
}

#[test]
fn packed_array_constructors() {
    let arr = PackedArray::<Q<8, 8>, i16, 5>::from_fn(|i| Q::from(i as i32));
    let expected: [Q<8, 8>; 5] = core::array::from_fn(|i| Q::from(i as i32));
    assert_eq!(arr.to_array(), expected);

    let src = [Q::<8, 8>::from(-3i32); 3];
    let arr = PackedArray::<Q<8, 8>, i16, 3>::from_array(src);
    let collected: [Q<8, 8>; 3] = core::array::from_fn(|_| Q::from(-3i32));
    assert_eq!(arr.to_array(), collected);

    let sum: f64 = arr.iter().into_iter().map(value).sum();
    assert_eq!(sum, -9.0);
}

#[test]
fn packed_array_uq_roundtrip() {
    assert_eq!(size_of::<PackedArray<UQ<4, 4>, u8, 64>>(), 64);
    let mut arr = PackedArray::<UQ<4, 4>, u8, 256>::new();
    for count in 0u64..=255 {
        arr.set(count as usize, UQ::from_count(count));
    }
    for count in 0u64..=255 {
        assert_eq!(arr.get(count as usize).unwrap().to_count(), count);
    }
}

#[test]
fn packed_array_cq_roundtrip() {
    let mut arr = PackedArray::<CQ<8, 8>, i16, 3>::new();
    arr.set(0, CQ::from_count(100, -200));
    arr.set(1, CQ::from_count(-1, 1));
    arr.set(2, CQ::from_count(32767, -32768));
    assert_eq!(arr.get(0).unwrap().to_count(), (100, -200));
    assert_eq!(arr.get(1).unwrap().to_count(), (-1, 1));
    assert_eq!(arr.get(2).unwrap().to_count(), (32767, -32768));
}

#[test]
fn packed_array_bounds() {
    let arr = PackedArray::<Q<8, 8>, i16, 4>::new();
    assert!(arr.get(4).is_none());
    assert_eq!(arr.len(), 4);
    assert!(!arr.is_empty());
}

#[test]
#[should_panic(expected = "out of bounds")]
fn packed_array_set_oob_panics() {
    let mut arr = PackedArray::<Q<8, 8>, i16, 4>::new();
    arr.set(4, Q::from(1i32));
}

#[test]
fn packed_array_new_is_zero_and_clone_copies() {
    let mut arr = PackedArray::<Q<6, 2>, i8, 3>::new();
    assert!(arr.iter().iter().all(|q| q.to_count() == 0));
    arr.set(1, Q::from_count(-7));
    let copy = arr.clone();
    assert_eq!(copy.get(1).unwrap().to_count(), -7);
    assert_eq!(copy.get(0).unwrap().to_count(), 0);
}

#[test]
fn packed_array_unsigned_backing_for_signed_values() {
    // Only the bit pattern is stored, so a u8 holds a Q4.4 as well as an i8.
    let mut arr = PackedArray::<Q<4, 4>, u8, 2>::new();
    arr.set(0, Q::from_count(-128));
    arr.set(1, Q::from_count(127));
    assert_eq!(arr.get(0).unwrap().to_count(), -128);
    assert_eq!(arr.get(1).unwrap().to_count(), 127);
}

// ---------------------------------------------------------------------------
// PackedBits: bit-exact packing
// ---------------------------------------------------------------------------

#[test]
fn packed_bits_density() {
    let bits = PackedBits::<Q<12, 0>, 3>::new();
    assert_eq!(bits.capacity(), 2);
    let adc = PackedBits::<Q<12, 0>, 30>::new();
    assert_eq!(adc.capacity(), 20);
}

#[test]
fn packed_bits_12bit_roundtrip() {
    let mut adc = PackedBits::<Q<12, 0>, 30>::new();
    let samples = [0i64, 1, -1, 2047, -2048, 1000, -1000, 42, -42];
    for &s in &samples {
        adc.push(Q::from_count(s));
    }
    for (i, &s) in samples.iter().enumerate() {
        assert_eq!(adc.get(i).unwrap().to_count(), s, "sample {i}");
    }
    assert_eq!(adc.len(), samples.len());
}

#[test]
fn packed_bits_5bit_exhaustive() {
    let mut bits = PackedBits::<Q<3, 2>, 5>::new();
    assert_eq!(bits.capacity(), 8);
    let counts = [-16i64, -9, -1, 0, 1, 7, 15, -8];
    for &c in &counts {
        bits.push(Q::from_count(c));
    }
    for (i, &c) in counts.iter().enumerate() {
        assert_eq!(bits.get(i).unwrap().to_count(), c);
    }
}

#[test]
fn packed_bits_64bit_lane() {
    let mut bits = PackedBits::<Q<32, 32>, 16>::new();
    assert_eq!(bits.capacity(), 2);
    bits.push(Q::from(5i32));
    bits.push(Q::from(-7i32));
    assert_eq!(value(bits.get(0).unwrap()), 5.0);
    assert_eq!(value(bits.get(1).unwrap()), -7.0);
}

#[test]
fn packed_bits_cq_interleaved() {
    let mut bits = PackedBits::<CQ<6, 0>, 3>::new();
    assert_eq!(bits.capacity(), 2);
    bits.push(CQ::from_count(31, -32));
    bits.push(CQ::from_count(-1, 1));
    assert_eq!(bits.get(0).unwrap().to_count(), (31, -32));
    assert_eq!(bits.get(1).unwrap().to_count(), (-1, 1));
}

#[test]
fn packed_bits_set_in_place() {
    let mut bits = PackedBits::<Q<12, 0>, 30>::new();
    for _ in 0..5 {
        bits.push(Q::from_count(2047));
    }
    bits.set(2, Q::from_count(-1));
    assert_eq!(bits.get(1).unwrap().to_count(), 2047);
    assert_eq!(bits.get(2).unwrap().to_count(), -1);
    assert_eq!(bits.get(3).unwrap().to_count(), 2047);
}

#[test]
fn packed_bits_capacity_limit() {
    let mut bits = PackedBits::<Q<8, 0>, 2>::new();
    assert_eq!(bits.capacity(), 2);
    assert!(bits.try_push(Q::from(1i32)).is_ok());
    assert!(bits.try_push(Q::from(2i32)).is_ok());
    assert!(bits.try_push(Q::from(3i32)).is_err());
}

#[test]
fn packed_bits_try_push_hands_back_value() {
    let mut bits = PackedBits::<Q<8, 0>, 1>::new();
    assert!(bits.try_push(Q::from(1i32)).is_ok());
    assert_eq!(bits.try_push(Q::from(9i32)), Err(Q::from(9i32)));
    assert_eq!(bits.len(), 1);
}

#[test]
fn packed_bits_pop() {
    let mut bits = PackedBits::<Q<12, 0>, 30>::new();
    bits.push(Q::from_count(100));
    bits.push(Q::from_count(-200));
    assert_eq!(bits.pop().unwrap().to_count(), -200);
    assert_eq!(bits.pop().unwrap().to_count(), 100);
    assert!(bits.pop().is_none());
    assert!(bits.is_empty());
}

#[test]
fn packed_bits_17bit_crossing() {
    let mut bits = PackedBits::<Q<9, 8>, 12>::new();
    assert_eq!(bits.capacity(), 5);
    let counts = [0i64, -1, 65535, -65536, 12345];
    for &c in &counts {
        bits.push(Q::from_count(c));
    }
    for (i, &c) in counts.iter().enumerate() {
        assert_eq!(bits.get(i).unwrap().to_count(), c, "elem {i}");
    }
}

#[test]
fn packed_bits_zero_capacity() {
    let bits = PackedBits::<Q<12, 0>, 1>::new();
    assert_eq!(bits.capacity(), 0);
    assert!(bits.is_empty());
    assert!(bits.get(0).is_none());
}

#[test]
fn packed_bits_cq_wide_lane() {
    let mut bits = PackedBits::<CQ<16, 16>, 16>::new();
    assert_eq!(bits.capacity(), 2);
    bits.push(CQ::from_count(2_000_000, -2_000_000));
    bits.push(CQ::from_count(-1, 1));
    assert_eq!(bits.get(0).unwrap().to_count(), (2_000_000, -2_000_000));
    assert_eq!(bits.get(1).unwrap().to_count(), (-1, 1));
}

#[test]
fn packed_bits_uq_clear_and_iter() {
    let mut bits = PackedBits::<UQ<3, 0>, 2>::new();
    assert_eq!(bits.capacity(), 5);
    for c in [7u64, 0, 5] {
        bits.push(UQ::from_count(c));
    }
    let counts: Vec<u64> = bits.iter().iter().map(|u| u.to_count()).collect();
    assert_eq!(counts, [7, 0, 5]);
    bits.clear();
    assert!(bits.is_empty());
    assert!(bits.get(0).is_none());
}

// ---------------------------------------------------------------------------
// PackedVec: growable byte-granular
// ---------------------------------------------------------------------------

#[test]
fn packed_vec_roundtrip() {
    let mut v = PackedVec::<Q<8, 8>, i16>::new();
    assert!(v.is_empty());
    for i in -3i32..=3 {
        v.push(Q::from(i));
    }
    assert_eq!(v.len(), 7);
    v.set(0, Q::from(10i32));
    assert_eq!(value(v.get(0).unwrap()), 10.0);
    assert_eq!(value(v.pop().unwrap()), 3.0);
    assert_eq!(v.len(), 6);

    let values: Vec<f64> = v.iter().into_iter().map(value).collect();
    assert_eq!(values, [10.0, -2.0, -1.0, 0.0, 1.0, 2.0]);
}

#[test]
fn packed_vec_from_iter_and_extend() {
    let start: Vec<Q<4, 4>> = (0i32..4).map(Q::from).collect();
    let mut v = PackedVec::<Q<4, 4>, i8>::from_values(&start);
    assert_eq!(v.len(), 4);
    let more: Vec<Q<4, 4>> = (4i32..6).map(Q::from).collect();
    v.extend_from_slice(&more);
    assert_eq!(v.len(), 6);
    let sum: f64 = v.iter().into_iter().map(value).sum();
    assert_eq!(sum, (0..6).sum::<i32>() as f64);
}

#[test]
fn packed_vec_cq() {
    let mut v = PackedVec::<CQ<8, 8>, i16>::new();
    v.push(CQ::from_count(7, -9));
    v.push(CQ::from_count(-100, 200));
    assert_eq!(v.get(0).unwrap().to_count(), (7, -9));
    assert_eq!(v.get(1).unwrap().to_count(), (-100, 200));
}

#[test]
fn packed_vec_clear_with_capacity_and_clone() {
    let mut v = PackedVec::<UQ<8, 0>, u8>::with_capacity(4);
    v.push(UQ::from_count(200));
    let copy = v.clone();
    v.clear();
    assert!(v.is_empty());
    assert!(v.pop().is_none());
    assert_eq!(copy.get(0).unwrap().to_count(), 200);
    assert!(copy.get(1).is_none());
}

// ---------------------------------------------------------------------------
// PackedBitsVec: growable bit-exact
// ---------------------------------------------------------------------------

#[test]
fn packed_bits_vec_grows() {
    let mut v = PackedBitsVec::<Q<12, 0>>::new();
    let samples = [0i64, -1, 2047, -2048, 55, -55, 1234];
    for &s in &samples {
        v.push(Q::from_count(s));
    }
    for (i, &s) in samples.iter().enumerate() {
        assert_eq!(v.get(i).unwrap().to_count(), s);
    }
    assert_eq!(v.pop().unwrap().to_count(), 1234);
    assert_eq!(v.len(), samples.len() - 1);
}

#[test]
fn packed_bits_vec_from_iter() {
    let src: Vec<Q<12, 0>> = [10i64, -20, 30, -40].into_iter().map(Q::from_count).collect();
    let v = PackedBitsVec::<Q<12, 0>>::from_values(&src);
    let got: Vec<i64> = v.iter().iter().map(|q| q.to_count()).collect();
    assert_eq!(got, [10, -20, 30, -40]);
}

#[test]
fn packed_bits_vec_cq_grows() {
    let mut v = PackedBitsVec::<CQ<5, 0>>::new();
    let pairs = [(15i64, -16i64), (-1, 1), (0, 7), (-16, 15), (3, -3)];
    for &(re, im) in &pairs {
        v.push(CQ::from_count(re, im));
    }
    for (i, &(re, im)) in pairs.iter().enumerate() {
        assert_eq!(v.get(i).unwrap().to_count(), (re, im), "elem {i}");
    }
    assert_eq!(v.pop().unwrap().to_count(), (3, -3));
    assert_eq!(v.len(), pairs.len() - 1);
}

#[test]
fn packed_bits_vec_set_clear_and_clone() {
    let mut v = PackedBitsVec::<UQ<3, 0>>::new();
    for c in [1u64, 2, 3] {
        v.push(UQ::from_count(c));
    }
    v.set(1, UQ::from_count(7));
    let copy = v.clone();
    assert_eq!(copy.get(0).unwrap().to_count(), 1);
    assert_eq!(copy.get(1).unwrap().to_count(), 7);
    assert_eq!(copy.get(2).unwrap().to_count(), 3);
    v.clear();
    assert!(v.is_empty());
    v.push(UQ::from_count(4));
    assert_eq!(v.get(0).unwrap().to_count(), 4);
}

#[test]
fn packed_bits_reads_give_last_writes() {
    let mut b = PackedBits::<Q<12, 0>, 8>::new();
    b.push(Q::from_count(2047));
    b.push(Q::from_count(-2048));
    b.set(0, Q::from_count(-1));
    b.push(Q::from_count(5));
    assert_eq!(b.pop().map(|q| q.to_count()), Some(5));
    b.push(Q::from_count(7));
    assert_eq!(b.get(0).map(|q| q.to_count()), Some(-1));
    assert_eq!(b.get(1).map(|q| q.to_count()), Some(-2048));
    assert_eq!(b.get(2).map(|q| q.to_count()), Some(7));
    assert!(b.get(3).is_none());
}
