//! The bit-stream engine behind the bit-exact containers.
//!
//! A byte buffer is read as one little-endian number, its *stream value*:
//! byte `j` holds bits `8j .. 8j + 8`. A field of `n` bits at bit offset
//! `off` is the number those bits spell. [`read_bits`] returns a field;
//! [`write_bits`] replaces one and leaves every other bit of the stream
//! as it was.

use vstd::prelude::*;
use vstd::arithmetic::power2::{pow2, lemma_pow2_pos, lemma_pow2_adds, lemma2_to64, lemma2_to64_rest};
use vstd::arithmetic::div_mod::{lemma_fundamental_div_mod, lemma_fundamental_div_mod_converse,
    lemma_div_denominator, lemma_mod_bound, lemma_div_pos_is_pos, lemma_mod_multiples_vanish,
    lemma_small_mod, lemma_mod_breakdown};
use vstd::arithmetic::mul::{lemma_mul_is_commutative, lemma_mul_is_associative,
    lemma_mul_is_distributive_add, lemma_mul_nonnegative, lemma_mul_strictly_positive};

verus! {

/// The little-endian number spelled by `bytes`: byte `j` weighs `2^(8j)`.
pub open spec fn stream_value(bytes: Seq<u8>) -> nat
    decreases bytes.len(),
{
    if bytes.len() == 0 {
        0
    } else {
        stream_value(bytes.drop_last()) + (bytes.last() as nat) * pow2((8 * (bytes.len() - 1)) as nat)
    }
}

/// The `n`-bit field of `v` that starts at bit `off`.
pub open spec fn field(v: int, off: nat, n: nat) -> int {
    (v / (pow2(off) as int)) % (pow2(n) as int)
}

/// `v` with its `n`-bit field at bit `off` replaced by the low `n` bits of
/// `x`; every other bit kept.
pub open spec fn splice(v: int, off: nat, n: nat, x: int) -> int {
    v % (pow2(off) as int) + (x % (pow2(n) as int)) * pow2(off) + (v / (pow2(off + n) as int)) * pow2(
        off + n,
    )
}

/// A field lying above a low part shorter than its offset reads the same
/// in the high part alone.
pub proof fn lemma_field_high(lo: int, hi: int, p: nat, s: nat, n: nat)
    requires
        0 <= lo < pow2(p),
    ensures
        field(lo + pow2(p) * hi, p + s, n) == field(hi, s, n),
{
    lemma_pow2_pos(p);
    lemma_pow2_pos(s);
    lemma_pow2_adds(p, s);
    let x = lo + pow2(p) * hi;
    lemma_mul_is_commutative(pow2(p) as int, hi);
    lemma_fundamental_div_mod_converse(x, pow2(p) as int, hi, lo);
    crate::bits::lemma_floor_div_div(x, pow2(p) as int, pow2(s) as int);
}

/// A field lying below bit `q` does not see what is added at `2^q` and
/// above.
pub proof fn lemma_field_low(w: int, h: int, q: nat, s: nat, n: nat)
    requires
        s + n <= q,
    ensures
        field(w + pow2(q) * h, s, n) == field(w, s, n),
{
    lemma_pow2_pos(s);
    lemma_pow2_pos(n);
    let ps = pow2(s) as int;
    let d = (q - s - n) as nat;
    lemma_pow2_adds(s, (q - s) as nat);
    lemma_pow2_adds(n, d);
    lemma_fundamental_div_mod(w, ps);
    lemma_mod_bound(w, ps);
    let k = pow2((q - s) as nat) * h;
    // w + 2^q h = (w / 2^s + 2^(q-s) h) * 2^s + w % 2^s
    assert(w + pow2(q) * h == (w / ps + k) * ps + w % ps) by {
        lemma_mul_is_associative(pow2(s) as int, pow2((q - s) as nat) as int, h);
        lemma_mul_is_distributive_add(ps, w / ps, k);
        lemma_mul_is_commutative(ps, w / ps);
        lemma_mul_is_commutative(ps, w / ps + k);
        lemma_mul_is_commutative(ps, k);
    }
    lemma_fundamental_div_mod_converse(w + pow2(q) * h, ps, w / ps + k, w % ps);
    // k is a multiple of 2^n
    assert(k == pow2(n) * (pow2(d) * h)) by {
        lemma_mul_is_associative(pow2(n) as int, pow2(d) as int, h);
    }
    lemma_mod_multiples_vanish(pow2(d) * h, w / ps, pow2(n) as int);
}

/// Replacing a field and reading it back gives the low `n` bits of what was
/// written.
pub proof fn lemma_field_of_splice(v: int, off: nat, n: nat, x: int)
    ensures
        field(splice(v, off, n, x), off, n) == x % (pow2(n) as int),
{
    lemma_pow2_pos(off);
    lemma_pow2_pos(n);
    lemma_pow2_adds(off, n);
    let lo = v % (pow2(off) as int);
    lemma_mod_bound(v, pow2(off) as int);
    let w = x % (pow2(n) as int);
    lemma_mod_bound(x, pow2(n) as int);
    let h = v / (pow2(off + n) as int);
    assert(splice(v, off, n, x) == lo + pow2(off) * (w + pow2(n) * h)) by {
        lemma_mul_is_distributive_add(pow2(off) as int, w, pow2(n) * h);
        lemma_mul_is_associative(pow2(off) as int, pow2(n) as int, h);
        lemma_mul_is_commutative(w, pow2(off) as int);
        lemma_mul_is_commutative(h, pow2(off + n) as int);
    }
    lemma_field_high(lo, w + pow2(n) * h, off, 0, n);
    lemma_field_low(w, h, n, 0, n);
    lemma2_to64();
    lemma_small_mod(w as nat, pow2(n));
}

/// Replacing a field leaves every field that does not overlap it as it was.
pub proof fn lemma_field_of_splice_disjoint(v: int, off: nat, n: nat, x: int, o2: nat, n2: nat)
    requires
        o2 + n2 <= off || off + n <= o2,
    ensures
        field(splice(v, off, n, x), o2, n2) == field(v, o2, n2),
{
    lemma_pow2_pos(off);
    lemma_pow2_pos(n);
    lemma_pow2_adds(off, n);
    let p = pow2(off) as int;
    let lo = v % p;
    lemma_mod_bound(v, p);
    lemma_fundamental_div_mod(v, p);
    let w = x % (pow2(n) as int);
    lemma_mod_bound(x, pow2(n) as int);
    let h = v / (pow2(off + n) as int);
    if o2 + n2 <= off {
        // Both agree below bit `off`.
        assert(splice(v, off, n, x) == lo + pow2(off) * (w + pow2(n) * h)) by {
            lemma_mul_is_distributive_add(pow2(off) as int, w, pow2(n) * h);
            lemma_mul_is_associative(pow2(off) as int, pow2(n) as int, h);
            lemma_mul_is_commutative(w, pow2(off) as int);
            lemma_mul_is_commutative(h, pow2(off + n) as int);
        }
        lemma_field_low(lo, w + pow2(n) * h, off, o2, n2);
        lemma_field_low(lo, v / p, off, o2, n2);
        lemma_mul_is_commutative(p, v / p);
    } else {
        // Both agree from bit `off + n` up.
        let q = pow2(off + n) as int;
        let m = lo + w * pow2(off);
        assert(q == p * pow2(n));
        assert(0 <= m < q) by (nonlinear_arith)
            requires
                0 <= lo < p,
                0 <= w < pow2(n),
                m == lo + w * p,
                q == p * pow2(n),
        ;
        assert(splice(v, off, n, x) == m + q * h) by {
            lemma_mul_is_commutative(h, q);
        }
        let s = (o2 - off - n) as nat;
        assert(o2 == off + n + s);
        lemma_field_high(m, h, off + n, s, n2);
        lemma_fundamental_div_mod(v, q);
        lemma_mod_bound(v, q);
        lemma_field_high(v % q, h, off + n, s, n2);
    }
}

/// The stream value of two byte runs laid end to end.
pub proof fn lemma_stream_value_append(a: Seq<u8>, b: Seq<u8>)
    ensures
        stream_value(a + b) == stream_value(a) + pow2((8 * a.len()) as nat) * stream_value(b),
    decreases b.len(),
{
    if b.len() == 0 {
        assert(a + b =~= a);
    } else {
        let b0 = b.drop_last();
        lemma_stream_value_append(a, b0);
        assert((a + b).drop_last() =~= a + b0);
        assert((a + b).last() == b.last());
        let e = (8 * (b.len() - 1)) as nat;
        lemma_pow2_adds((8 * a.len()) as nat, e);
        assert((8 * ((a + b).len() - 1)) as nat == ((8 * a.len()) as nat + e) as nat);
        let pa = pow2((8 * a.len()) as nat) as int;
        let l = b.last() as int;
        let pe = pow2(e) as int;
        let sb0 = stream_value(b0) as int;
        assert(l * (pa * pe) == pa * (l * pe)) by (nonlinear_arith);
        assert(pa * sb0 + pa * (l * pe) == pa * (sb0 + l * pe)) by (nonlinear_arith);
    }
}

/// The stream value of `m` bytes is below `2^(8m)`.
pub proof fn lemma_stream_value_bound(bytes: Seq<u8>)
    ensures
        stream_value(bytes) < pow2((8 * bytes.len()) as nat),
    decreases bytes.len(),
{
    if bytes.len() == 0 {
        lemma2_to64();
    } else {
        let b0 = bytes.drop_last();
        lemma_stream_value_bound(b0);
        let e = (8 * b0.len()) as nat;
        lemma_pow2_adds(e, 8);
        lemma2_to64();
        assert((8 * bytes.len()) as nat == e + 8);
        assert(bytes.last() * pow2(e) <= 255 * pow2(e)) by {
            vstd::arithmetic::mul::lemma_mul_inequality(bytes.last() as int, 255, pow2(e) as int);
        }
        lemma_mul_is_commutative(pow2(e) as int, 256);
    }
}

/// The bytes of `w`, least significant first, spell `w mod 2^(8m)`.
pub proof fn lemma_stream_value_of_digits(w: int, bytes: Seq<u8>)
    requires
        w >= 0,
        forall|j: int| 0 <= j < bytes.len() ==> #[trigger] bytes[j] == (w / (pow2((8 * j) as nat) as int)) % 256,
    ensures
        stream_value(bytes) == w % (pow2((8 * bytes.len()) as nat) as int),
    decreases bytes.len(),
{
    lemma2_to64();
    if bytes.len() == 0 {
        assert(w % 1 == 0);
    } else {
        let m = (bytes.len() - 1) as int;
        let b0 = bytes.drop_last();
        assert forall|j: int| 0 <= j < b0.len() implies #[trigger] b0[j] == (w / (pow2(
            (8 * j) as nat,
        ) as int)) % 256 by {
            assert(b0[j] == bytes[j]);
        }
        lemma_stream_value_of_digits(w, b0);
        let p = pow2((8 * m) as nat) as int;
        lemma_pow2_pos((8 * m) as nat);
        lemma_pow2_adds((8 * m) as nat, 8);
        assert((8 * bytes.len()) as nat == ((8 * m) as nat + 8) as nat);
        // w % (p * 256) == p * ((w / p) % 256) + w % p
        lemma_mod_breakdown(w, p, 256);
        assert(bytes.last() == (w / p) % 256);
        lemma_mul_is_commutative(bytes.last() as int, p);
    }
}

/// A replaced field is the old number plus the change of that field, moved
/// into place.
pub proof fn lemma_splice_as_change(v: int, off: nat, n: nat, x: int)
    ensures
        splice(v, off, n, x) == v + (x % (pow2(n) as int) - field(v, off, n)) * pow2(off),
{
    let p = pow2(off) as int;
    let nn = pow2(n) as int;
    lemma_pow2_pos(off);
    lemma_pow2_pos(n);
    lemma_pow2_adds(off, n);
    let t = v / p;
    lemma_fundamental_div_mod(v, p);
    lemma_fundamental_div_mod(t, nn);
    crate::bits::lemma_floor_div_div(v, p, nn);
    let f = t % nn;
    let h = t / nn;
    assert(h == v / (pow2(off + n) as int));
    // v == v % p + p * (f + nn * h)
    assert(v == v % p + p * f + (p * nn) * h) by (nonlinear_arith)
        requires
            v == p * t + v % p,
            t == nn * h + f,
    ;
    assert(splice(v, off, n, x) == v % p + (x % nn) * p + h * (p * nn));
    assert(v % p + (x % nn) * p + h * (p * nn) == v + (x % nn - f) * p) by (nonlinear_arith)
        requires
            v == v % p + p * f + (p * nn) * h,
    ;
}

/// Replacing a field that lies inside a middle part of a number only
/// changes that middle part.
pub proof fn lemma_splice_embed(lo: int, w: int, h: int, p: nat, q: nat, s: nat, n: nat, x: int)
    requires
        0 <= lo < pow2(p),
        0 <= w < pow2(q),
        s + n <= q,
    ensures
        splice(lo + pow2(p) * (w + pow2(q) * h), p + s, n, x) == lo + pow2(p) * (splice(w, s, n, x)
            + pow2(q) * h),
{
    let pp = pow2(p) as int;
    let ss = pow2(s) as int;
    let qq = pow2(q) as int;
    lemma_pow2_adds(p, s);
    let v = lo + pp * (w + qq * h);
    lemma_field_high(lo, w + qq * h, p, s, n);
    lemma_field_low(w, h, q, s, n);
    let f = field(w, s, n);
    let d = x % (pow2(n) as int) - f;
    lemma_splice_as_change(v, p + s, n, x);
    lemma_splice_as_change(w, s, n, x);
    assert(v + d * (pp * ss) == lo + pp * ((w + d * ss) + qq * h)) by (nonlinear_arith)
        requires
            v == lo + pp * (w + qq * h),
    ;
}

/// Replacing a field inside the low `q` bits keeps the number below `2^q`.
pub proof fn lemma_splice_bound(w: int, s: nat, n: nat, q: nat, x: int)
    requires
        0 <= w < pow2(q),
        s + n <= q,
    ensures
        0 <= splice(w, s, n, x) < pow2(q),
{
    let ss = pow2(s) as int;
    let nn = pow2(n) as int;
    let dd = pow2((q - s - n) as nat) as int;
    lemma_pow2_pos(s);
    lemma_pow2_pos(n);
    lemma_pow2_pos((q - s - n) as nat);
    lemma_pow2_adds(s, n);
    lemma_pow2_adds(s + n, (q - s - n) as nat);
    assert(q == (s + n) + (q - s - n) as nat);
    let qq = pow2(q) as int;
    assert(qq == ss * nn * dd);
    lemma_mod_bound(w, ss);
    lemma_mod_bound(x, nn);
    lemma_mul_strictly_positive(ss, nn);
    lemma_div_pos_is_pos(w, ss * nn);
    let c = w / (ss * nn);
    assert(c < dd) by {
        lemma_fundamental_div_mod(w, ss * nn);
        lemma_mod_bound(w, ss * nn);
        assert(c * (ss * nn) <= w) by (nonlinear_arith)
            requires
                w == (ss * nn) * c + w % (ss * nn),
                w % (ss * nn) >= 0,
        ;
        assert(c < dd) by (nonlinear_arith)
            requires
                c * (ss * nn) <= w,
                w < ss * nn * dd,
                ss * nn > 0,
        ;
    }
    let b = w % ss;
    let xm = x % nn;
    assert(0 <= b + xm * ss + c * (ss * nn) < ss * nn * dd) by (nonlinear_arith)
        requires
            0 <= b < ss,
            0 <= xm < nn,
            0 <= c < dd,
    ;
}

/// The `n`-bit field at `off` of a buffer's stream value is the `n`-bit
/// field at `off - 8 start` of the stream value of any byte run
/// `start .. end` that covers it.
pub proof fn lemma_field_in_window(buf: Seq<u8>, start: int, end: int, off: nat, n: nat)
    requires
        0 <= start <= end <= buf.len(),
        8 * start <= off,
        off + n <= 8 * end,
    ensures
        field(stream_value(buf) as int, off, n) == field(
            stream_value(buf.subrange(start, end)) as int,
            (off - 8 * start) as nat,
            n,
        ),
{
    let pre = buf.subrange(0, start);
    let mid = buf.subrange(start, end);
    let post = buf.subrange(end, buf.len() as int);
    assert(buf =~= pre + (mid + post));
    lemma_stream_value_append(pre, mid + post);
    lemma_stream_value_append(mid, post);
    lemma_stream_value_bound(pre);
    let s = (off - 8 * start) as nat;
    assert(off == (8 * pre.len()) as nat + s);
    lemma_field_high(
        stream_value(pre) as int,
        (stream_value(mid) + pow2((8 * mid.len()) as nat) * stream_value(post)) as int,
        (8 * pre.len()) as nat,
        s,
        n,
    );
    lemma_field_low(stream_value(mid) as int, stream_value(post) as int, (8 * mid.len()) as nat, s, n);
}

/// Mask covering the low `n` bits (all 64 for `n >= 64`).
pub fn low_mask(n: u32) -> (r: u64)
    ensures
        r as int == (if n >= 64 { pow2(64) - 1 } else { pow2(n as nat) - 1 }),
{
    proof {
        lemma2_to64_rest();
    }
    if n >= 64 {
        u64::MAX
    } else {
        proof {
            crate::bits::lemma_one_shl(n);
            lemma_pow2_pos(n as nat);
        }
        (1u64 << n) - 1
    }
}

/// Loads the `span` bytes starting at `start` into a little-endian `u128`
/// window: byte `j` lands in bits `8j .. 8j + 8`.
pub fn load_window(buf: &[u8], start: usize, span: usize) -> (r: u128)
    requires
        start + span <= buf@.len(),
        span <= 16,
    ensures
        r as int == stream_value(buf@.subrange(start as int, start + span)),
{
    let mut acc: u128 = 0;
    let mut j: usize = 0;
    let blen = buf.len();
    while j < span
        invariant
            j <= span <= 16,
            start + span <= buf@.len(),
            blen == buf@.len(),
            acc as int == stream_value(buf@.subrange(start as int, start + j)),
        decreases span - j,
    {
        let b = buf[start + j];
        let k: u32 = (8 * j) as u32;
        proof {
            let run = buf@.subrange(start as int, start + j);
            let run1 = buf@.subrange(start as int, start + j + 1);
            assert(run1.drop_last() =~= run);
            assert(run1.last() == b);
            lemma_stream_value_bound(run);
            crate::bits::lemma_pow2_le((8 * j + 8) as nat, 128);
            crate::bits::lemma_pow2_128();
            lemma_pow2_adds((8 * j) as nat, 8);
            lemma2_to64();
            assert(b * pow2((8 * j) as nat) < pow2((8 * j + 8) as nat)) by (nonlinear_arith)
                requires
                    b < 256,
                    pow2((8 * j) as nat) > 0,
                    pow2((8 * j + 8) as nat) == pow2((8 * j) as nat) * 256,
            ;
            lemma_pow2_pos((8 * j) as nat);
            crate::bits::lemma_u128_shl(b as u128, k);
            vstd::arithmetic::div_mod::lemma_mod_multiples_basic(b as int, pow2(k as nat) as int);
            assert(acc + b * pow2((8 * j) as nat) < pow2((8 * j + 8) as nat)) by (nonlinear_arith)
                requires
                    acc < pow2((8 * j) as nat),
                    b < 256,
                    pow2((8 * j + 8) as nat) == pow2((8 * j) as nat) * 256,
            ;
            crate::bits::lemma_u128_or_below(acc, (b as u128) << k, k);
        }
        acc = acc | ((b as u128) << k);
        j = j + 1;
    }
    acc
}

/// `x` masked to its low `n` bits, `1 <= n <= 64`, is `x mod 2^n`.
proof fn lemma_u64_and_low_mask(x: u64, n: u32, m: u64)
    requires
        1 <= n <= 64,
        m as int == (if n >= 64 { pow2(64) - 1 } else { pow2(n as nat) - 1 }),
    ensures
        (x & m) as int == (x as int) % (pow2(n as nat) as int),
{
    lemma2_to64_rest();
    if n >= 64 {
        assert(x & 0xFFFF_FFFF_FFFF_FFFFu64 == x) by (bit_vector);
        lemma_small_mod(x as nat, pow2(64));
    } else {
        vstd::bits::lemma_u64_low_bits_mask_is_mod(x, n as nat);
        vstd::bits::lemma_u64_pow2_no_overflow(n as nat);
    }
}

/// Reads the `n` bits (`1 <= n <= 64`) that start at bit `bit_offset` of
/// the stream, right-aligned. Field `k` of width `w` lies at bits
/// `k*w .. k*w + w`, little-endian.
pub fn read_bits(buf: &[u8], bit_offset: usize, n: u32) -> (r: u64)
    requires
        1 <= n <= 64,
        bit_offset + n <= 8 * buf@.len(),
    ensures
        r as int == field(stream_value(buf@) as int, bit_offset as nat, n as nat),
{
    let start = bit_offset / 8;
    let shift = (bit_offset % 8) as u32;
    let span = ((shift + n + 7) / 8) as usize;
    let acc = load_window(buf, start, span);
    let shifted = acc >> shift;
    let m = low_mask(n);
    proof {
        lemma_field_in_window(buf@, start as int, start + span, bit_offset as nat, n as nat);
        crate::bits::lemma_u128_shr(acc, shift);
        crate::bits::lemma_u128_as_u64(shifted);
        lemma_u64_and_low_mask(shifted as u64, n, m);
        crate::bits::lemma_mod_pow2_wider(shifted as int, n as nat, 64);
    }
    (shifted as u64) & m
}

/// Writes the low `n` bits (`1 <= n <= 64`) of `value` at bit `bit_offset`
/// of the stream, leaving every other bit as it was (read, modify, write
/// back the touched bytes).
pub fn write_bits(buf: &mut [u8], bit_offset: usize, n: u32, value: u64)
    requires
        1 <= n <= 64,
        bit_offset + n <= 8 * old(buf)@.len(),
    ensures
        final(buf)@.len() == old(buf)@.len(),
        stream_value(final(buf)@) as int == splice(
            stream_value(old(buf)@) as int,
            bit_offset as nat,
            n as nat,
            value as int,
        ),
{
    let start = bit_offset / 8;
    let shift = (bit_offset % 8) as u32;
    let span = ((shift + n + 7) / 8) as usize;
    let top = shift + n;
    let acc = load_window(buf, start, span);
    let m = low_mask(n);
    proof {
        crate::bits::lemma_u128_mask_mod(acc, shift);
        lemma_pow2_pos(shift as nat);
    }
    // Bits of the window below the field, the new field, and the bits above.
    let below = acc & ((1u128 << shift) - 1);
    let fresh = (((value & m) as u128) << shift);
    let above = (acc >> top) << top;
    let ghost w = acc as int;
    proof {
        lemma2_to64_rest();
        crate::bits::lemma_pow2_128();
        crate::bits::lemma_u128_mask_mod(acc, shift);
        lemma_u64_and_low_mask(value, n, m);
        lemma_pow2_pos(shift as nat);
        lemma_pow2_pos(top as nat);
        lemma_pow2_adds(n as nat, shift as nat);
        crate::bits::lemma_pow2_le(top as nat, 72);
        lemma_pow2_adds(72, 56);
        lemma_stream_value_bound(buf@.subrange(start as int, start + span));
        crate::bits::lemma_pow2_le((8 * span) as nat, 72);
        let fv = (value & m) as int;
        assert(fv * pow2(shift as nat) < pow2(top as nat)) by (nonlinear_arith)
            requires
                0 <= fv < pow2(n as nat),
                pow2(top as nat) == pow2(n as nat) * pow2(shift as nat),
                pow2(shift as nat) > 0,
        ;
        crate::bits::lemma_u128_shl((value & m) as u128, shift);
        crate::bits::lemma_u128_shr(acc, top);
        lemma_fundamental_div_mod(w, pow2(top as nat) as int);
        lemma_mod_bound(w, pow2(top as nat) as int);
        lemma_div_pos_is_pos(w, pow2(top as nat) as int);
        assert((acc >> top) * pow2(top as nat) <= w) by (nonlinear_arith)
            requires
                w == pow2(top as nat) * (w / (pow2(top as nat) as int)) + w % (pow2(top as nat) as int),
                w % (pow2(top as nat) as int) >= 0,
                (acc >> top) as int == w / (pow2(top as nat) as int),
        ;
        crate::bits::lemma_u128_shl(acc >> top, top);
        vstd::arithmetic::div_mod::lemma_mod_multiples_basic(fv, pow2(shift as nat) as int);
        lemma_mod_bound(w, pow2(shift as nat) as int);
        // `above` is a multiple of 2^top, and below + fresh stays under 2^top.
        vstd::arithmetic::div_mod::lemma_mod_multiples_basic((acc >> top) as int, pow2(top as nat) as int);
        assert(below + fresh < pow2(top as nat)) by (nonlinear_arith)
            requires
                below < pow2(shift as nat),
                fresh == fv * pow2(shift as nat),
                0 <= fv < pow2(n as nat),
                pow2(top as nat) == pow2(n as nat) * pow2(shift as nat),
        ;
        crate::bits::lemma_pow2_le(top as nat, 127);
        crate::bits::lemma_u128_or_below(below, fresh, shift);
        crate::bits::lemma_u128_or_below(below | fresh, above, top);
    }
    let fresh_window = (below | fresh) | above;
    proof {
        assert(fresh_window as int == splice(w, shift as nat, n as nat, value as int));
        lemma_splice_bound(w, shift as nat, n as nat, (8 * span) as nat, value as int);
    }
    let ghost old_buf = buf@;
    let blen = buf.len();
    let mut j: usize = 0;
    while j < span
        invariant
            j <= span <= 9,
            start + span <= blen,
            blen == buf@.len(),
            old_buf.len() == blen,
            0 <= fresh_window < pow2((8 * span) as nat),
            forall|k: int| 0 <= k < start || start + j <= k < blen ==> #[trigger] buf@[k] == old_buf[k],
            forall|k: int|
                start <= k < start + j ==> #[trigger] buf@[k] == (fresh_window as int / (pow2(
                    (8 * (k - start)) as nat,
                ) as int)) % 256,
        decreases span - j,
    {
        let k: u32 = (8 * j) as u32;
        let byte = (fresh_window >> k) as u8;
        proof {
            crate::bits::lemma_u128_shr(fresh_window, k);
            crate::bits::lemma_u128_as_u8(fresh_window >> k);
        }
        buf[start + j] = byte;
        j = j + 1;
    }
    proof {
        let pre = old_buf.subrange(0, start as int);
        let mid = old_buf.subrange(start as int, start + span);
        let post = old_buf.subrange(start + span, blen as int);
        let mid2 = buf@.subrange(start as int, start + span);
        assert(old_buf =~= pre + (mid + post));
        assert(buf@ =~= pre + (mid2 + post));
        assert forall|i: int| 0 <= i < mid2.len() implies #[trigger] mid2[i] == (fresh_window as int / (
        pow2((8 * i) as nat) as int)) % 256 by {
            assert(mid2[i] == buf@[start + i]);
        }
        lemma_stream_value_of_digits(fresh_window as int, mid2);
        lemma_small_mod(fresh_window as nat, pow2((8 * span) as nat));
        lemma_stream_value_append(pre, mid + post);
        lemma_stream_value_append(mid, post);
        lemma_stream_value_append(pre, mid2 + post);
        lemma_stream_value_append(mid2, post);
        lemma_stream_value_bound(pre);
        lemma_stream_value_bound(mid);
        lemma_splice_embed(
            stream_value(pre) as int,
            stream_value(mid) as int,
            stream_value(post) as int,
            (8 * start) as nat,
            (8 * span) as nat,
            shift as nat,
            n as nat,
            value as int,
        );
        assert(bit_offset as nat == (8 * start) as nat + shift as nat);
    }
}

} // verus!
