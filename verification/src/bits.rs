//! Word-level building blocks: the facts that tie Rust's shifts, masks and
//! truncating casts to the arithmetic model of [`crate::spec`], and the small
//! executable helpers built on them.

use vstd::prelude::*;
use vstd::arithmetic::power2::*;
use vstd::arithmetic::div_mod::*;
use vstd::arithmetic::mul::*;
use vstd::bits::*;
use crate::spec::{trunc_div, signed_lo, signed_hi, unsigned_hi, fits_signed, fits_unsigned, signed_wrap, unsigned_wrap};

verus! {

// ---------------------------------------------------------------------------
// Powers of two
// ---------------------------------------------------------------------------

/// `2^n = 2 * 2^(n-1)` and both are positive.
pub proof fn lemma_pow2_halves(n: nat)
    requires
        n >= 1,
    ensures
        pow2(n) == 2 * pow2((n - 1) as nat),
        pow2((n - 1) as nat) > 0,
        pow2(n) > 0,
{
    lemma_pow2_unfold(n);
    lemma_pow2_pos((n - 1) as nat);
}

/// `2^a <= 2^b` whenever `a <= b`.
pub proof fn lemma_pow2_le(a: nat, b: nat)
    requires
        a <= b,
    ensures
        pow2(a) <= pow2(b),
{
    if a < b {
        lemma_pow2_strictly_increases(a, b);
    }
}

/// Reducing modulo `2^m` and then modulo `2^n` (with `n <= m`) is the same
/// as reducing modulo `2^n` directly.
pub proof fn lemma_mod_pow2_wider(x: int, n: nat, m: nat)
    requires
        n <= m,
    ensures
        (x % (pow2(m) as int)) % (pow2(n) as int) == x % (pow2(n) as int),
{
    lemma_pow2_adds(n, (m - n) as nat);
    lemma_pow2_pos(n);
    lemma_pow2_pos((m - n) as nat);
    lemma_mod_mod(x, pow2(n) as int, pow2((m - n) as nat) as int);
}

// ---------------------------------------------------------------------------
// Signed and unsigned wrapping
// ---------------------------------------------------------------------------

/// The two's-complement reading lies in range and is congruent to `x`.
pub proof fn lemma_signed_wrap(x: int, n: nat)
    requires
        n >= 1,
    ensures
        fits_signed(signed_wrap(x, n), n),
        signed_wrap(x, n) % (pow2(n) as int) == x % (pow2(n) as int),
{
    lemma_pow2_halves(n);
    let p = pow2(n) as int;
    lemma_mod_bound(x, p);
    let m = x % p;
    lemma_mod_twice(x, p);
    if m > signed_hi(n) {
        lemma_mod_multiples_vanish(-1, m, p);
    }
}

/// An in-range count congruent to `x` is the two's-complement reading of `x`.
pub proof fn lemma_signed_wrap_unique(x: int, r: int, n: nat)
    requires
        n >= 1,
        fits_signed(r, n),
        r % (pow2(n) as int) == x % (pow2(n) as int),
    ensures
        signed_wrap(x, n) == r,
{
    lemma_pow2_halves(n);
    let p = pow2(n) as int;
    if r >= 0 {
        lemma_small_mod(r as nat, p as nat);
    } else {
        lemma_mod_multiples_vanish(1, r, p);
        lemma_small_mod((r + p) as nat, p as nat);
    }
}

/// Wrapping a count that already fits changes nothing.
pub proof fn lemma_signed_wrap_fits(x: int, n: nat)
    requires
        n >= 1,
        fits_signed(x, n),
    ensures
        signed_wrap(x, n) == x,
{
    lemma_signed_wrap_unique(x, x, n);
}

/// Counts congruent modulo `2^n` have the same `n`-bit reading.
pub proof fn lemma_signed_wrap_congruent(x: int, y: int, n: nat)
    requires
        x % (pow2(n) as int) == y % (pow2(n) as int),
    ensures
        signed_wrap(x, n) == signed_wrap(y, n),
{
}

/// Adding a multiple of `2^n` does not change the `n`-bit reading.
pub proof fn lemma_signed_wrap_add_multiple(x: int, k: int, n: nat)
    ensures
        signed_wrap(x + k * pow2(n), n) == signed_wrap(x, n),
        unsigned_wrap(x + k * pow2(n), n) == unsigned_wrap(x, n),
{
    lemma_pow2_pos(n);
    let p = pow2(n) as int;
    lemma_mod_multiples_vanish(k, x, p);
    lemma_mul_is_commutative(k, p);
}

/// Wrapping to `m` bits first, then to `n <= m` bits, is wrapping to `n` bits.
pub proof fn lemma_signed_wrap_wider(x: int, n: nat, m: nat)
    requires
        1 <= n <= m,
    ensures
        signed_wrap(signed_wrap(x, m), n) == signed_wrap(x, n),
{
    let w = signed_wrap(x, m);
    lemma_signed_wrap(x, m);
    lemma_mod_pow2_wider(w, n, m);
    lemma_mod_pow2_wider(x, n, m);
}

/// The unsigned reading lies in range, agrees with the count modulo `2^n`,
/// and is the identity on counts that fit.
pub proof fn lemma_unsigned_wrap(x: int, n: nat)
    ensures
        fits_unsigned(unsigned_wrap(x, n), n),
        fits_unsigned(x, n) ==> unsigned_wrap(x, n) == x,
{
    lemma_pow2_pos(n);
    lemma_mod_bound(x, pow2(n) as int);
    if fits_unsigned(x, n) {
        lemma_small_mod(x as nat, pow2(n));
    }
}

/// Unsigned reading of an `m`-bit unsigned reading, for `n <= m`.
pub proof fn lemma_unsigned_wrap_wider(x: int, n: nat, m: nat)
    requires
        n <= m,
    ensures
        unsigned_wrap(unsigned_wrap(x, m), n) == unsigned_wrap(x, n),
{
    lemma_mod_pow2_wider(x, n, m);
}

/// The unsigned reading of a signed reading is the unsigned reading.
pub proof fn lemma_unsigned_of_signed(x: int, n: nat)
    requires
        n >= 1,
    ensures
        unsigned_wrap(signed_wrap(x, n), n) == unsigned_wrap(x, n),
        signed_wrap(unsigned_wrap(x, n), n) == signed_wrap(x, n),
{
    lemma_signed_wrap(x, n);
    lemma_pow2_pos(n);
    lemma_mod_twice(x, pow2(n) as int);
}

/// A signed count that fits `n` bits fits any wider word.
pub proof fn lemma_fits_signed_wider(x: int, n: nat, m: nat)
    requires
        1 <= n <= m,
        fits_signed(x, n),
    ensures
        fits_signed(x, m),
{
    lemma_pow2_le((n - 1) as nat, (m - 1) as nat);
}

/// Scaling an `n`-bit signed count by `2^s` gives an `(n + s)`-bit count.
pub proof fn lemma_fits_signed_scaled(x: int, n: nat, s: nat)
    requires
        n >= 1,
        fits_signed(x, n),
    ensures
        fits_signed(x * pow2(s), n + s),
{
    lemma_pow2_adds((n - 1) as nat, s);
    lemma_pow2_pos(s);
    let h = pow2((n - 1) as nat) as int;
    let p = pow2(s) as int;
    assert(-(h * p) <= x * p <= h * p - 1) by (nonlinear_arith)
        requires
            -h <= x <= h - 1,
            p >= 1,
    ;
    assert(((n + s) - 1) as nat == ((n - 1) as nat + s) as nat);
}

/// An unsigned count that fits `n` bits fits any wider word.
pub proof fn lemma_fits_unsigned_wider(x: int, n: nat, m: nat)
    requires
        n <= m,
        fits_unsigned(x, n),
    ensures
        fits_unsigned(x, m),
{
    lemma_pow2_le(n, m);
}

// ---------------------------------------------------------------------------
// Bit-level facts
// ---------------------------------------------------------------------------

/// `1 << n` is `2^n` for `n < 64`.
pub proof fn lemma_one_shl(n: u32)
    requires
        n < 64,
    ensures
        (1u64 << n) == pow2(n as nat),
        pow2(n as nat) <= u64::MAX,
{
    lemma_u64_pow2_no_overflow(n as nat);
    lemma_u64_shl_is_mul(1u64, n as u64);
    assert((1u64 << n) == (1u64 << (n as u64))) by (bit_vector);
}

/// Reinterpreting an `i64` as `u64` adds `2^64` to negative values.
pub proof fn lemma_i64_as_u64(r: i64)
    ensures
        (r as u64) as int == if r < 0 { r as int + pow2(64) } else { r as int },
        (r as u64) as int % (pow2(64) as int) == r as int % (pow2(64) as int),
{
    lemma2_to64_rest();
    assert((r as u64) as int == if r < 0 { r as int + 0x1_0000_0000_0000_0000int } else { r as int })
        by (bit_vector);
    if r < 0 {
        lemma_signed_wrap_add_multiple(r as int, 1, 64);
    }
}

/// Sign extension by a left shift followed by an arithmetic right shift.
proof fn lemma_sign_extend_shifts(u: u64, n: u64, s: u64, m: u64)
    requires
        1 <= n < 64,
        u < (1u64 << n),
        s + n == 64,
        m + 1 == n,
    ensures
        (((u as i64) << s) >> s) as int == if u >= (1u64 << m) {
            u as int - ((1u64 << n) as int)
        } else {
            u as int
        },
{
    assert((((u as i64) << s) >> s) as int == if u >= (1u64 << m) {
        u as int - ((1u64 << n) as int)
    } else {
        u as int
    }) by (bit_vector)
        requires
            1 <= n < 64,
            u < (1u64 << n),
            s + n == 64,
            m + 1 == n,
    ;
}

/// Truncating an `i128` to `i64` keeps it congruent modulo `2^64`.
pub proof fn lemma_i128_as_i64(x: i128)
    ensures
        (x as i64) as int == signed_wrap(x as int, 64),
{
    let y = (x as i64) as i128;
    assert(x as int - y as int == ((x >> 64u32) as int + (if y < 0 { 1int } else { 0int }))
        * 0x1_0000_0000_0000_0000int) by (bit_vector)
        requires
            y == (x as i64) as i128,
    ;
    lemma2_to64_rest();
    let k = (x >> 64u32) as int + (if y < 0 { 1int } else { 0int });
    lemma_signed_wrap_add_multiple(y as int, k, 64);
    lemma_pow2_halves(64);
    assert(pow2(63) == 0x8000_0000_0000_0000) by {
        lemma2_to64_rest();
    }
    lemma_signed_wrap_fits(y as int, 64);
}

/// Flooring division by `c` and then by `d` is flooring division by `c * d`.
pub proof fn lemma_floor_div_div(x: int, c: int, d: int)
    requires
        c > 0,
        d > 0,
    ensures
        (x / c) / d == x / (c * d),
        c * d > 0,
{
    lemma_mul_strictly_positive(c, d);
    let q1 = x / c;
    let r1 = x % c;
    let q2 = q1 / d;
    let r2 = q1 % d;
    lemma_fundamental_div_mod(x, c);
    lemma_fundamental_div_mod(q1, d);
    lemma_mod_bound(x, c);
    lemma_mod_bound(q1, d);
    assert(x == (c * d) * q2 + (c * r2 + r1)) by (nonlinear_arith)
        requires
            x == c * q1 + r1,
            q1 == d * q2 + r2,
    ;
    assert(0 <= c * r2 + r1 < c * d) by (nonlinear_arith)
        requires
            0 <= r1 < c,
            0 <= r2 < d,
            c > 0,
    ;
    lemma_fundamental_div_mod_converse(x, c * d, q2, c * r2 + r1);
}

/// An arithmetic right shift of an `i128` is flooring division by `2^s`.
pub proof fn lemma_i128_shr(x: i128, s: u32)
    requires
        s < 128,
    ensures
        (x >> s) as int == (x as int) / (pow2(s as nat) as int),
    decreases s,
{
    if s == 0 {
        assert(x >> 0u32 == x) by (bit_vector);
        lemma2_to64();
        assert((x as int) / 1 == x as int);
    } else {
        let t = (s - 1) as u32;
        assert(x >> s == (x >> t) >> 1u32) by (bit_vector)
            requires
                0 < s < 128,
                t + 1 == s,
        ;
        let y = x >> t;
        assert(y >> 1u32 == y / 2) by (bit_vector);
        lemma_i128_shr(x, t);
        lemma_pow2_halves(s as nat);
        lemma_pow2_pos(t as nat);
        lemma_floor_div_div(x as int, pow2(t as nat) as int, 2);
        assert((y as int) == (x as int) / (pow2(t as nat) as int));
        assert(pow2(t as nat) as int * 2 == pow2(s as nat) as int);
        assert((x >> s) as int == (y as int) / 2);
        assert(((x as int) / (pow2(t as nat) as int)) / 2 == (x as int) / (pow2(t as nat) as int * 2));
        assert((x as int) / (pow2(t as nat) as int * 2) == (x as int) / (pow2(s as nat) as int));
    }
}

/// A left shift of an `i128` that does not overflow is multiplication by `2^s`.
pub proof fn lemma_i128_shl(x: i128, s: u32)
    requires
        s < 128,
        i128::MIN <= x * pow2(s as nat) <= i128::MAX,
    ensures
        (x << s) as int == x * pow2(s as nat),
    decreases s,
{
    if s == 0 {
        assert(x << 0u32 == x) by (bit_vector);
        lemma2_to64();
    } else {
        let t = (s - 1) as u32;
        assert(x << s == (x << t) << 1u32) by (bit_vector)
            requires
                0 < s < 128,
                t + 1 == s,
        ;
        lemma_pow2_halves(s as nat);
        let p = pow2(t as nat) as int;
        assert(x * pow2(s as nat) == 2 * (x * p)) by (nonlinear_arith)
            requires
                pow2(s as nat) == 2 * p,
        ;
        lemma_i128_shl(x, t);
        let y = x << t;
        assert(-0x4000_0000_0000_0000_0000_0000_0000_0000 <= y < 0x4000_0000_0000_0000_0000_0000_0000_0000);
        assert(y << 1u32 == y * 2) by (bit_vector)
            requires
                -0x4000_0000_0000_0000_0000_0000_0000_0000 <= y < 0x4000_0000_0000_0000_0000_0000_0000_0000,
        ;
    }
}

/// A left shift of a `u128` that does not overflow is multiplication by `2^s`.
pub proof fn lemma_u128_shl(x: u128, s: u32)
    requires
        s < 128,
        x * pow2(s as nat) <= u128::MAX,
    ensures
        (x << s) as int == x * pow2(s as nat),
    decreases s,
{
    if s == 0 {
        assert(x << 0u32 == x) by (bit_vector);
        lemma2_to64();
    } else {
        let t = (s - 1) as u32;
        assert(x << s == (x << t) << 1u32) by (bit_vector)
            requires
                0 < s < 128,
                t + 1 == s,
        ;
        lemma_pow2_halves(s as nat);
        let p = pow2(t as nat) as int;
        assert(x * pow2(s as nat) == 2 * (x * p)) by (nonlinear_arith)
            requires
                pow2(s as nat) == 2 * p,
        ;
        lemma_u128_shl(x, t);
        let y = x << t;
        assert(y < 0x8000_0000_0000_0000_0000_0000_0000_0000);
        assert(y << 1u32 == y * 2) by (bit_vector)
            requires
                y < 0x8000_0000_0000_0000_0000_0000_0000_0000,
        ;
    }
}

/// A logical right shift of a `u128` is division by `2^s`.
pub proof fn lemma_u128_shr(x: u128, s: u32)
    requires
        s < 128,
    ensures
        (x >> s) as int == (x as int) / (pow2(s as nat) as int),
{
    lemma_u128_shr_is_div(x, s as u128);
    assert((x >> s) == (x >> (s as u128))) by (bit_vector);
}

/// Truncating a `u128` to `u64` keeps its residue modulo `2^64`.
pub proof fn lemma_u128_as_u64(x: u128)
    ensures
        (x as u64) as int == unsigned_wrap(x as int, 64),
{
    assert((x as u64) as u128 == x - ((x >> 64u32) << 64u32)) by (bit_vector);
    lemma_u128_shr(x, 64);
    lemma2_to64_rest();
    let q = x >> 64u32;
    assert(q * pow2(64) <= x) by {
        lemma_fundamental_div_mod(x as int, pow2(64) as int);
        lemma_mod_bound(x as int, pow2(64) as int);
        lemma_mul_is_commutative(q as int, pow2(64) as int);
    }
    lemma_u128_shl(q, 64);
    lemma_fundamental_div_mod(x as int, pow2(64) as int);
    lemma_mul_is_commutative(q as int, pow2(64) as int);
}

/// An arithmetic right shift of an `i64` is flooring division by `2^s`.
pub proof fn lemma_i64_shr(x: i64, s: u32)
    requires
        s < 64,
    ensures
        (x >> s) as int == (x as int) / (pow2(s as nat) as int),
{
    assert((x >> s) as i128 == (x as i128) >> s) by (bit_vector)
        requires
            s < 64,
    ;
    lemma_i128_shr(x as i128, s);
}

/// A left shift of an `i64` is multiplication by `2^s`, wrapped to 64 bits.
pub proof fn lemma_i64_shl(x: i64, s: u32)
    requires
        s < 64,
    ensures
        (x << s) as int == signed_wrap(x * pow2(s as nat), 64),
{
    assert(((x as i128) << s) as i64 == x << s) by (bit_vector)
        requires
            s < 64,
    ;
    lemma_pow2_le(s as nat, 63);
    lemma2_to64_rest();
    lemma_pow2_pos(s as nat);
    assert(i128::MIN <= x * pow2(s as nat) <= i128::MAX) by (nonlinear_arith)
        requires
            -0x8000_0000_0000_0000 <= x < 0x8000_0000_0000_0000,
            0 < pow2(s as nat) <= 0x8000_0000_0000_0000,
    ;
    lemma_i128_shl(x as i128, s);
    lemma_i128_as_i64((x as i128) << s);
}

/// A left shift of a `u64` is multiplication by `2^s`, wrapped to 64 bits.
pub proof fn lemma_u64_shl(x: u64, s: u32)
    requires
        s < 64,
    ensures
        (x << s) as int == unsigned_wrap(x * pow2(s as nat), 64),
{
    assert(((x as u128) << s) as u64 == x << s) by (bit_vector)
        requires
            s < 64,
    ;
    lemma_pow2_le(s as nat, 63);
    lemma2_to64_rest();
    lemma_pow2_pos(s as nat);
    assert(x * pow2(s as nat) <= u128::MAX) by (nonlinear_arith)
        requires
            x < 0x1_0000_0000_0000_0000,
            0 < pow2(s as nat) <= 0x8000_0000_0000_0000,
    ;
    lemma_u128_shl(x as u128, s);
    lemma_u128_as_u64((x as u128) << s);
}

/// `i64::wrapping_add` reads as the exact sum wrapped to 64 bits.
pub proof fn lemma_i64_wrapping_add(a: i64, b: i64)
    ensures
        a.wrapping_add(b) as int == signed_wrap(a + b, 64),
{
    lemma2_to64_rest();
    lemma_pow2_halves(64);
    let x = a + b;
    if x > i64::MAX {
        lemma_signed_wrap_add_multiple(x, -1, 64);
        lemma_signed_wrap_fits(x - pow2(64), 64);
    } else if x < i64::MIN {
        lemma_signed_wrap_add_multiple(x, 1, 64);
        lemma_signed_wrap_fits(x + pow2(64), 64);
    } else {
        lemma_signed_wrap_fits(x, 64);
    }
}

/// `i64::wrapping_sub` reads as the exact difference wrapped to 64 bits.
pub proof fn lemma_i64_wrapping_sub(a: i64, b: i64)
    ensures
        a.wrapping_sub(b) as int == signed_wrap(a - b, 64),
{
    lemma2_to64_rest();
    lemma_pow2_halves(64);
    let x = a - b;
    if x > i64::MAX {
        lemma_signed_wrap_add_multiple(x, -1, 64);
        lemma_signed_wrap_fits(x - pow2(64), 64);
    } else if x < i64::MIN {
        lemma_signed_wrap_add_multiple(x, 1, 64);
        lemma_signed_wrap_fits(x + pow2(64), 64);
    } else {
        lemma_signed_wrap_fits(x, 64);
    }
}

/// Negation that maps `i64::MIN` to itself reads as `-a` wrapped to 64 bits.
pub proof fn lemma_i64_neg_wraps(a: i64, r: i64)
    requires
        a == i64::MIN ==> r == i64::MIN,
        a != i64::MIN ==> r == -a,
    ensures
        r as int == signed_wrap(-a, 64),
{
    lemma2_to64_rest();
    lemma_pow2_halves(64);
    if a == i64::MIN {
        lemma_signed_wrap_add_multiple(-a, -1, 64);
        lemma_signed_wrap_fits(-a - pow2(64), 64);
    } else {
        lemma_signed_wrap_fits(-a, 64);
    }
}

/// The product of two `i64`s fits in an `i128`.
pub proof fn lemma_product_fits_i128(a: i64, b: i64)
    ensures
        i128::MIN <= a * b <= i128::MAX,
{
    assert(i128::MIN <= a * b <= i128::MAX) by (nonlinear_arith)
        requires
            -0x8000_0000_0000_0000 <= a < 0x8000_0000_0000_0000,
            -0x8000_0000_0000_0000 <= b < 0x8000_0000_0000_0000,
    ;
}

/// An `i64` scaled by `2^s` for `s <= 64` fits in an `i128`, and shifting it
/// left computes exactly that.
pub proof fn lemma_scaled_fits_i128(x: i64, s: u32)
    requires
        s <= 64,
    ensures
        i128::MIN <= x * pow2(s as nat) <= i128::MAX,
        ((x as i128) << s) as int == x * pow2(s as nat),
{
    lemma_pow2_le(s as nat, 64);
    lemma2_to64_rest();
    lemma_pow2_pos(s as nat);
    assert(i128::MIN <= x * pow2(s as nat) <= i128::MAX) by (nonlinear_arith)
        requires
            -0x8000_0000_0000_0000 <= x < 0x8000_0000_0000_0000,
            0 < pow2(s as nat) <= 0x1_0000_0000_0000_0000,
    ;
    lemma_i128_shl(x as i128, s);
}

/// The low 64 bits of an `i128` left shift by at most 64 places are those of
/// the exact product, whether or not the shift overflows 128 bits.
pub proof fn lemma_i128_shl_low_word(x: i128, s: u32)
    requires
        s <= 64,
    ensures
        ((x << s) as i64) as int == signed_wrap(x * pow2(s as nat), 64),
{
    let y = (x as i64) as i128;
    assert((x << s) as i64 == (y << s) as i64) by (bit_vector)
        requires
            s <= 64,
            y == (x as i64) as i128,
    ;
    lemma_i128_as_i64(x);
    lemma_scaled_fits_i128(x as i64, s);
    lemma_i128_as_i64(y << s);
    // y and x agree modulo 2^64, hence so do y * 2^s and x * 2^s.
    lemma2_to64_rest();
    lemma_signed_wrap(x as int, 64);
    lemma_mul_mod_noop_left(y as int, pow2(s as nat) as int, pow2(64) as int);
    lemma_mul_mod_noop_left(x as int, pow2(s as nat) as int, pow2(64) as int);
}

/// The low `k` bits of a 64-bit count held in an `i128` are all clear
/// exactly when the count is a multiple of `2^k`.
pub proof fn lemma_i128_low_bits_clear(x: i128, k: u32)
    requires
        k <= 64,
        -0x8000_0000_0000_0000 <= x < 0x8000_0000_0000_0000,
    ensures
        1i128 << k == pow2(k as nat),
        ((x & (((1i128 << k) - 1) as i128)) == 0) <==> (x as int) % (pow2(k as nat) as int) == 0,
{
    lemma_scaled_fits_i128(1, k);
    lemma_pow2_le(k as nat, 64);
    lemma2_to64_rest();
    assert(((x & (((1i128 << k) - 1) as i128)) == 0) <==> (((x >> k) << k) == x)) by (bit_vector)
        requires
            k <= 64,
    ;
    lemma_i128_shr(x, k);
    let y = x >> k;
    let p = pow2(k as nat) as int;
    lemma_pow2_pos(k as nat);
    lemma_fundamental_div_mod(x as int, p);
    lemma_mod_bound(x as int, p);
    assert(y * p == x - (x as int) % p) by {
        lemma_mul_is_commutative(y as int, p);
    }
    lemma_i128_shl(y, k);
}

/// The low `k` bits of a 64-bit count held in a `u128` are all clear
/// exactly when the count is a multiple of `2^k`.
pub proof fn lemma_u128_low_bits_clear(x: u128, k: u32)
    requires
        k <= 64,
        x <= u64::MAX,
    ensures
        1u128 << k == pow2(k as nat),
        ((x & (((1u128 << k) - 1) as u128)) == 0) <==> (x as int) % (pow2(k as nat) as int) == 0,
{
    lemma_u64_scaled_fits(1, k);
    lemma_pow2_le(k as nat, 64);
    lemma2_to64_rest();
    assert(((x & (((1u128 << k) - 1) as u128)) == 0) <==> (((x >> k) << k) == x)) by (bit_vector)
        requires
            k <= 64,
    ;
    lemma_u128_shr(x, k);
    let y = x >> k;
    let p = pow2(k as nat) as int;
    lemma_pow2_pos(k as nat);
    lemma_fundamental_div_mod(x as int, p);
    lemma_mod_bound(x as int, p);
    assert(y * p == x - (x as int) % p) by {
        lemma_mul_is_commutative(y as int, p);
    }
    lemma_u128_shl(y, k);
}

/// Reading a `u64` as an `i64` is its 64-bit two's-complement reading.
pub proof fn lemma_u64_as_i64(u: u64)
    ensures
        (u as i64) as int == signed_wrap(u as int, 64),
{
    lemma2_to64_rest();
    lemma_pow2_halves(64);
    assert((u as i64) as int == if u > 0x7FFF_FFFF_FFFF_FFFF { u as int - 0x1_0000_0000_0000_0000int } else { u as int })
        by (bit_vector);
    lemma_small_mod(u as nat, pow2(64));
}

/// Or-ing a value whose low `k` bits are clear into one below `2^k` adds it.
pub proof fn lemma_u128_or_below(a: u128, b: u128, k: u32)
    requires
        k < 128,
        a < pow2(k as nat),
        (b as int) % (pow2(k as nat) as int) == 0,
        a + b <= u128::MAX,
    ensures
        a | b == a + b,
{
    lemma_pow2_le(k as nat, 127);
    lemma_pow2_128();
    lemma_pow2_pos(k as nat);
    lemma_u128_shl(1, k);
    let p = 1u128 << k;
    assert(p as int == pow2(k as nat));
    lemma_u128_shr(b, k);
    let hb = b >> k;
    lemma_fundamental_div_mod(b as int, p as int);
    assert(hb * p == b) by {
        lemma_mul_is_commutative(hb as int, p as int);
    }
    lemma_u128_shl(hb, k);
    assert((hb << k) == b);
    assert(a | (hb << k) == a + (hb << k)) by (bit_vector)
        requires
            k < 128,
            a < p,
            p == 1u128 << k,
            a + (hb << k) <= 0xFFFF_FFFF_FFFF_FFFF_FFFF_FFFF_FFFF_FFFFu128,
    ;
}

/// The low `k` bits of a `u128`, taken with a mask, are its residue modulo
/// `2^k`.
pub proof fn lemma_u128_mask_mod(x: u128, k: u32)
    requires
        k < 128,
    ensures
        1u128 << k == pow2(k as nat),
        (x & (((1u128 << k) - 1) as u128)) as int == (x as int) % (pow2(k as nat) as int),
{
    lemma_pow2_le(k as nat, 127);
    lemma_pow2_128();
    lemma_pow2_pos(k as nat);
    lemma_u128_shl(1, k);
    assert(x & (((1u128 << k) - 1) as u128) == x - ((x >> k) << k)) by (bit_vector)
        requires
            k < 128,
    ;
    lemma_u128_shr(x, k);
    let y = x >> k;
    let p = pow2(k as nat) as int;
    lemma_fundamental_div_mod(x as int, p);
    lemma_mod_bound(x as int, p);
    assert(y * p == x - (x as int) % p) by {
        lemma_mul_is_commutative(y as int, p);
    }
    lemma_u128_shl(y, k);
}

/// Truncating a `u128` to a byte keeps its residue modulo 256.
pub proof fn lemma_u128_as_u8(x: u128)
    ensures
        (x as u8) as int == (x as int) % 256,
{
    assert((x as u8) as u128 == x % 256) by (bit_vector);
}

/// The powers of two that bound 128-bit intermediates.
pub proof fn lemma_pow2_128()
    ensures
        pow2(127) == 0x8000_0000_0000_0000_0000_0000_0000_0000,
        pow2(128) == 0x1_0000_0000_0000_0000_0000_0000_0000_0000,
{
    lemma2_to64_rest();
    lemma_pow2_adds(63, 64);
    lemma_pow2_adds(64, 64);
}

/// `u64::wrapping_add` reads as the exact sum modulo `2^64`.
pub proof fn lemma_u64_wrapping_add(a: u64, b: u64)
    ensures
        a.wrapping_add(b) as int == unsigned_wrap(a + b, 64),
{
    lemma2_to64_rest();
    let x = a + b;
    if x > u64::MAX {
        lemma_signed_wrap_add_multiple(x, -1, 64);
        lemma_unsigned_wrap(x - pow2(64), 64);
    } else {
        lemma_unsigned_wrap(x, 64);
    }
}

/// `u64::wrapping_sub` reads as the exact difference modulo `2^64`.
pub proof fn lemma_u64_wrapping_sub(a: u64, b: u64)
    ensures
        a.wrapping_sub(b) as int == unsigned_wrap(a - b, 64),
{
    lemma2_to64_rest();
    let x = a - b;
    if x < 0 {
        lemma_signed_wrap_add_multiple(x, 1, 64);
        lemma_unsigned_wrap(x + pow2(64), 64);
    } else {
        lemma_unsigned_wrap(x, 64);
    }
}

/// The product of two `u64`s fits in a `u128`.
pub proof fn lemma_u64_product_fits(a: u64, b: u64)
    ensures
        a * b <= u128::MAX,
{
    assert(a * b <= u128::MAX) by (nonlinear_arith)
        requires
            a < 0x1_0000_0000_0000_0000,
            b < 0x1_0000_0000_0000_0000,
    ;
}

/// A `u64` scaled by `2^s` for `s <= 64` fits in a `u128`, and shifting it
/// left computes exactly that.
pub proof fn lemma_u64_scaled_fits(x: u64, s: u32)
    requires
        s <= 64,
    ensures
        x * pow2(s as nat) <= u128::MAX,
        ((x as u128) << s) as int == x * pow2(s as nat),
{
    lemma_pow2_le(s as nat, 64);
    lemma2_to64_rest();
    assert(x * pow2(s as nat) <= u128::MAX) by (nonlinear_arith)
        requires
            x < 0x1_0000_0000_0000_0000,
            pow2(s as nat) <= 0x1_0000_0000_0000_0000,
    ;
    lemma_u128_shl(x as u128, s);
}

/// Scaling a count below `2^n` by `2^s` gives a count below `2^(n+s)`.
pub proof fn lemma_shifted_bound(x: int, n: nat, s: nat)
    requires
        0 <= x < pow2(n),
    ensures
        0 <= x * pow2(s) < pow2(n + s),
{
    lemma_pow2_adds(n, s);
    lemma_pow2_pos(s);
    assert(0 <= x * pow2(s) < pow2(n) * pow2(s)) by (nonlinear_arith)
        requires
            0 <= x < pow2(n),
            pow2(s) > 0,
    ;
}

/// Dividing a count below `2^n` by `2^k`, `k <= n`, gives a count below
/// `2^(n-k)`.
pub proof fn lemma_divided_bound(x: int, n: nat, k: nat)
    requires
        0 <= x < pow2(n),
        k <= n,
    ensures
        0 <= x / (pow2(k) as int) < pow2((n - k) as nat),
{
    lemma_pow2_pos(k);
    lemma_div_pos_is_pos(x, pow2(k) as int);
    let m = pow2((n - k) as nat) as int;
    let z = pow2(k) as int;
    lemma_pow2_adds((n - k) as nat, k);
    assert(pow2(n) as int == m * z);
    lemma_div_by_multiple_is_strongly_ordered(x, m * z, m, z);
    lemma_div_by_multiple(m, z);
}

/// The product of an `n1`-bit and an `n2`-bit unsigned count, with
/// `n1 + n2 <= 64`, fits in 64 bits.
pub proof fn lemma_narrow_product_fits(a: u64, b: u64, n1: nat, n2: nat)
    requires
        a < pow2(n1),
        b < pow2(n2),
        n1 + n2 <= 64,
    ensures
        a * b < 0x1_0000_0000_0000_0000,
{
    lemma_pow2_adds(n1, n2);
    lemma_pow2_le(n1 + n2, 64);
    lemma2_to64_rest();
    assert(a * b < pow2(n1) * pow2(n2)) by (nonlinear_arith)
        requires
            0 <= a < pow2(n1),
            0 <= b < pow2(n2),
    ;
}

/// A logical right shift of a `u64` is division by `2^s`.
pub proof fn lemma_u64_shr(x: u64, s: u32)
    requires
        s < 64,
    ensures
        (x >> s) as int == (x as int) / (pow2(s as nat) as int),
{
    lemma_u64_shr_is_div(x, s as u64);
    assert((x >> s) == (x >> (s as u64))) by (bit_vector);
}

/// The product of counts below `2^n1` and `2^n2` is below `2^(n1 + n2)`.
pub proof fn lemma_pow2_adds_bound(a: int, b: int, n1: nat, n2: nat)
    requires
        0 <= a < pow2(n1),
        0 <= b < pow2(n2),
    ensures
        0 <= a * b < pow2(n1 + n2),
{
    lemma_pow2_adds(n1, n2);
    assert(0 <= a * b < pow2(n1) * pow2(n2)) by (nonlinear_arith)
        requires
            0 <= a < pow2(n1),
            0 <= b < pow2(n2),
    ;
}

/// A left shift of an `i128` by at most 64 places is multiplication by
/// `2^s`, wrapped to 128 bits.
pub proof fn lemma_i128_shl_wraps(x: i128, s: u32)
    requires
        s <= 64,
    ensures
        (x << s) as int == signed_wrap(x * pow2(s as nat), 128),
    decreases s,
{
    lemma_pow2_128();
    lemma_pow2_halves(128);
    if s == 0 {
        assert(x << 0u32 == x) by (bit_vector);
        lemma2_to64();
        lemma_signed_wrap_fits(x as int, 128);
    } else {
        let t = (s - 1) as u32;
        assert(x << s == (x << t) << 1u32) by (bit_vector)
            requires
                0 < s <= 64,
                t + 1 == s,
        ;
        lemma_i128_shl_wraps(x, t);
        let y = x << t;
        assert((y << 1u32) as int == if 2 * (y as int) > 0x7FFF_FFFF_FFFF_FFFF_FFFF_FFFF_FFFF_FFFFint {
            2 * (y as int) - 0x1_0000_0000_0000_0000_0000_0000_0000_0000int
        } else if 2 * (y as int) < -0x8000_0000_0000_0000_0000_0000_0000_0000int {
            2 * (y as int) + 0x1_0000_0000_0000_0000_0000_0000_0000_0000int
        } else {
            2 * (y as int)
        }) by (bit_vector);
        let w = (y << 1u32) as int;
        let k = if 2 * (y as int) > i128::MAX { -1int } else if 2 * (y as int) < i128::MIN { 1int } else { 0int };
        assert(w == 2 * (y as int) + k * pow2(128));
        lemma_signed_wrap_fits(w, 128);
        lemma_signed_wrap_add_multiple(2 * (y as int), k, 128);
        // y is congruent to x * 2^t, so 2y is congruent to x * 2^s.
        lemma_pow2_halves(s as nat);
        let p = pow2(128) as int;
        lemma_signed_wrap(x * pow2(t as nat), 128);
        lemma_mul_mod_noop_right(2, y as int, p);
        lemma_mul_mod_noop_right(2, x * pow2(t as nat), p);
        assert(2 * (x * pow2(t as nat)) == x * pow2(s as nat)) by (nonlinear_arith)
            requires
                pow2(s as nat) == 2 * pow2(t as nat),
        ;
        lemma_signed_wrap_congruent(2 * (y as int), x * pow2(s as nat), 128);
    }
}

/// A left shift of a `u128` by at most 64 places is multiplication by
/// `2^s`, modulo `2^128`.
pub proof fn lemma_u128_shl_wraps(x: u128, s: u32)
    requires
        s <= 64,
    ensures
        (x << s) as int == unsigned_wrap(x * pow2(s as nat), 128),
    decreases s,
{
    lemma_pow2_128();
    if s == 0 {
        assert(x << 0u32 == x) by (bit_vector);
        lemma2_to64();
        assert(x * pow2(0) == x);
        lemma_unsigned_wrap(x as int, 128);
    } else {
        let t = (s - 1) as u32;
        assert(x << s == (x << t) << 1u32) by (bit_vector)
            requires
                0 < s <= 64,
                t + 1 == s,
        ;
        lemma_u128_shl_wraps(x, t);
        let y = x << t;
        assert((y << 1u32) as int == if 2 * (y as int) > 0xFFFF_FFFF_FFFF_FFFF_FFFF_FFFF_FFFF_FFFFint {
            2 * (y as int) - 0x1_0000_0000_0000_0000_0000_0000_0000_0000int
        } else {
            2 * (y as int)
        }) by (bit_vector);
        let w = (y << 1u32) as int;
        let k = if 2 * (y as int) > u128::MAX { -1int } else { 0int };
        assert(w == 2 * (y as int) + k * pow2(128));
        lemma_unsigned_wrap(w, 128);
        lemma_signed_wrap_add_multiple(2 * (y as int), k, 128);
        lemma_pow2_halves(s as nat);
        let p = pow2(128) as int;
        lemma_mul_mod_noop_right(2, x * pow2(t as nat), p);
        assert(2 * (x * pow2(t as nat)) == x * pow2(s as nat)) by (nonlinear_arith)
            requires
                pow2(s as nat) == 2 * pow2(t as nat),
        ;
        assert(y as int == (x * pow2(t as nat)) % p);
        assert(w == unsigned_wrap(2 * (y as int), 128));
        assert((2 * (y as int)) % p == (x * pow2(s as nat)) % p);
        assert((x << s) as int == w);
    }
}

// ---------------------------------------------------------------------------
// Executable helpers
// ---------------------------------------------------------------------------

/// `2^n` as a `u64`.
pub fn pow2_u64(n: u32) -> (r: u64)
    requires
        n < 64,
    ensures
        r == pow2(n as nat),
{
    proof {
        lemma_one_shl(n);
    }
    1u64 << n
}

/// The mask covering the low `n` bits: `2^n - 1`.
pub fn low_bits(n: u32) -> (r: u64)
    requires
        1 <= n <= 64,
    ensures
        r == pow2(n as nat) - 1,
{
    if n >= 64 {
        proof {
            lemma2_to64_rest();
        }
        u64::MAX
    } else {
        proof {
            lemma_pow2_pos(n as nat);
        }
        pow2_u64(n) - 1
    }
}

/// Keeps the low `n` bits of `x`.
pub fn mask_u64(x: u64, n: u32) -> (r: u64)
    requires
        1 <= n <= 64,
    ensures
        r as int == unsigned_wrap(x as int, n as nat),
{
    let m = low_bits(n);
    proof {
        if n < 64 {
            lemma_u64_low_bits_mask_is_mod(x, n as nat);
            lemma_u64_pow2_no_overflow(n as nat);
        } else {
            lemma2_to64_rest();
            assert(x & 0xFFFF_FFFF_FFFF_FFFFu64 == x) by (bit_vector);
            lemma_small_mod(x as nat, pow2(64));
        }
    }
    x & m
}

/// The `n`-bit two's-complement reading of `raw`: masks to the low `n` bits
/// and sign-extends from bit `n - 1`.
pub fn wrap_i64(raw: i64, n: u32) -> (r: i64)
    requires
        1 <= n <= 64,
    ensures
        r as int == signed_wrap(raw as int, n as nat),
{
    if n >= 64 {
        proof {
            lemma2_to64_rest();
            lemma_pow2_halves(64);
            lemma_signed_wrap_fits(raw as int, 64);
        }
        raw
    } else {
        let u = mask_u64(raw as u64, n);
        let s: u32 = 64 - n;
        let r = ((u as i64) << s) >> s;
        proof {
            lemma_one_shl(n);
            lemma_one_shl((n - 1) as u32);
            lemma_pow2_halves(n as nat);
            lemma_i64_as_u64(raw);
            lemma_mod_pow2_wider(raw as int, n as nat, 64);
            lemma_mod_pow2_wider((raw as u64) as int, n as nat, 64);
            lemma_unsigned_wrap((raw as u64) as int, n as nat);
            assert((((u as i64) << s) >> s) == (((u as i64) << (s as u64)) >> (s as u64))) by (bit_vector);
            lemma_sign_extend_shifts(u, n as u64, s as u64, (n - 1) as u64);
            assert((1u64 << (n as u64)) == (1u64 << n)) by (bit_vector);
            assert((1u64 << ((n - 1) as u64)) == (1u64 << ((n - 1) as u32))) by (bit_vector)
                requires 1 <= n < 64;
        }
        r
    }
}

/// `a / b` rounded toward zero. The division itself is done by the
/// divisor's magnitude, and the sign applied afterwards.
pub fn div_toward_zero(a: i128, b: i128) -> (q: i128)
    requires
        b != 0,
        -0x8000_0000_0000_0000 <= b <= 0x8000_0000_0000_0000,
        !(a == i128::MIN && b == -1),
    ensures
        q as int == trunc_div(a as int, b as int),
{
    let m = if b < 0 { -b } else { b };
    proof {
        if a >= 0 {
            lemma_div_pos_is_pos(a as int, m as int);
            lemma_div_is_ordered_by_denominator(a as int, 1, m as int);
        } else {
            lemma_div_pos_is_pos(-a, m as int);
            lemma_div_is_ordered_by_denominator(-a, 1, m as int);
        }
        lemma_div_by_multiple(1, 1);
    }
    let q = a / m;
    if b < 0 {
        proof {
            if a == i128::MIN {
                assert(m > 1);
                lemma_div_is_ordered_by_denominator(-a, 2, m as int);
            }
        }
        -q
    } else {
        q
    }
}

} // verus!
