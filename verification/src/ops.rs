//! Arithmetic operators for `Q` and `UQ`: the widening sum, difference,
//! negation and product, shifts, bitwise AND/OR, and reductions.
//!
//! The widening operations return a wider type whose width is fixed by the
//! input's: `Q<I, F> + Q<I, F>` is a `Q<I + 1, F>`, `Q<I, F> * Q<I, F>` a
//! `Q<2I, 2F>`. The output format is a const parameter whose value the
//! precondition pins, so the result can never overflow. Use `truncate` or
//! `saturate` to narrow back down, or the `wrapping_*` / `saturating_*`
//! methods for same-width register semantics.
//!
//! [`Q::sum`] reduces many values into a caller-chosen accumulator: summing
//! `N` values grows the integer part by only `ceil(log2(N))` bits, not one bit
//! per addition. [`Q::try_sum`] is the checked reduction.

use vstd::prelude::*;
use vstd::arithmetic::power2::{pow2, lemma_pow2_pos, lemma2_to64_rest};
use vstd::std_specs::ops::{ShlSpecImpl, ShrSpecImpl, BitAndSpecImpl, BitOrSpecImpl};
use crate::spec::{fits_signed, fits_unsigned, signed_wrap, unsigned_wrap};
use crate::bits::{lemma_pow2_halves, lemma_pow2_le, lemma_signed_wrap_fits, lemma_signed_wrap_wider,
    lemma_unsigned_wrap, lemma_unsigned_wrap_wider, lemma_i64_shl, lemma_i64_shr, lemma_u64_shl,
    lemma_u64_shr, lemma_i128_as_i64, lemma_u128_as_u64, lemma_product_fits_i128,
    lemma_u64_product_fits};
use crate::q::Q;
use crate::uq::UQ;

verus! {

// ===========================================================================
// Widening operations
// ===========================================================================

impl<const I: u32, const F: u32> Q<I, F> {
    /// `self + rhs` as a `Q<I + 1, F>`: the extra integer bit guarantees no
    /// overflow.
    pub fn add<const IO: u32>(self, rhs: Self) -> (r: Q<IO, F>)
        requires
            Self::valid(),
            Q::<IO, F>::valid(),
            IO == I + 1,
        ensures
            r@ == self@ + rhs@,
    {
        let a = self.raw();
        let b = rhs.raw();
        proof {
            lemma_wider_word(self@, rhs@, Self::width());
            lemma_signed_wrap_fits(self@ + rhs@, Q::<IO, F>::width());
        }
        Q::<IO, F>::from_raw(a + b)
    }

    /// `self - rhs` as a `Q<I + 1, F>`: the extra integer bit guarantees no
    /// overflow.
    pub fn sub<const IO: u32>(self, rhs: Self) -> (r: Q<IO, F>)
        requires
            Self::valid(),
            Q::<IO, F>::valid(),
            IO == I + 1,
        ensures
            r@ == self@ - rhs@,
    {
        let a = self.raw();
        let b = rhs.raw();
        proof {
            lemma_wider_word(self@, -rhs@, Self::width());
            lemma_signed_wrap_fits(self@ - rhs@, Q::<IO, F>::width());
        }
        Q::<IO, F>::from_raw(a - b)
    }

    /// `-self` as a `Q<I + 1, F>`: the extra integer bit holds the negation of
    /// `MIN` without wrapping.
    pub fn neg<const IO: u32>(self) -> (r: Q<IO, F>)
        requires
            Self::valid(),
            Q::<IO, F>::valid(),
            IO == I + 1,
        ensures
            r@ == -self@,
    {
        let a = self.raw();
        proof {
            lemma_pow2_halves(Self::width());
            lemma_wider_word(0, -self@, Self::width());
            lemma_signed_wrap_fits(-self@, Q::<IO, F>::width());
        }
        Q::<IO, F>::from_raw(-a)
    }

    /// `self * rhs` as a `Q<2I, 2F>`: the full-width product cannot overflow.
    pub fn mul<const IO: u32, const FO: u32>(self, rhs: Self) -> (r: Q<IO, FO>)
        requires
            Self::valid(),
            Q::<IO, FO>::valid(),
            IO == 2 * I,
            FO == 2 * F,
        ensures
            r@ == self@ * rhs@,
    {
        let a = self.raw();
        let b = rhs.raw();
        proof {
            lemma_product_fits_i128(a, b);
            lemma_square_word(a as int, b as int, Self::width());
            lemma_signed_wrap_fits(a * b, Q::<IO, FO>::width());
            lemma_pow2_halves(Q::<IO, FO>::width());
            lemma_pow2_le((Q::<IO, FO>::width() - 1) as nat, 63);
            lemma2_to64_rest();
        }
        let product = a as i128 * b as i128;
        Q::<IO, FO>::from_raw(product as i64)
    }
}

impl<const I: u32, const F: u32> UQ<I, F> {
    /// `self + rhs` as a `UQ<I + 1, F>`: the extra integer bit guarantees no
    /// overflow.
    pub fn add<const IO: u32>(self, rhs: Self) -> (r: UQ<IO, F>)
        requires
            Self::valid(),
            UQ::<IO, F>::valid(),
            IO == I + 1,
        ensures
            r@ == self@ + rhs@,
    {
        let a = self.raw();
        let b = rhs.raw();
        proof {
            lemma_pow2_halves(UQ::<IO, F>::width());
            lemma_pow2_le(Self::width(), 63);
            lemma2_to64_rest();
            lemma_unsigned_wrap(self@ + rhs@, UQ::<IO, F>::width());
        }
        UQ::<IO, F>::from_raw(a + b)
    }

    /// `self - rhs` as the signed `Q<I + 1, F>`, since the difference can be
    /// negative; the extra integer bit guarantees no overflow.
    pub fn sub<const IO: u32>(self, rhs: Self) -> (r: Q<IO, F>)
        requires
            Self::valid(),
            Q::<IO, F>::valid(),
            IO == I + 1,
        ensures
            r@ == self@ - rhs@,
    {
        let a = self.raw();
        let b = rhs.raw();
        proof {
            lemma_pow2_halves(Q::<IO, F>::width());
            lemma_pow2_le(Self::width(), 63);
            lemma2_to64_rest();
            lemma_signed_wrap_fits(self@ - rhs@, Q::<IO, F>::width());
        }
        Q::<IO, F>::from_raw(a as i64 - b as i64)
    }

    /// `self * rhs` as a `UQ<2I, 2F>`: the full-width product cannot overflow.
    pub fn mul<const IO: u32, const FO: u32>(self, rhs: Self) -> (r: UQ<IO, FO>)
        requires
            Self::valid(),
            UQ::<IO, FO>::valid(),
            IO == 2 * I,
            FO == 2 * F,
        ensures
            r@ == self@ * rhs@,
    {
        let a = self.raw();
        let b = rhs.raw();
        proof {
            lemma_u64_product_fits(a, b);
            crate::bits::lemma_pow2_adds_bound(a as int, b as int, Self::width(), Self::width());
            lemma_pow2_le(Self::width() + Self::width(), 64);
            lemma2_to64_rest();
            lemma_unsigned_wrap(a * b, UQ::<IO, FO>::width());
            lemma_unsigned_wrap(a * b, 64);
        }
        let product = a as u128 * b as u128;
        proof {
            lemma_u128_as_u64(product);
        }
        UQ::<IO, FO>::from_raw(product as u64)
    }
}

// ===========================================================================
// Shifts and bitwise operations
// ===========================================================================

impl<const I: u32, const F: u32> core::ops::Shl<u32> for Q<I, F> {
    type Output = Self;

    /// Shifts left by `shift` bits, keeping the low `I + F` bits.
    fn shl(self, shift: u32) -> (r: Self)
        ensures
            r@ == signed_wrap(self@ * pow2(shift as nat), Self::width()),
    {
        let a = self.raw();
        proof {
            lemma_i64_shl(a, shift);
            lemma_signed_wrap_wider(a * pow2(shift as nat), Self::width(), 64);
        }
        let r = Self::from_raw(a << shift);
        proof {
            Q::<I, F>::lemma_of_view(r);
        }
        r
    }
}

impl<const I: u32, const F: u32> ShlSpecImpl<u32> for Q<I, F> {
    open spec fn obeys_shl_spec() -> bool {
        true
    }

    open spec fn shl_req(self, shift: u32) -> bool {
        Self::valid() && shift < 64
    }

    open spec fn shl_spec(self, shift: u32) -> Self {
        Self::of_count(signed_wrap(self@ * pow2(shift as nat), Self::width()))
    }
}

impl<const I: u32, const F: u32> core::ops::Shr<u32> for Q<I, F> {
    type Output = Self;

    /// Arithmetic (sign-preserving) right shift by `shift` bits: the count
    /// divided by `2^shift`, rounding toward negative infinity.
    fn shr(self, shift: u32) -> (r: Self)
        ensures
            r@ == self@ / (pow2(shift as nat) as int),
    {
        let a = self.raw();
        proof {
            lemma_i64_shr(a, shift);
            lemma_floor_div_stays(a as int, shift as nat, Self::width());
            lemma_signed_wrap_fits(a as int / (pow2(shift as nat) as int), Self::width());
        }
        let r = Self::from_raw(a >> shift);
        proof {
            Q::<I, F>::lemma_of_view(r);
        }
        r
    }
}

impl<const I: u32, const F: u32> ShrSpecImpl<u32> for Q<I, F> {
    open spec fn obeys_shr_spec() -> bool {
        true
    }

    open spec fn shr_req(self, shift: u32) -> bool {
        Self::valid() && shift < 64
    }

    open spec fn shr_spec(self, shift: u32) -> Self {
        Self::of_count(self@ / (pow2(shift as nat) as int))
    }
}

impl<const I: u32, const F: u32> core::ops::BitAnd for Q<I, F> {
    type Output = Self;

    /// Bitwise AND of the two's-complement words.
    fn bitand(self, rhs: Self) -> (r: Self)
        ensures
            r@ == (self@ as i64 & rhs@ as i64),
    {
        let a = self.raw();
        let b = rhs.raw();
        proof {
            lemma_bitwise_stays_signed(a, b, Self::width());
            lemma_signed_wrap_fits((a & b) as int, Self::width());
        }
        let r = Self::from_raw(a & b);
        proof {
            Q::<I, F>::lemma_of_view(r);
        }
        r
    }
}

impl<const I: u32, const F: u32> BitAndSpecImpl for Q<I, F> {
    open spec fn obeys_bitand_spec() -> bool {
        true
    }

    open spec fn bitand_req(self, rhs: Self) -> bool {
        Self::valid()
    }

    open spec fn bitand_spec(self, rhs: Self) -> Self {
        Self::of_count((self@ as i64 & rhs@ as i64) as int)
    }
}

impl<const I: u32, const F: u32> core::ops::BitOr for Q<I, F> {
    type Output = Self;

    /// Bitwise OR of the two's-complement words.
    fn bitor(self, rhs: Self) -> (r: Self)
        ensures
            r@ == (self@ as i64 | rhs@ as i64),
    {
        let a = self.raw();
        let b = rhs.raw();
        proof {
            lemma_bitwise_stays_signed(a, b, Self::width());
            lemma_signed_wrap_fits((a | b) as int, Self::width());
        }
        let r = Self::from_raw(a | b);
        proof {
            Q::<I, F>::lemma_of_view(r);
        }
        r
    }
}

impl<const I: u32, const F: u32> BitOrSpecImpl for Q<I, F> {
    open spec fn obeys_bitor_spec() -> bool {
        true
    }

    open spec fn bitor_req(self, rhs: Self) -> bool {
        Self::valid()
    }

    open spec fn bitor_spec(self, rhs: Self) -> Self {
        Self::of_count((self@ as i64 | rhs@ as i64) as int)
    }
}

impl<const I: u32, const F: u32> Q<I, F> {
    /// Shifts left in place (`*self = *self << shift`).
    pub fn shl_assign(&mut self, shift: u32)
        requires
            Self::valid(),
            shift < 64,
        ensures
            final(self)@ == signed_wrap(old(self)@ * pow2(shift as nat), Self::width()),
    {
        *self = *self << shift;
    }

    /// Shifts right in place, arithmetically (`*self = *self >> shift`).
    pub fn shr_assign(&mut self, shift: u32)
        requires
            Self::valid(),
            shift < 64,
        ensures
            final(self)@ == old(self)@ / (pow2(shift as nat) as int),
    {
        *self = *self >> shift;
    }
}

impl<const I: u32, const F: u32> core::ops::Shl<u32> for UQ<I, F> {
    type Output = Self;

    /// Shifts left by `shift` bits, keeping the low `I + F` bits.
    fn shl(self, shift: u32) -> (r: Self)
        ensures
            r@ == unsigned_wrap(self@ * pow2(shift as nat), Self::width()),
    {
        let a = self.raw();
        proof {
            lemma_u64_shl(a, shift);
            lemma_unsigned_wrap_wider(a * pow2(shift as nat), Self::width(), 64);
        }
        let r = Self::from_raw(a << shift);
        proof {
            UQ::<I, F>::lemma_of_view(r);
        }
        r
    }
}

impl<const I: u32, const F: u32> ShlSpecImpl<u32> for UQ<I, F> {
    open spec fn obeys_shl_spec() -> bool {
        true
    }

    open spec fn shl_req(self, shift: u32) -> bool {
        Self::valid() && shift < 64
    }

    open spec fn shl_spec(self, shift: u32) -> Self {
        Self::of_count(unsigned_wrap(self@ * pow2(shift as nat), Self::width()))
    }
}

impl<const I: u32, const F: u32> core::ops::Shr<u32> for UQ<I, F> {
    type Output = Self;

    /// Logical (zero-filling) right shift by `shift` bits: the count divided
    /// by `2^shift`, rounding down.
    fn shr(self, shift: u32) -> (r: Self)
        ensures
            r@ == self@ / (pow2(shift as nat) as int),
    {
        let a = self.raw();
        proof {
            lemma_u64_shr(a, shift);
            lemma_pow2_pos(shift as nat);
            vstd::arithmetic::div_mod::lemma_div_is_ordered_by_denominator(a as int, 1, pow2(shift as nat) as int);
            vstd::arithmetic::div_mod::lemma_div_pos_is_pos(a as int, pow2(shift as nat) as int);
            lemma_unsigned_wrap(a as int / (pow2(shift as nat) as int), Self::width());
        }
        let r = Self::from_raw(a >> shift);
        proof {
            UQ::<I, F>::lemma_of_view(r);
        }
        r
    }
}

impl<const I: u32, const F: u32> ShrSpecImpl<u32> for UQ<I, F> {
    open spec fn obeys_shr_spec() -> bool {
        true
    }

    open spec fn shr_req(self, shift: u32) -> bool {
        Self::valid() && shift < 64
    }

    open spec fn shr_spec(self, shift: u32) -> Self {
        Self::of_count(self@ / (pow2(shift as nat) as int))
    }
}

impl<const I: u32, const F: u32> core::ops::BitAnd for UQ<I, F> {
    type Output = Self;

    /// Bitwise AND of the words.
    fn bitand(self, rhs: Self) -> (r: Self)
        ensures
            r@ == (self@ as u64 & rhs@ as u64),
    {
        let a = self.raw();
        let b = rhs.raw();
        proof {
            lemma_bitwise_stays_unsigned(a, b, Self::width());
            lemma_unsigned_wrap((a & b) as int, Self::width());
        }
        let r = Self::from_raw(a & b);
        proof {
            UQ::<I, F>::lemma_of_view(r);
        }
        r
    }
}

impl<const I: u32, const F: u32> BitAndSpecImpl for UQ<I, F> {
    open spec fn obeys_bitand_spec() -> bool {
        true
    }

    open spec fn bitand_req(self, rhs: Self) -> bool {
        Self::valid()
    }

    open spec fn bitand_spec(self, rhs: Self) -> Self {
        Self::of_count((self@ as u64 & rhs@ as u64) as int)
    }
}

impl<const I: u32, const F: u32> core::ops::BitOr for UQ<I, F> {
    type Output = Self;

    /// Bitwise OR of the words.
    fn bitor(self, rhs: Self) -> (r: Self)
        ensures
            r@ == (self@ as u64 | rhs@ as u64),
    {
        let a = self.raw();
        let b = rhs.raw();
        proof {
            lemma_bitwise_stays_unsigned(a, b, Self::width());
            lemma_unsigned_wrap((a | b) as int, Self::width());
        }
        let r = Self::from_raw(a | b);
        proof {
            UQ::<I, F>::lemma_of_view(r);
        }
        r
    }
}

impl<const I: u32, const F: u32> BitOrSpecImpl for UQ<I, F> {
    open spec fn obeys_bitor_spec() -> bool {
        true
    }

    open spec fn bitor_req(self, rhs: Self) -> bool {
        Self::valid()
    }

    open spec fn bitor_spec(self, rhs: Self) -> Self {
        Self::of_count((self@ as u64 | rhs@ as u64) as int)
    }
}

impl<const I: u32, const F: u32> UQ<I, F> {
    /// Shifts left in place (`*self = *self << shift`).
    pub fn shl_assign(&mut self, shift: u32)
        requires
            Self::valid(),
            shift < 64,
        ensures
            final(self)@ == unsigned_wrap(old(self)@ * pow2(shift as nat), Self::width()),
    {
        *self = *self << shift;
    }

    /// Shifts right in place, filling with zeros (`*self = *self >> shift`).
    pub fn shr_assign(&mut self, shift: u32)
        requires
            Self::valid(),
            shift < 64,
        ensures
            final(self)@ == old(self)@ / (pow2(shift as nat) as int),
    {
        *self = *self >> shift;
    }
}

/// Flooring division by a power of two keeps a signed `n`-bit count in range.
proof fn lemma_floor_div_stays(x: int, k: nat, n: nat)
    requires
        1 <= n,
        fits_signed(x, n),
    ensures
        fits_signed(x / (pow2(k) as int), n),
{
    lemma_pow2_pos(k);
    let d = pow2(k) as int;
    vstd::arithmetic::div_mod::lemma_fundamental_div_mod(x, d);
    vstd::arithmetic::div_mod::lemma_mod_bound(x, d);
    let q = x / d;
    let r = x % d;
    assert(x >= 0 ==> 0 <= q <= x) by (nonlinear_arith)
        requires
            x == d * q + r,
            0 <= r < d,
            d >= 1,
    ;
    assert(x < 0 ==> x <= q < 0) by (nonlinear_arith)
        requires
            x == d * q + r,
            0 <= r < d,
            d >= 1,
    ;
}

/// AND and OR of two sign-extended `n`-bit words are sign-extended `n`-bit
/// words.
proof fn lemma_bitwise_stays_signed(a: i64, b: i64, n: nat)
    requires
        1 <= n <= 64,
        fits_signed(a as int, n),
        fits_signed(b as int, n),
    ensures
        fits_signed((a & b) as int, n),
        fits_signed((a | b) as int, n),
{
    lemma_pow2_halves(n);
    if n < 64 {
        let m = (n - 1) as u32;
        crate::bits::lemma_one_shl(m);
        lemma_pow2_le(m as nat, 62);
        lemma2_to64_rest();
        let h = (1u64 << m) as i64;
        assert(-h <= a & b < h && -h <= a | b < h) by (bit_vector)
            requires
                m < 63,
                h == (1u64 << m) as i64,
                -h <= a < h,
                -h <= b < h,
        ;
    } else {
        lemma2_to64_rest();
    }
}

/// AND and OR of two `n`-bit unsigned words are `n`-bit words.
proof fn lemma_bitwise_stays_unsigned(a: u64, b: u64, n: nat)
    requires
        1 <= n <= 64,
        fits_unsigned(a as int, n),
        fits_unsigned(b as int, n),
    ensures
        fits_unsigned((a & b) as int, n),
        fits_unsigned((a | b) as int, n),
{
    if n < 64 {
        let m = n as u32;
        crate::bits::lemma_one_shl(m);
        let p = 1u64 << m;
        assert(a & b < p && a | b < p) by (bit_vector)
            requires
                m < 64,
                p == 1u64 << m,
                a < p,
                b < p,
        ;
    } else {
        lemma2_to64_rest();
    }
}

// ===========================================================================
// Reductions into a caller-chosen accumulator
// ===========================================================================

/// The sum of the counts of `xs`.
pub open spec fn q_counts_sum<const I: u32, const F: u32>(xs: Seq<Q<I, F>>) -> int
    decreases xs.len(),
{
    if xs.len() == 0 {
        0
    } else {
        q_counts_sum(xs.drop_last()) + xs.last()@
    }
}

/// The sum of the counts of `xs`.
pub open spec fn uq_counts_sum<const I: u32, const F: u32>(xs: Seq<UQ<I, F>>) -> int
    decreases xs.len(),
{
    if xs.len() == 0 {
        0
    } else {
        uq_counts_sum(xs.drop_last()) + xs.last()@
    }
}

/// Summing at most `2^k` counts of `I + F` bits, realigned to `FO >= F`
/// fractional bits, fits a signed `IO + FO`-bit word when `IO >= I + k`: the
/// integer part grows by `ceil(log2(N))` bits, not one bit per addition.
pub proof fn lemma_q_sum_fits<const I: u32, const F: u32>(xs: Seq<Q<I, F>>, k: nat, io: nat, fo: nat)
    requires
        Q::<I, F>::valid(),
        1 <= io + fo <= 64,
        forall|j: int| 0 <= j < xs.len() ==> fits_signed(#[trigger] xs[j]@, Q::<I, F>::width()),
        xs.len() <= pow2(k),
        io >= I + k,
        fo >= F,
    ensures
        fits_signed(crate::spec::rescale(q_counts_sum(xs), fo - F), io + fo),
{
    let f = F as nat;
    let n = Q::<I, F>::width();
    lemma_pow2_halves(n);
    let h = pow2((n - 1) as nat) as int;
    lemma_q_counts_sum_bounds(xs, n);
    let len = xs.len() as int;
    let s = (fo - f) as nat;
    let p = pow2(s) as int;
    lemma_pow2_pos(s);
    let e = (k + (n - 1)) as nat;
    vstd::arithmetic::power2::lemma_pow2_adds(k, (n - 1) as nat);
    vstd::arithmetic::power2::lemma_pow2_adds(e, s);
    lemma_pow2_le(e + s, (io + fo - 1) as nat);
    lemma_pow2_halves(io + fo);
    let g = pow2((io + fo - 1) as nat) as int;
    let total = q_counts_sum(xs);
    let big = pow2(k) as int;
    lemma_pow2_pos(k);
    assert(big * h * p == pow2(e + s));
    assert(-(big * h) <= total <= big * h - 1) by (nonlinear_arith)
        requires
            -len * h <= total <= len * (h - 1),
            0 <= len <= big,
            big >= 1,
            h >= 1,
    ;
    assert(-(big * h) * p <= total * p <= (big * h - 1) * p) by (nonlinear_arith)
        requires
            -(big * h) <= total <= big * h - 1,
            p >= 1,
    ;
    assert((big * h - 1) * p <= big * h * p - 1) by (nonlinear_arith)
        requires
            p >= 1,
    ;
    assert(big * h * p <= g);
    assert(-(big * h) * p == -(big * h * p)) by (nonlinear_arith);
    assert(crate::spec::rescale(total, fo - F) == total * p);
    assert(-g <= total * p <= g - 1);
}

/// The counts of `xs` added up in 128 bits, where no partial sum can
/// overflow.
fn q_accumulate<const I: u32, const F: u32>(xs: &[Q<I, F>]) -> (acc: i128)
    ensures
        acc == q_counts_sum(xs@),
        Q::<I, F>::valid() ==> forall|j: int|
            0 <= j < xs.len() ==> fits_signed(#[trigger] xs@[j]@, Q::<I, F>::width()),
{
    let mut acc: i128 = 0;
    let mut i: usize = 0;
    while i < xs.len()
        invariant
            i <= xs.len(),
            acc == q_counts_sum(xs@.take(i as int)),
            -(i as int) * 0x8000_0000_0000_0000 <= acc <= (i as int) * 0x8000_0000_0000_0000,
            Q::<I, F>::valid() ==> forall|j: int|
                0 <= j < i ==> fits_signed(#[trigger] xs@[j]@, Q::<I, F>::width()),
        decreases xs.len() - i,
    {
        let x = xs[i].raw();
        proof {
            assert(xs@.take(i + 1).drop_last() =~= xs@.take(i as int));
            assert((i as int + 1) * 0x8000_0000_0000_0000 <= 0x8000_0000_0000_0000_0000_0000_0000_0000)
                by (nonlinear_arith)
                requires
                    i < 0x1_0000_0000_0000_0000,
            ;
        }
        acc = acc + x as i128;
        i = i + 1;
    }
    proof {
        assert(xs@.take(xs.len() as int) =~= xs@);
    }
    acc
}

/// The counts of `xs` added up in 128 bits, where no partial sum can
/// overflow.
fn uq_accumulate<const I: u32, const F: u32>(xs: &[UQ<I, F>]) -> (acc: u128)
    ensures
        acc == uq_counts_sum(xs@),
        UQ::<I, F>::valid() ==> forall|j: int|
            0 <= j < xs.len() ==> fits_unsigned(#[trigger] xs@[j]@, UQ::<I, F>::width()),
{
    let mut acc: u128 = 0;
    let mut i: usize = 0;
    while i < xs.len()
        invariant
            i <= xs.len(),
            acc == uq_counts_sum(xs@.take(i as int)),
            acc <= (i as int) * 0xFFFF_FFFF_FFFF_FFFF,
            UQ::<I, F>::valid() ==> forall|j: int|
                0 <= j < i ==> fits_unsigned(#[trigger] xs@[j]@, UQ::<I, F>::width()),
        decreases xs.len() - i,
    {
        let x = xs[i].raw();
        proof {
            assert(xs@.take(i + 1).drop_last() =~= xs@.take(i as int));
            assert((i as int + 1) * 0xFFFF_FFFF_FFFF_FFFF <= 0xFFFF_FFFF_FFFF_FFFF_FFFF_FFFF_FFFF_FFFF)
                by (nonlinear_arith)
                requires
                    i < 0x1_0000_0000_0000_0000,
            ;
        }
        acc = acc + x as u128;
        i = i + 1;
    }
    proof {
        assert(xs@.take(xs.len() as int) =~= xs@);
    }
    acc
}

/// Moves the binary point of a signed 128-bit total by `shift` places,
/// exactly. Gives `None` when the exact result lies beyond 64 signed bits,
/// which no accumulator format can hold; the shift then never runs.
pub(crate) fn realign_exact(acc: i128, shift: i32) -> (r: Option<i128>)
    requires
        -64 <= shift <= 64,
    ensures
        r is Some ==> r->0 as int == crate::spec::rescale(acc as int, shift as int),
        r is None ==> !fits_signed(crate::spec::rescale(acc as int, shift as int), 64),
{
    proof {
        crate::bits::lemma_pow2_128();
        lemma_pow2_halves(128);
        vstd::arithmetic::power2::lemma2_to64();
        lemma2_to64_rest();
    }
    if shift >= 0 {
        let ghost p = pow2(shift as nat) as int;
        proof {
            lemma_pow2_pos(shift as nat);
            lemma_pow2_le(shift as nat, 64);
        }
        if acc < i64::MIN as i128 || acc > i64::MAX as i128 {
            proof {
                assert(acc * p < -0x8000_0000_0000_0000 || acc * p > 0x7FFF_FFFF_FFFF_FFFF)
                    by (nonlinear_arith)
                    requires
                        acc < -0x8000_0000_0000_0000 || acc > 0x7FFF_FFFF_FFFF_FFFF,
                        p >= 1,
                ;
                assert(crate::spec::rescale(acc as int, shift as int) == acc * p);
            }
            return None;
        }
        proof {
            assert(-0x8000_0000_0000_0000_0000_0000_0000_0000 <= acc * p
                <= 0x7FFF_FFFF_FFFF_FFFF_FFFF_FFFF_FFFF_FFFF) by (nonlinear_arith)
                requires
                    -0x8000_0000_0000_0000 <= acc <= 0x7FFF_FFFF_FFFF_FFFF,
                    1 <= p <= 0x1_0000_0000_0000_0000,
            ;
            crate::bits::lemma_i128_shl_wraps(acc, shift as u32);
            lemma_signed_wrap_fits(acc * p, 128);
        }
        Some(acc << (shift as u32))
    } else {
        proof {
            crate::bits::lemma_i128_shr(acc, (-shift) as u32);
        }
        Some(acc >> ((-shift) as u32))
    }
}

/// Moves the binary point of an unsigned 128-bit total by `shift` places,
/// exactly. Gives `None` when the exact result lies beyond 64 unsigned bits,
/// which no accumulator format can hold; the shift then never runs.
pub(crate) fn realign_exact_unsigned(acc: u128, shift: i32) -> (r: Option<u128>)
    requires
        -64 <= shift <= 64,
    ensures
        r is Some ==> r->0 as int == crate::spec::rescale(acc as int, shift as int),
        r is None ==> !fits_unsigned(crate::spec::rescale(acc as int, shift as int), 64),
{
    proof {
        crate::bits::lemma_pow2_128();
        vstd::arithmetic::power2::lemma2_to64();
    }
    if shift >= 0 {
        let ghost p = pow2(shift as nat) as int;
        proof {
            lemma_pow2_pos(shift as nat);
            lemma_pow2_le(shift as nat, 64);
        }
        if acc > u64::MAX as u128 {
            proof {
                assert(acc * p > 0xFFFF_FFFF_FFFF_FFFF) by (nonlinear_arith)
                    requires
                        acc > 0xFFFF_FFFF_FFFF_FFFF,
                        p >= 1,
                ;
            }
            return None;
        }
        proof {
            assert(0 <= acc * p <= 0xFFFF_FFFF_FFFF_FFFF_FFFF_FFFF_FFFF_FFFF) by (nonlinear_arith)
                requires
                    0 <= acc <= 0xFFFF_FFFF_FFFF_FFFF,
                    1 <= p <= 0x1_0000_0000_0000_0000,
            ;
            crate::bits::lemma_u128_shl_wraps(acc, shift as u32);
            lemma_unsigned_wrap(acc * p, 128);
        }
        Some(acc << (shift as u32))
    } else {
        proof {
            crate::bits::lemma_u128_shr(acc, (-shift) as u32);
        }
        Some(acc >> ((-shift) as u32))
    }
}

impl<const IO: u32, const FO: u32> Q<IO, FO> {
    /// Sums `xs` into this accumulator type. Partial sums are kept in 128
    /// bits, realigned from `F` to `FO` fractional bits by shifting, and the
    /// total is kept to `IO + FO` bits (it wraps when `IO` is too narrow).
    /// An empty slice yields zero. When `xs` holds at most `2^k` values and
    /// `IO >= I + k`, `FO >= F`, the total is exact.
    pub fn sum<const I: u32, const F: u32>(xs: &[Q<I, F>]) -> (r: Self)
        requires
            Self::valid(),
            Q::<I, F>::valid(),
        ensures
            r@ == signed_wrap(crate::spec::rescale(q_counts_sum(xs@), FO - F), Self::width()),
            forall|k: nat| #![trigger pow2(k)]
                xs@.len() <= pow2(k) && IO >= I + k && FO >= F ==> r@ == crate::spec::rescale(
                    q_counts_sum(xs@), FO - F),
    {
        let acc = q_accumulate(xs);
        let shift: i32 = FO as i32 - F as i32;
        let low = if shift >= 0 {
            proof {
                crate::bits::lemma_i128_shl_low_word(acc, shift as u32);
            }
            (acc << (shift as u32)) as i64
        } else {
            proof {
                crate::bits::lemma_i128_shr(acc, (-shift) as u32);
                lemma_i128_as_i64(acc >> ((-shift) as u32));
            }
            (acc >> ((-shift) as u32)) as i64
        };
        proof {
            let t = crate::spec::rescale(q_counts_sum(xs@), FO - F);
            lemma_signed_wrap_wider(t, Self::width(), 64);
            assert forall|k: nat| #![trigger pow2(k)]
                xs@.len() <= pow2(k) && IO >= I + k && FO >= F implies signed_wrap(t, Self::width()) == t by {
                lemma_q_sum_fits(xs@, k, IO as nat, FO as nat);
                lemma_signed_wrap_fits(t, Self::width());
            }
        }
        Self::from_raw(low)
    }

    /// Checked sum: accumulates `xs` like [`sum`](Self::sum), but returns
    /// `OutOfRange` instead of wrapping when the exact total, realigned to
    /// `FO` fractional bits, falls outside `[MIN, MAX]`. An empty slice yields
    /// `Ok(zero)`.
    pub fn try_sum<const I: u32, const F: u32>(xs: &[Q<I, F>]) -> (r: Result<Self, crate::error::FixedError>)
        requires
            Self::valid(),
            Q::<I, F>::valid(),
        ensures
            r is Ok <==> fits_signed(crate::spec::rescale(q_counts_sum(xs@), FO - F), Self::width()),
            r is Ok ==> r->Ok_0@ == crate::spec::rescale(q_counts_sum(xs@), FO - F),
            r is Err ==> r->Err_0 == crate::error::FixedError::OutOfRange,
    {
        let acc = q_accumulate(xs);
        let shift: i32 = FO as i32 - F as i32;
        let ghost t = crate::spec::rescale(q_counts_sum(xs@), FO - F);
        proof {
            lemma_pow2_halves(Self::width());
        }
        match realign_exact(acc, shift) {
            None => {
                proof {
                    if fits_signed(t, Self::width()) {
                        crate::bits::lemma_fits_signed_wider(t, Self::width(), 64);
                    }
                }
                Err(crate::error::FixedError::OutOfRange)
            },
            Some(scaled) => {
                if scaled >= Self::min_value().raw() as i128 && scaled <= Self::max_value().raw() as i128 {
                    proof {
                        lemma_signed_wrap_fits(scaled as int, Self::width());
                    }
                    Ok(Self::from_raw(scaled as i64))
                } else {
                    Err(crate::error::FixedError::OutOfRange)
                }
            },
        }
    }
}

impl<const IO: u32, const FO: u32> UQ<IO, FO> {
    /// Sums `xs` into this accumulator type. Partial sums are kept in 128
    /// bits, realigned from `F` to `FO` fractional bits by shifting, and the
    /// total is kept to `IO + FO` bits (it wraps when `IO` is too narrow).
    /// An empty slice yields zero. When `xs` holds at most `2^k` values and
    /// `IO >= I + k`, `FO >= F`, the total is exact.
    pub fn sum<const I: u32, const F: u32>(xs: &[UQ<I, F>]) -> (r: Self)
        requires
            Self::valid(),
            UQ::<I, F>::valid(),
        ensures
            r@ == unsigned_wrap(crate::spec::rescale(uq_counts_sum(xs@), FO - F), Self::width()),
            forall|k: nat| #![trigger pow2(k)]
                xs@.len() <= pow2(k) && IO >= I + k && FO >= F ==> r@ == crate::spec::rescale(
                    uq_counts_sum(xs@), FO - F),
    {
        let acc = uq_accumulate(xs);
        let shift: i32 = FO as i32 - F as i32;
        let ghost t = crate::spec::rescale(uq_counts_sum(xs@), FO - F);
        proof {
            crate::bits::lemma_pow2_128();
        }
        let scaled = if shift >= 0 {
            proof {
                crate::bits::lemma_u128_shl_wraps(acc, shift as u32);
            }
            acc << (shift as u32)
        } else {
            proof {
                crate::bits::lemma_u128_shr(acc, (-shift) as u32);
                lemma_pow2_pos((-shift) as nat);
                lemma_pow2_le(0, (-shift) as nat);
                assert(acc as int / (pow2((-shift) as nat) as int) <= acc as int) by (nonlinear_arith)
                    requires
                        acc >= 0,
                        pow2((-shift) as nat) >= 1,
                ;
                lemma_unsigned_wrap(t, 128);
            }
            acc >> ((-shift) as u32)
        };
        assert(scaled as int == unsigned_wrap(t, 128));
        let low = scaled as u64;
        proof {
            lemma_u128_as_u64(scaled);
            lemma_unsigned_wrap_wider(t, 64, 128);
            lemma_unsigned_wrap_wider(t, Self::width(), 64);
            assert forall|k: nat| #![trigger pow2(k)]
                xs@.len() <= pow2(k) && IO >= I + k && FO >= F implies unsigned_wrap(t, Self::width()) == t by {
                lemma_uq_sum_fits(xs@, k, IO as nat, FO as nat);
                lemma_unsigned_wrap(t, Self::width());
            }
        }
        Self::from_raw(low)
    }

    /// Checked sum: accumulates `xs` like [`sum`](Self::sum), but returns
    /// `OutOfRange` instead of wrapping when the exact total, realigned to
    /// `FO` fractional bits, exceeds `MAX`. An empty slice yields `Ok(zero)`.
    pub fn try_sum<const I: u32, const F: u32>(xs: &[UQ<I, F>]) -> (r: Result<Self, crate::error::FixedError>)
        requires
            Self::valid(),
            UQ::<I, F>::valid(),
        ensures
            r is Ok <==> fits_unsigned(crate::spec::rescale(uq_counts_sum(xs@), FO - F), Self::width()),
            r is Ok ==> r->Ok_0@ == crate::spec::rescale(uq_counts_sum(xs@), FO - F),
            r is Err ==> r->Err_0 == crate::error::FixedError::OutOfRange,
    {
        let acc = uq_accumulate(xs);
        let shift: i32 = FO as i32 - F as i32;
        let ghost t = crate::spec::rescale(uq_counts_sum(xs@), FO - F);
        match realign_exact_unsigned(acc, shift) {
            None => {
                proof {
                    if fits_unsigned(t, Self::width()) {
                        crate::bits::lemma_fits_unsigned_wider(t, Self::width(), 64);
                    }
                }
                Err(crate::error::FixedError::OutOfRange)
            },
            Some(scaled) => {
                if scaled <= Self::max_value().raw() as u128 {
                    proof {
                        lemma2_to64_rest();
                        lemma_pow2_le(Self::width(), 64);
                        lemma_unsigned_wrap(scaled as int, Self::width());
                    }
                    Ok(Self::from_raw(scaled as u64))
                } else {
                    Err(crate::error::FixedError::OutOfRange)
                }
            },
        }
    }
}

/// Summing at most `2^k` unsigned counts of `I + F` bits, realigned to
/// `FO >= F` fractional bits, fits an unsigned `IO + FO`-bit word when
/// `IO >= I + k`.
pub proof fn lemma_uq_sum_fits<const I: u32, const F: u32>(xs: Seq<UQ<I, F>>, k: nat, io: nat, fo: nat)
    requires
        UQ::<I, F>::valid(),
        1 <= io + fo <= 64,
        forall|j: int| 0 <= j < xs.len() ==> fits_unsigned(#[trigger] xs[j]@, UQ::<I, F>::width()),
        xs.len() <= pow2(k),
        io >= I + k,
        fo >= F,
    ensures
        fits_unsigned(crate::spec::rescale(uq_counts_sum(xs), fo - F), io + fo),
{
    let n = UQ::<I, F>::width();
    lemma_uq_counts_sum_bounds(xs, n);
    let total = uq_counts_sum(xs);
    let len = xs.len() as int;
    let s = (fo - F) as nat;
    let p = pow2(s) as int;
    lemma_pow2_pos(s);
    lemma_pow2_pos(n);
    lemma_pow2_pos(k);
    let big = pow2(k) as int;
    let m = pow2(n) as int;
    vstd::arithmetic::power2::lemma_pow2_adds(k, n);
    vstd::arithmetic::power2::lemma_pow2_adds(k + n, s);
    lemma_pow2_le(k + n + s, io + fo);
    assert(total <= big * m - 1) by (nonlinear_arith)
        requires
            0 <= total <= len * (m - 1),
            0 <= len <= big,
            m >= 1,
            big >= 1,
    ;
    assert(0 <= total * p <= (big * m - 1) * p) by (nonlinear_arith)
        requires
            0 <= total <= big * m - 1,
            p >= 1,
    ;
    assert((big * m - 1) * p <= big * m * p - 1) by (nonlinear_arith)
        requires
            p >= 1,
    ;
    assert(big * m * p == pow2(k + n + s));
    assert(crate::spec::rescale(total, fo - F) == total * p);
}

/// A sum of `n`-bit unsigned counts lies within `len` times the range of one
/// count.
proof fn lemma_uq_counts_sum_bounds<const I: u32, const F: u32>(xs: Seq<UQ<I, F>>, n: nat)
    requires
        forall|j: int| 0 <= j < xs.len() ==> fits_unsigned(#[trigger] xs[j]@, n),
    ensures
        0 <= uq_counts_sum(xs) <= (xs.len() as int) * (pow2(n) - 1),
    decreases xs.len(),
{
    if xs.len() > 0 {
        let ys = xs.drop_last();
        assert forall|j: int| 0 <= j < ys.len() implies fits_unsigned(#[trigger] ys[j]@, n) by {
            assert(ys[j] == xs[j]);
        }
        lemma_uq_counts_sum_bounds(ys, n);
        assert(fits_unsigned(xs[xs.len() - 1]@, n));
        let h = pow2(n) - 1;
        let m = ys.len() as int;
        assert((m + 1) * h == m * h + h) by (nonlinear_arith);
    }
}

/// A sum of `n`-bit counts lies within `len` times the range of one count.
proof fn lemma_q_counts_sum_bounds<const I: u32, const F: u32>(xs: Seq<Q<I, F>>, n: nat)
    requires
        1 <= n,
        forall|j: int| 0 <= j < xs.len() ==> fits_signed(#[trigger] xs[j]@, n),
    ensures
        -(xs.len() as int) * pow2((n - 1) as nat) <= q_counts_sum(xs)
            <= (xs.len() as int) * (pow2((n - 1) as nat) - 1),
    decreases xs.len(),
{
    if xs.len() > 0 {
        let ys = xs.drop_last();
        assert forall|j: int| 0 <= j < ys.len() implies fits_signed(#[trigger] ys[j]@, n) by {
            assert(ys[j] == xs[j]);
        }
        lemma_q_counts_sum_bounds(ys, n);
        assert(fits_signed(xs[xs.len() - 1]@, n));
        let h = pow2((n - 1) as nat) as int;
        let m = ys.len() as int;
        assert(-(m + 1) * h == -m * h - h) by (nonlinear_arith);
        assert((m + 1) * (h - 1) == m * (h - 1) + (h - 1)) by (nonlinear_arith);
    }
}

/// The sum of an `n`-bit signed count and a count of at most the same
/// magnitude fits in `n + 1` bits, and, when `n < 64`, in an `i64`.
proof fn lemma_wider_word(a: int, b: int, n: nat)
    requires
        1 <= n <= 63,
        crate::spec::signed_lo(n) <= a <= crate::spec::signed_hi(n),
        crate::spec::signed_lo(n) <= b <= -crate::spec::signed_lo(n),
    ensures
        fits_signed(a + b, n + 1),
        i64::MIN <= a + b <= i64::MAX,
{
    lemma_pow2_halves(n);
    lemma_pow2_halves(n + 1);
    lemma_pow2_le(n, 63);
    lemma2_to64_rest();
}

/// The product of two `n`-bit signed counts fits in `2n` bits.
proof fn lemma_square_word(a: int, b: int, n: nat)
    requires
        1 <= n <= 32,
        fits_signed(a, n),
        fits_signed(b, n),
    ensures
        fits_signed(a * b, 2 * n),
{
    lemma_pow2_halves(n);
    lemma_pow2_halves(2 * n);
    let h = pow2((n - 1) as nat) as int;
    vstd::arithmetic::power2::lemma_pow2_adds((n - 1) as nat, (n - 1) as nat);
    vstd::arithmetic::power2::lemma_pow2_unfold((2 * n - 1) as nat);
    assert(-(h * h) <= a * b <= h * h) by (nonlinear_arith)
        requires
            -h <= a < h,
            -h <= b < h,
            h > 0,
    ;
    assert(h * h < pow2((2 * n - 1) as nat));
}

} // verus!
