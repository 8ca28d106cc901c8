//! Memory-compact containers that store fixed-point values in as few bits
//! as their format needs.
//!
//! A scalar `Q`/`UQ` is always one 64-bit word and a `CQ` two, whatever
//! `I + F` is: convenient for arithmetic, wasteful for large buffers. These
//! containers shrink storage where the bytes are, in bulk arrays.
//!
//! - Byte-granular ([`Packable`]): each element is stored in a primitive
//!   integer chosen by the caller as the backing `B` (the smallest that holds
//!   `I + F` bits is `i8`/`i16`/`i32`/`i64`, or the unsigned analogues for
//!   `UQ`); a `CQ` element is an interleaved `[B; 2]` pair. Used by
//!   [`PackedArray`] and [`PackedVec`].
//! - Bit-exact ([`BitPackable`]): each element takes exactly `I + F` bits
//!   (`2 * (I + F)` for a `CQ`), packed across byte boundaries with no waste.
//!   Used by [`PackedBits`] and [`PackedBitsVec`].
//!
//! Packing is lossless: a value read back is the value stored. Elements are
//! returned by value, so mutation is get, compute, set.

use core::marker::PhantomData;
use vstd::prelude::*;
use vstd::arithmetic::power2::{pow2, lemma_pow2_pos, lemma2_to64, lemma2_to64_rest};
use crate::spec::{fits_signed, fits_unsigned, signed_wrap, unsigned_wrap};
use crate::bits::{lemma_pow2_le, lemma_signed_wrap, lemma_signed_wrap_fits, lemma_unsigned_wrap,
    lemma_unsigned_of_signed};
use crate::sealed::Sealed;
use crate::bitstream::{stream_value, field, read_bits, write_bits, lemma_field_of_splice,
    lemma_field_of_splice_disjoint};
use crate::q::Q;
use crate::uq::UQ;
use crate::cq::CQ;
use crate::laws::{Edit, apply_edit};

verus! {

// ===========================================================================
// Repr: the primitive integers that can back a packed element
// ===========================================================================

/// A primitive integer that can hold the bit pattern of one packed value.
///
/// Implemented for `i8`, `i16`, `i32`, `i64` and `u8`, `u16`, `u32`, `u64`.
/// Only the bits matter: a signed backing stores the same pattern as the
/// unsigned one of its size.
pub trait Repr: Copy + Sealed {
    /// Number of bits the primitive holds.
    spec fn repr_bits() -> nat;

    /// The stored bits, read as an unsigned number.
    spec fn pattern(self) -> nat;

    /// The all-zero value.
    fn zero() -> (r: Self)
        ensures
            r.pattern() == 0,
    ;

    /// Keeps the low `repr_bits` bits of `bits`.
    fn pack(bits: u64) -> (r: Self)
        ensures
            r.pattern() == (bits as int) % (pow2(Self::repr_bits()) as int),
    ;

    /// The stored bits, zero-extended to 64.
    fn unpack(self) -> (r: u64)
        ensures
            r == self.pattern(),
    ;

    /// A stored pattern fits the primitive, which holds 8 to 64 bits.
    proof fn lemma_pattern_bound(self)
        ensures
            self.pattern() < pow2(Self::repr_bits()),
            8 <= Self::repr_bits() <= 64,
    ;
}

/// What the truncating casts of the backing primitives keep of a word.
proof fn lemma_backing_casts(bits: u64)
    ensures
        (bits as u8) as int == (bits as int) % (pow2(8) as int),
        (bits as u16) as int == (bits as int) % (pow2(16) as int),
        (bits as u32) as int == (bits as int) % (pow2(32) as int),
        (bits as int) == (bits as int) % (pow2(64) as int),
        ((bits as u8) as i8) as u8 == bits as u8,
        ((bits as u16) as i16) as u16 == bits as u16,
        ((bits as u32) as i32) as u32 == bits as u32,
        ((bits as u64) as i64) as u64 == bits,
{
    lemma2_to64();
    lemma2_to64_rest();
    assert((bits as u8) as int == (bits as int) % 0x100 && (bits as u16) as int == (bits as int) % 0x1_0000
        && (bits as u32) as int == (bits as int) % 0x1_0000_0000 && (bits as int) == (bits as int)
        % 0x1_0000_0000_0000_0000 && ((bits as u8) as i8) as u8 == bits as u8 && ((bits as u16) as i16)
        as u16 == bits as u16 && ((bits as u32) as i32) as u32 == bits as u32 && ((bits as u64) as i64)
        as u64 == bits) by (bit_vector);
}

impl Sealed for i8 {}

impl Sealed for i16 {}

impl Sealed for i32 {}

impl Sealed for i64 {}

impl Sealed for u8 {}

impl Sealed for u16 {}

impl Sealed for u32 {}

impl Sealed for u64 {}

impl Repr for i8 {
    open spec fn repr_bits() -> nat {
        8
    }

    open spec fn pattern(self) -> nat {
        (self as u8) as nat
    }

    fn zero() -> (r: Self) {
        0
    }

    fn pack(bits: u64) -> (r: Self) {
        proof {
            lemma_backing_casts(bits);
        }
        (bits as u8) as i8
    }

    fn unpack(self) -> (r: u64) {
        (self as u8) as u64
    }

    proof fn lemma_pattern_bound(self) {
        lemma2_to64();
        lemma2_to64_rest();
    }
}

impl Repr for i16 {
    open spec fn repr_bits() -> nat {
        16
    }

    open spec fn pattern(self) -> nat {
        (self as u16) as nat
    }

    fn zero() -> (r: Self) {
        0
    }

    fn pack(bits: u64) -> (r: Self) {
        proof {
            lemma_backing_casts(bits);
        }
        (bits as u16) as i16
    }

    fn unpack(self) -> (r: u64) {
        (self as u16) as u64
    }

    proof fn lemma_pattern_bound(self) {
        lemma2_to64();
        lemma2_to64_rest();
    }
}

impl Repr for i32 {
    open spec fn repr_bits() -> nat {
        32
    }

    open spec fn pattern(self) -> nat {
        (self as u32) as nat
    }

    fn zero() -> (r: Self) {
        0
    }

    fn pack(bits: u64) -> (r: Self) {
        proof {
            lemma_backing_casts(bits);
        }
        (bits as u32) as i32
    }

    fn unpack(self) -> (r: u64) {
        (self as u32) as u64
    }

    proof fn lemma_pattern_bound(self) {
        lemma2_to64();
        lemma2_to64_rest();
    }
}

impl Repr for i64 {
    open spec fn repr_bits() -> nat {
        64
    }

    open spec fn pattern(self) -> nat {
        (self as u64) as nat
    }

    fn zero() -> (r: Self) {
        0
    }

    fn pack(bits: u64) -> (r: Self) {
        proof {
            lemma_backing_casts(bits);
        }
        (bits as u64) as i64
    }

    fn unpack(self) -> (r: u64) {
        (self as u64) as u64
    }

    proof fn lemma_pattern_bound(self) {
        lemma2_to64();
        lemma2_to64_rest();
    }
}

impl Repr for u8 {
    open spec fn repr_bits() -> nat {
        8
    }

    open spec fn pattern(self) -> nat {
        self as nat
    }

    fn zero() -> (r: Self) {
        0
    }

    fn pack(bits: u64) -> (r: Self) {
        proof {
            lemma_backing_casts(bits);
        }
        bits as u8
    }

    fn unpack(self) -> (r: u64) {
        self as u64
    }

    proof fn lemma_pattern_bound(self) {
        lemma2_to64();
        lemma2_to64_rest();
    }
}

impl Repr for u16 {
    open spec fn repr_bits() -> nat {
        16
    }

    open spec fn pattern(self) -> nat {
        self as nat
    }

    fn zero() -> (r: Self) {
        0
    }

    fn pack(bits: u64) -> (r: Self) {
        proof {
            lemma_backing_casts(bits);
        }
        bits as u16
    }

    fn unpack(self) -> (r: u64) {
        self as u64
    }

    proof fn lemma_pattern_bound(self) {
        lemma2_to64();
        lemma2_to64_rest();
    }
}

impl Repr for u32 {
    open spec fn repr_bits() -> nat {
        32
    }

    open spec fn pattern(self) -> nat {
        self as nat
    }

    fn zero() -> (r: Self) {
        0
    }

    fn pack(bits: u64) -> (r: Self) {
        proof {
            lemma_backing_casts(bits);
        }
        bits as u32
    }

    fn unpack(self) -> (r: u64) {
        self as u64
    }

    proof fn lemma_pattern_bound(self) {
        lemma2_to64();
        lemma2_to64_rest();
    }
}

impl Repr for u64 {
    open spec fn repr_bits() -> nat {
        64
    }

    open spec fn pattern(self) -> nat {
        self as nat
    }

    fn zero() -> (r: Self) {
        0
    }

    fn pack(bits: u64) -> (r: Self) {
        proof {
            lemma_backing_casts(bits);
        }
        bits as u64
    }

    fn unpack(self) -> (r: u64) {
        self as u64
    }

    proof fn lemma_pattern_bound(self) {
        lemma2_to64();
        lemma2_to64_rest();
    }
}

// ===========================================================================
// Packable: byte-granular backing
// ===========================================================================

/// A fixed-point value that can be stored in the backing primitive `B`, for
/// use in [`PackedArray`] and [`PackedVec`].
///
/// `Q` and `UQ` are stored in one `B`, a `CQ` in an interleaved `[B; 2]`
/// real/imaginary pair. The backing must hold the element's `I + F` bits.
pub trait Packable<B: Repr>: Copy + Sealed {
    /// What one element is stored in.
    type Backing: Copy;

    /// The element format is usable and its `I + F` bits fit the backing.
    spec fn fits() -> bool;

    /// The value a stored backing holds.
    spec fn decode(backing: Self::Backing) -> Self;

    /// Whether this is the value zero.
    spec fn is_zero(self) -> bool;

    /// The backing of the value zero.
    fn zero_backing() -> (r: Self::Backing)
        requires
            Self::fits(),
        ensures
            Self::decode(r).is_zero(),
    ;

    /// Encodes the value into its backing: decoding gives it back exactly.
    fn to_backing(self) -> (r: Self::Backing)
        requires
            Self::fits(),
        ensures
            Self::decode(r) == self,
    ;

    /// Reconstructs the value a backing holds.
    fn from_backing(backing: Self::Backing) -> (r: Self)
        requires
            Self::fits(),
        ensures
            r == Self::decode(backing),
    ;
}

impl<const I: u32, const F: u32> Sealed for Q<I, F> {}

impl<const I: u32, const F: u32> Sealed for UQ<I, F> {}

impl<const I: u32, const F: u32> Sealed for CQ<I, F> {}

/// The signed value held by the low `I + F` bits of a stored pattern.
pub open spec fn decode_q<const I: u32, const F: u32>(pattern: nat) -> Q<I, F> {
    Q::<I, F>::of_count(signed_wrap(pattern as int, Q::<I, F>::width()))
}

/// The unsigned value held by the low `I + F` bits of a stored pattern.
pub open spec fn decode_uq<const I: u32, const F: u32>(pattern: nat) -> UQ<I, F> {
    UQ::<I, F>::of_count(unsigned_wrap(pattern as int, UQ::<I, F>::width()))
}

/// Reading a pattern back as a `Q` gives the value its low bits spell.
proof fn lemma_decode_q<const I: u32, const F: u32>(pattern: nat)
    requires
        Q::<I, F>::valid(),
    ensures
        decode_q::<I, F>(pattern)@ == signed_wrap(pattern as int, Q::<I, F>::width()),
{
    lemma_signed_wrap(pattern as int, Q::<I, F>::width());
    crate::bits::lemma_fits_signed_wider(
        signed_wrap(pattern as int, Q::<I, F>::width()),
        Q::<I, F>::width(),
        64,
    );
    lemma2_to64_rest();
    crate::bits::lemma_pow2_halves(64);
    Q::<I, F>::lemma_of_count(signed_wrap(pattern as int, Q::<I, F>::width()));
}

/// Reading a pattern back as a `UQ` gives the value its low bits spell.
proof fn lemma_decode_uq<const I: u32, const F: u32>(pattern: nat)
    requires
        UQ::<I, F>::valid(),
    ensures
        decode_uq::<I, F>(pattern)@ == unsigned_wrap(pattern as int, UQ::<I, F>::width()),
{
    lemma_unsigned_wrap(pattern as int, UQ::<I, F>::width());
    crate::bits::lemma_fits_unsigned_wider(
        unsigned_wrap(pattern as int, UQ::<I, F>::width()),
        UQ::<I, F>::width(),
        64,
    );
    lemma2_to64_rest();
    UQ::<I, F>::lemma_of_count(unsigned_wrap(pattern as int, UQ::<I, F>::width()));
}

/// Stores a `Q` bit pattern in `B`; the pattern read back is unchanged.
fn pack_q<const I: u32, const F: u32, B: Repr>(q: Q<I, F>) -> (r: B)
    requires
        Q::<I, F>::valid(),
        Q::<I, F>::width() <= B::repr_bits(),
    ensures
        decode_q::<I, F>(r.pattern()) == q,
{
    let bits = q.to_bits();
    let r = B::pack(bits);
    proof {
        r.lemma_pattern_bound();
        lemma_unsigned_wrap(q@, Q::<I, F>::width());
        lemma_pow2_le(Q::<I, F>::width(), B::repr_bits());
        vstd::arithmetic::div_mod::lemma_small_mod(bits as nat, pow2(B::repr_bits()));
        lemma_decode_q::<I, F>(r.pattern());
        Q::<I, F>::lemma_same_count(decode_q::<I, F>(r.pattern()), q);
    }
    r
}

/// Reads a `Q` back from its backing.
fn unpack_q<const I: u32, const F: u32, B: Repr>(b: B) -> (r: Q<I, F>)
    requires
        Q::<I, F>::valid(),
    ensures
        r == decode_q::<I, F>(b.pattern()),
{
    let r = Q::<I, F>::from_bits(b.unpack());
    proof {
        lemma_decode_q::<I, F>(b.pattern());
        Q::<I, F>::lemma_same_count(r, decode_q::<I, F>(b.pattern()));
    }
    r
}

impl<const I: u32, const F: u32, B: Repr> Packable<B> for Q<I, F> {
    type Backing = B;

    open spec fn fits() -> bool {
        Q::<I, F>::valid() && Q::<I, F>::width() <= B::repr_bits()
    }

    open spec fn decode(backing: B) -> Self {
        decode_q::<I, F>(backing.pattern())
    }

    open spec fn is_zero(self) -> bool {
        self@ == 0
    }

    fn zero_backing() -> (r: B) {
        let r = B::zero();
        proof {
            lemma_decode_q::<I, F>(r.pattern());
            crate::bits::lemma_pow2_halves(Q::<I, F>::width());
            lemma_signed_wrap_fits(0, Q::<I, F>::width());
        }
        r
    }

    fn to_backing(self) -> (r: B) {
        pack_q(self)
    }

    fn from_backing(backing: B) -> (r: Self) {
        unpack_q(backing)
    }
}

/// Stores a `UQ` bit pattern in `B`; the pattern read back is unchanged.
fn pack_uq<const I: u32, const F: u32, B: Repr>(q: UQ<I, F>) -> (r: B)
    requires
        UQ::<I, F>::valid(),
        UQ::<I, F>::width() <= B::repr_bits(),
    ensures
        decode_uq::<I, F>(r.pattern()) == q,
{
    let bits = q.to_bits();
    let r = B::pack(bits);
    proof {
        r.lemma_pattern_bound();
        lemma_pow2_le(UQ::<I, F>::width(), B::repr_bits());
        vstd::arithmetic::div_mod::lemma_small_mod(bits as nat, pow2(B::repr_bits()));
        lemma_decode_uq::<I, F>(r.pattern());
        lemma_unsigned_wrap(q@, UQ::<I, F>::width());
        UQ::<I, F>::lemma_same_count(decode_uq::<I, F>(r.pattern()), q);
    }
    r
}

impl<const I: u32, const F: u32, B: Repr> Packable<B> for UQ<I, F> {
    type Backing = B;

    open spec fn fits() -> bool {
        UQ::<I, F>::valid() && UQ::<I, F>::width() <= B::repr_bits()
    }

    open spec fn decode(backing: B) -> Self {
        decode_uq::<I, F>(backing.pattern())
    }

    open spec fn is_zero(self) -> bool {
        self@ == 0
    }

    fn zero_backing() -> (r: B) {
        let r = B::zero();
        proof {
            lemma_decode_uq::<I, F>(r.pattern());
            lemma_unsigned_wrap(0, UQ::<I, F>::width());
            lemma_pow2_pos(UQ::<I, F>::width());
        }
        r
    }

    fn to_backing(self) -> (r: B) {
        pack_uq(self)
    }

    fn from_backing(backing: B) -> (r: Self) {
        let r = UQ::<I, F>::from_count(backing.unpack());
        proof {
            lemma_decode_uq::<I, F>(backing.pattern());
            UQ::<I, F>::lemma_same_count(r, decode_uq::<I, F>(backing.pattern()));
        }
        r
    }
}

impl<const I: u32, const F: u32, B: Repr> Packable<B> for CQ<I, F> {
    type Backing = [B; 2];

    open spec fn fits() -> bool {
        Q::<I, F>::valid() && Q::<I, F>::width() <= B::repr_bits()
    }

    open spec fn decode(backing: [B; 2]) -> Self {
        CQ { re: decode_q::<I, F>(backing@[0].pattern()), im: decode_q::<I, F>(backing@[1].pattern()) }
    }

    open spec fn is_zero(self) -> bool {
        self@ == (0int, 0int)
    }

    fn zero_backing() -> (r: [B; 2]) {
        let z = B::zero();
        proof {
            lemma_decode_q::<I, F>(z.pattern());
            crate::bits::lemma_pow2_halves(Q::<I, F>::width());
            lemma_signed_wrap_fits(0, Q::<I, F>::width());
        }
        [z, z]
    }

    fn to_backing(self) -> (r: [B; 2]) {
        [pack_q(self.re), pack_q(self.im)]
    }

    fn from_backing(backing: [B; 2]) -> (r: Self) {
        CQ { re: unpack_q(backing[0]), im: unpack_q(backing[1]) }
    }
}

// ===========================================================================
// PackedArray: fixed capacity, byte-granular
// ===========================================================================

/// A fixed-capacity array of `N` fixed-point values, each stored in the
/// backing `B` (a `CQ` in a `[B; 2]` pair).
///
/// The in-memory size is `N` backings: with the smallest backing that holds
/// the element's bits, up to 8 times smaller than `[T; N]`. Elements are
/// returned by value.
#[derive(Copy)]
pub struct PackedArray<T: Packable<B>, B: Repr, const N: usize> {
    data: [<T as Packable<B>>::Backing; N],
}

impl<T: Packable<B>, B: Repr, const N: usize> Clone for PackedArray<T, B, N> {
    /// A copy holding the same values.
    fn clone(&self) -> (r: Self)
        ensures
            r@ == self@,
    {
        *self
    }
}

impl<T: Packable<B>, B: Repr, const N: usize> View for PackedArray<T, B, N> {
    type V = Seq<T>;

    /// The stored values, in order.
    closed spec fn view(&self) -> Seq<T> {
        self.data@.map_values(|b: <T as Packable<B>>::Backing| T::decode(b))
    }
}

impl<T: Packable<B>, B: Repr, const N: usize> PackedArray<T, B, N> {
    /// The element type fits the backing.
    #[verifier::type_invariant]
    spec fn backing_fits(self) -> bool {
        T::fits()
    }

    /// An array with every element zero.
    pub fn new() -> (r: Self)
        requires
            T::fits(),
        ensures
            r@.len() == N,
            forall|i: int| 0 <= i < N ==> (#[trigger] r@[i]).is_zero(),
    {
        let z = T::zero_backing();
        Self { data: [z; N] }
    }

    /// An array whose element `i` is `f(i)`.
    pub fn from_fn<Fun: Fn(usize) -> T>(f: Fun) -> (r: Self)
        requires
            T::fits(),
            forall|i: usize| i < N ==> #[trigger] f.requires((i,)),
        ensures
            r@.len() == N,
            forall|i: int| 0 <= i < N ==> f.ensures((i as usize,), #[trigger] r@[i]),
    {
        let z = T::zero_backing();
        let mut data = [z; N];
        let mut i: usize = 0;
        while i < N
            invariant
                T::fits(),
                i <= N,
                forall|j: usize| j < N ==> #[trigger] f.requires((j,)),
                forall|j: int| 0 <= j < i ==> f.ensures((j as usize,), T::decode(#[trigger] data@[j])),
            decreases N - i,
        {
            let v = f(i);
            data[i] = v.to_backing();
            i = i + 1;
        }
        let r = Self { data };
        proof {
            assert forall|j: int| 0 <= j < N implies f.ensures((j as usize,), #[trigger] r@[j]) by {
                assert(r@[j] == T::decode(data@[j]));
            }
        }
        r
    }

    /// A packed copy of a plain array.
    pub fn from_array(values: [T; N]) -> (r: Self)
        requires
            T::fits(),
        ensures
            r@ == values@,
    {
        let z = T::zero_backing();
        let mut data = [z; N];
        let mut i: usize = 0;
        while i < N
            invariant
                T::fits(),
                i <= N,
                forall|j: int| 0 <= j < i ==> T::decode(#[trigger] data@[j]) == values@[j],
            decreases N - i,
        {
            data[i] = values[i].to_backing();
            i = i + 1;
        }
        let r = Self { data };
        proof {
            assert(r@ =~= values@);
        }
        r
    }

    /// The number of elements, `N`.
    pub fn len(&self) -> (r: usize)
        ensures
            r == N,
            r == self@.len(),
    {
        N
    }

    /// Whether the array has no elements (`N == 0`).
    pub fn is_empty(&self) -> (r: bool)
        ensures
            r == (N == 0),
    {
        N == 0
    }

    /// The element at `index`, or `None` past the end.
    pub fn get(&self, index: usize) -> (r: Option<T>)
        ensures
            self@.len() == N,
            r == (if index < N { Some(self@[index as int]) } else { None::<T> }),
    {
        proof {
            use_type_invariant(self);
        }
        if index < N {
            Some(T::from_backing(self.data[index]))
        } else {
            None
        }
    }

    /// Stores `value` at `index`, which must be in bounds.
    pub fn set(&mut self, index: usize, value: T)
        requires
            index < N,
        ensures
            old(self)@.len() == N,
            final(self)@.len() == N,
            final(self)@ == old(self)@.update(index as int, value),
            final(self)@ == apply_edit(old(self)@, Edit::Write(index, value)),
    {
        proof {
            use_type_invariant(&*self);
        }
        let b = value.to_backing();
        self.data[index] = b;
        proof {
            assert(self@ =~= old(self)@.update(index as int, value));
        }
    }

    /// The elements, in order.
    pub fn iter(&self) -> (r: Vec<T>)
        ensures
            r@ == self@,
    {
        proof {
            use_type_invariant(self);
        }
        let mut out: Vec<T> = Vec::new();
        let mut i: usize = 0;
        while i < N
            invariant
                T::fits(),
                i <= N,
                out@ == self@.take(i as int),
            decreases N - i,
        {
            out.push(T::from_backing(self.data[i]));
            i = i + 1;
            proof {
                assert(out@ =~= self@.take(i as int));
            }
        }
        proof {
            assert(self@.take(N as int) =~= self@);
        }
        out
    }

    /// Unpacks into a plain array.
    pub fn to_array(&self) -> (r: [T; N])
        ensures
            r@ == self@,
    {
        proof {
            use_type_invariant(self);
        }
        let z = T::from_backing(T::zero_backing());
        let mut out = [z; N];
        let mut i: usize = 0;
        while i < N
            invariant
                T::fits(),
                i <= N,
                forall|j: int| 0 <= j < i ==> #[trigger] out@[j] == self@[j],
            decreases N - i,
        {
            out[i] = T::from_backing(self.data[i]);
            i = i + 1;
        }
        proof {
            assert(out@ =~= self@);
        }
        out
    }
}

// ===========================================================================
// PackedVec: growable, byte-granular
// ===========================================================================

/// A growable vector of fixed-point values, each stored in the backing `B`:
/// the `Vec`-like counterpart of [`PackedArray`].
pub struct PackedVec<T: Packable<B>, B: Repr> {
    data: Vec<<T as Packable<B>>::Backing>,
}

impl<T: Packable<B>, B: Repr> Clone for PackedVec<T, B> {
    /// A copy holding the same values.
    fn clone(&self) -> (r: Self)
        ensures
            r@ == self@,
    {
        let mut data: Vec<<T as Packable<B>>::Backing> = Vec::new();
        let mut i: usize = 0;
        while i < self.data.len()
            invariant
                i <= self.data@.len(),
                data@ == self.data@.take(i as int),
            decreases self.data@.len() - i,
        {
            data.push(self.data[i]);
            i = i + 1;
            proof {
                assert(data@ =~= self.data@.take(i as int));
            }
        }
        proof {
            assert(self.data@.take(self.data@.len() as int) =~= self.data@);
        }
        Self { data }
    }
}

impl<T: Packable<B>, B: Repr> View for PackedVec<T, B> {
    type V = Seq<T>;

    /// The stored values, in order.
    closed spec fn view(&self) -> Seq<T> {
        self.data@.map_values(|b: <T as Packable<B>>::Backing| T::decode(b))
    }
}

impl<T: Packable<B>, B: Repr> PackedVec<T, B> {
    /// An empty vector.
    pub fn new() -> (r: Self)
        requires
            T::fits(),
        ensures
            r@ == Seq::<T>::empty(),
    {
        let r = Self { data: Vec::new() };
        proof {
            assert(r@ =~= Seq::<T>::empty());
        }
        r
    }

    /// An empty vector with room for `capacity` elements.
    pub fn with_capacity(capacity: usize) -> (r: Self)
        requires
            T::fits(),
        ensures
            r@ == Seq::<T>::empty(),
    {
        let r = Self { data: Vec::with_capacity(capacity) };
        proof {
            assert(r@ =~= Seq::<T>::empty());
        }
        r
    }

    /// A vector holding `values`, in order.
    pub fn from_values(values: &[T]) -> (r: Self)
        requires
            T::fits(),
        ensures
            r@ == values@,
    {
        let mut r = Self::new();
        r.extend_from_slice(values);
        proof {
            assert(r@ =~= values@);
        }
        r
    }

    /// The number of elements.
    pub fn len(&self) -> (r: usize)
        ensures
            r == self@.len(),
    {
        self.data.len()
    }

    /// Whether there are no elements.
    pub fn is_empty(&self) -> (r: bool)
        ensures
            r == (self@.len() == 0),
    {
        self.data.len() == 0
    }

    /// Appends `value`.
    pub fn push(&mut self, value: T)
        requires
            T::fits(),
        ensures
            final(self)@ == old(self)@.push(value),
            final(self)@ == apply_edit(old(self)@, Edit::Push(value)),
    {
        let b = value.to_backing();
        self.data.push(b);
        proof {
            assert(self@ =~= old(self)@.push(value));
        }
    }

    /// Appends every value of `values`, in order.
    pub fn extend_from_slice(&mut self, values: &[T])
        requires
            T::fits(),
        ensures
            final(self)@ == old(self)@ + values@,
    {
        let mut i: usize = 0;
        while i < values.len()
            invariant
                T::fits(),
                i <= values@.len(),
                self@ == old(self)@ + values@.take(i as int),
            decreases values@.len() - i,
        {
            self.push(values[i]);
            i = i + 1;
            proof {
                assert(self@ =~= old(self)@ + values@.take(i as int));
            }
        }
        proof {
            assert(values@.take(values@.len() as int) =~= values@);
        }
    }

    /// Removes and returns the last element, or `None` when empty.
    pub fn pop(&mut self) -> (r: Option<T>)
        requires
            T::fits(),
        ensures
            old(self)@.len() == 0 ==> r == None::<T> && final(self)@ == old(self)@,
            old(self)@.len() > 0 ==> r == Some(old(self)@.last()) && final(self)@ == old(self)@.drop_last(),
            final(self)@ == apply_edit(old(self)@, Edit::Pop),
    {
        match self.data.pop() {
            Some(b) => {
                proof {
                    assert(self@ =~= old(self)@.drop_last());
                }
                Some(T::from_backing(b))
            },
            None => None,
        }
    }

    /// The element at `index`, or `None` past the end.
    pub fn get(&self, index: usize) -> (r: Option<T>)
        requires
            T::fits(),
        ensures
            r == (if index < self@.len() { Some(self@[index as int]) } else { None::<T> }),
    {
        if index < self.data.len() {
            Some(T::from_backing(self.data[index]))
        } else {
            None
        }
    }

    /// Stores `value` at `index`, which must be in bounds.
    pub fn set(&mut self, index: usize, value: T)
        requires
            T::fits(),
            index < old(self)@.len(),
        ensures
            final(self)@ == old(self)@.update(index as int, value),
            final(self)@ == apply_edit(old(self)@, Edit::Write(index, value)),
    {
        let b = value.to_backing();
        self.data.set(index, b);
        proof {
            assert(self@ =~= old(self)@.update(index as int, value));
        }
    }

    /// Removes every element.
    pub fn clear(&mut self)
        ensures
            final(self)@ == Seq::<T>::empty(),
    {
        self.data.clear();
        proof {
            assert(self@ =~= Seq::<T>::empty());
        }
    }

    /// The elements, in order.
    pub fn iter(&self) -> (r: Vec<T>)
        requires
            T::fits(),
        ensures
            r@ == self@,
    {
        let mut out: Vec<T> = Vec::new();
        let mut i: usize = 0;
        while i < self.data.len()
            invariant
                T::fits(),
                i <= self.data@.len(),
                out@ == self@.take(i as int),
            decreases self.data@.len() - i,
        {
            out.push(T::from_backing(self.data[i]));
            i = i + 1;
            proof {
                assert(out@ =~= self@.take(i as int));
            }
        }
        proof {
            assert(self@.take(self.data@.len() as int) =~= self@);
        }
        out
    }
}

// ===========================================================================
// BitPackable: exactly I + F bits per lane
// ===========================================================================

/// A fixed-point value that can be packed to exactly its `I + F` bits, for
/// use in [`PackedBits`] and [`PackedBitsVec`].
///
/// An element is a run of lanes of `I + F` bits each: `Q` and `UQ` are one
/// lane, `CQ` two (real, then imaginary).
pub trait BitPackable: Copy + Sealed {
    /// The element format is usable (`1 <= I + F <= 64`).
    spec fn packable() -> bool;

    /// Bits in each lane, `I + F`.
    spec fn lane_width() -> nat;

    /// Lanes per element: 1 for `Q` and `UQ`, 2 for `CQ`.
    spec fn lane_count() -> nat;

    /// The bit pattern of lane `k`.
    spec fn lane_value(self, k: int) -> int;

    /// The value the lane patterns `lanes` spell.
    spec fn assemble(lanes: Seq<u64>) -> Self;

    /// A usable format has lanes of 1 to 64 bits, one or two of them.
    proof fn lemma_shape()
        requires
            Self::packable(),
        ensures
            1 <= Self::lane_width() <= 64,
            1 <= Self::lane_count() <= 2,
    ;

    /// Bits in each lane.
    fn lane_bits() -> (r: u32)
        requires
            Self::packable(),
        ensures
            r == Self::lane_width(),
    ;

    /// Lanes per element.
    fn lanes() -> (r: usize)
        ensures
            r == Self::lane_count(),
    ;

    /// The bit pattern of lane `index`; the patterns of all lanes spell the
    /// value back.
    fn lane(self, index: usize) -> (r: u64)
        requires
            Self::packable(),
            index < Self::lane_count(),
        ensures
            r == self.lane_value(index as int),
            r < pow2(Self::lane_width()),
            Self::assemble(Seq::new(Self::lane_count(), |k: int| self.lane_value(k) as u64)) == self,
    ;

    /// Rebuilds a value from its lane patterns.
    fn from_lanes(lanes: &[u64]) -> (r: Self)
        requires
            Self::packable(),
            lanes@.len() == Self::lane_count(),
        ensures
            r == Self::assemble(lanes@),
    ;
}

impl<const I: u32, const F: u32> BitPackable for Q<I, F> {
    open spec fn packable() -> bool {
        Q::<I, F>::valid()
    }

    open spec fn lane_width() -> nat {
        Q::<I, F>::width()
    }

    open spec fn lane_count() -> nat {
        1
    }

    open spec fn lane_value(self, k: int) -> int {
        unsigned_wrap(self@, Q::<I, F>::width())
    }

    open spec fn assemble(lanes: Seq<u64>) -> Self {
        decode_q::<I, F>(lanes[0] as nat)
    }

    proof fn lemma_shape() {
    }

    fn lane_bits() -> (r: u32) {
        I + F
    }

    fn lanes() -> (r: usize) {
        1
    }

    fn lane(self, index: usize) -> (r: u64) {
        let r = self.to_bits();
        proof {
            lemma_unsigned_wrap(self@, Q::<I, F>::width());
            lemma_decode_q::<I, F>(r as nat);
            let lanes = Seq::new(1, |k: int| self.lane_value(k) as u64);
            assert(lanes[0] == r);
            Q::<I, F>::lemma_same_count(decode_q::<I, F>(r as nat), self);
        }
        r
    }

    fn from_lanes(lanes: &[u64]) -> (r: Self) {
        unpack_q::<I, F, u64>(lanes[0])
    }
}

impl<const I: u32, const F: u32> BitPackable for UQ<I, F> {
    open spec fn packable() -> bool {
        UQ::<I, F>::valid()
    }

    open spec fn lane_width() -> nat {
        UQ::<I, F>::width()
    }

    open spec fn lane_count() -> nat {
        1
    }

    open spec fn lane_value(self, k: int) -> int {
        self@
    }

    open spec fn assemble(lanes: Seq<u64>) -> Self {
        decode_uq::<I, F>(lanes[0] as nat)
    }

    proof fn lemma_shape() {
    }

    fn lane_bits() -> (r: u32) {
        I + F
    }

    fn lanes() -> (r: usize) {
        1
    }

    fn lane(self, index: usize) -> (r: u64) {
        let r = self.to_bits();
        proof {
            lemma_decode_uq::<I, F>(r as nat);
            lemma_unsigned_wrap(self@, UQ::<I, F>::width());
            let lanes = Seq::new(1, |k: int| self.lane_value(k) as u64);
            assert(lanes[0] == r);
            UQ::<I, F>::lemma_same_count(decode_uq::<I, F>(r as nat), self);
        }
        r
    }

    fn from_lanes(lanes: &[u64]) -> (r: Self) {
        let r = UQ::<I, F>::from_count(lanes[0]);
        proof {
            lemma_decode_uq::<I, F>(lanes@[0] as nat);
            UQ::<I, F>::lemma_same_count(r, decode_uq::<I, F>(lanes@[0] as nat));
        }
        r
    }
}

impl<const I: u32, const F: u32> BitPackable for CQ<I, F> {
    open spec fn packable() -> bool {
        Q::<I, F>::valid()
    }

    open spec fn lane_width() -> nat {
        Q::<I, F>::width()
    }

    open spec fn lane_count() -> nat {
        2
    }

    open spec fn lane_value(self, k: int) -> int {
        if k == 0 {
            unsigned_wrap(self.re@, Q::<I, F>::width())
        } else {
            unsigned_wrap(self.im@, Q::<I, F>::width())
        }
    }

    open spec fn assemble(lanes: Seq<u64>) -> Self {
        CQ { re: decode_q::<I, F>(lanes[0] as nat), im: decode_q::<I, F>(lanes[1] as nat) }
    }

    proof fn lemma_shape() {
    }

    fn lane_bits() -> (r: u32) {
        I + F
    }

    fn lanes() -> (r: usize) {
        2
    }

    fn lane(self, index: usize) -> (r: u64) {
        let (re, im) = self.to_bits();
        proof {
            lemma_unsigned_wrap(self.re@, Q::<I, F>::width());
            lemma_unsigned_wrap(self.im@, Q::<I, F>::width());
            lemma_decode_q::<I, F>(re as nat);
            lemma_decode_q::<I, F>(im as nat);
            let lanes = Seq::new(2, |k: int| self.lane_value(k) as u64);
            assert(lanes[0] == re && lanes[1] == im);
            Q::<I, F>::lemma_same_count(decode_q::<I, F>(re as nat), self.re);
            Q::<I, F>::lemma_same_count(decode_q::<I, F>(im as nat), self.im);
        }
        if index == 0 {
            re
        } else {
            im
        }
    }

    fn from_lanes(lanes: &[u64]) -> (r: Self) {
        CQ { re: unpack_q::<I, F, u64>(lanes[0]), im: unpack_q::<I, F, u64>(lanes[1]) }
    }
}

// ===========================================================================
// Elements in a bit-packed stream
// ===========================================================================

/// Bits one element of `T` takes in a bit-packed stream: `I + F` for `Q`
/// and `UQ`, `2 * (I + F)` for `CQ`.
pub open spec fn element_bits<T: BitPackable>() -> nat {
    T::lane_width() * T::lane_count()
}

/// Lane `k` of element `i` of a bit-packed byte buffer: element `i` starts
/// at bit `i * element_bits`, its lanes follow one another.
pub open spec fn stored_lane<T: BitPackable>(bytes: Seq<u8>, i: int, k: int) -> int {
    field(
        stream_value(bytes) as int,
        (i * element_bits::<T>() + k * T::lane_width()) as nat,
        T::lane_width(),
    )
}

/// Element `i` of a bit-packed byte buffer.
pub open spec fn stored_element<T: BitPackable>(bytes: Seq<u8>, i: int) -> T {
    T::assemble(Seq::new(T::lane_count(), |k: int| stored_lane::<T>(bytes, i, k) as u64))
}

/// The bit ranges of two different lanes of a bit-packed stream do not
/// overlap.
proof fn lemma_lanes_disjoint(e: int, i: int, k2: int, k: int, lw: nat, lc: nat)
    requires
        e >= 0,
        i >= 0,
        0 <= k2 < lc,
        0 <= k < lc,
        lw >= 1,
        e != i || k2 != k,
    ensures
        e * (lw * lc) + k2 * lw + lw <= i * (lw * lc) + k * lw || i * (lw * lc) + k * lw + lw <= e * (lw
            * lc) + k2 * lw,
{
    if e == i {
        if k2 < k {
            assert(k2 * lw + lw <= k * lw) by (nonlinear_arith)
                requires
                    k2 + 1 <= k,
                    lw >= 1,
            ;
        } else {
            assert(k * lw + lw <= k2 * lw) by (nonlinear_arith)
                requires
                    k + 1 <= k2,
                    lw >= 1,
            ;
        }
    } else if e < i {
        assert(e * (lw * lc) + k2 * lw + lw <= i * (lw * lc) + k * lw) by (nonlinear_arith)
            requires
                e + 1 <= i,
                k2 + 1 <= lc,
                k >= 0,
                lw >= 1,
        ;
    } else {
        assert(i * (lw * lc) + k * lw + lw <= e * (lw * lc) + k2 * lw) by (nonlinear_arith)
            requires
                i + 1 <= e,
                k + 1 <= lc,
                k2 >= 0,
                lw >= 1,
        ;
    }
}

/// Lane `k` of element `i` lies inside the first `(i + 1) * element_bits`
/// bits of the stream.
proof fn lemma_lane_inside(i: int, k: int, lw: nat, lc: nat)
    requires
        i >= 0,
        0 <= k < lc,
        lw >= 1,
    ensures
        0 <= i * (lw * lc) + k * lw,
        i * (lw * lc) + k * lw + lw <= (i + 1) * (lw * lc),
{
    assert(0 <= i * (lw * lc) + k * lw && i * (lw * lc) + k * lw + lw <= (i + 1) * (lw * lc))
        by (nonlinear_arith)
        requires
            i >= 0,
            0 <= k,
            k + 1 <= lc,
            lw >= 1,
    ;
}

/// Bits one element of `T` takes in a bit-packed stream.
fn elem_bits<T: BitPackable>() -> (r: usize)
    requires
        T::packable(),
    ensures
        r == element_bits::<T>(),
        1 <= r <= 128,
{
    proof {
        T::lemma_shape();
    }
    let lb = T::lane_bits() as usize;
    let lc = T::lanes();
    proof {
        assert(1 <= lb * lc <= 128) by (nonlinear_arith)
            requires
                1 <= lb <= 64,
                1 <= lc <= 2,
        ;
    }
    lb * lc
}

/// Reads element `index` of a bit-packed byte buffer.
fn read_element<T: BitPackable>(buf: &[u8], index: usize) -> (r: T)
    requires
        T::packable(),
        (index + 1) * element_bits::<T>() <= 8 * buf@.len(),
        (index + 1) * element_bits::<T>() <= usize::MAX,
    ensures
        r == stored_element::<T>(buf@, index as int),
{
    proof {
        T::lemma_shape();
    }
    let lb = T::lane_bits();
    let lc = T::lanes();
    let eb = elem_bits::<T>();
    proof {
        assert(index * eb <= (index + 1) * eb) by (nonlinear_arith)
            requires
                eb >= 1,
        ;
    }
    let base = index * eb;
    let mut lanes: Vec<u64> = Vec::new();
    let mut k: usize = 0;
    while k < lc
        invariant
            T::packable(),
            1 <= lb <= 64,
            lb == T::lane_width(),
            lc == T::lane_count(),
            eb == element_bits::<T>(),
            base == index * eb,
            (index + 1) * eb <= 8 * buf@.len(),
            (index + 1) * eb <= usize::MAX,
            k <= lc,
            lanes@.len() == k,
            forall|j: int| 0 <= j < k ==> #[trigger] lanes@[j] == stored_lane::<T>(buf@, index as int, j) as u64,
        decreases lc - k,
    {
        proof {
            lemma_lane_inside(index as int, k as int, lb as nat, lc as nat);
        }
        let x = read_bits(buf, base + k * (lb as usize), lb);
        proof {
            let v = stream_value(buf@) as int;
            let off = (index * eb + k * lb) as nat;
            lemma_pow2_pos(lb as nat);
            lemma_pow2_le(lb as nat, 64);
            lemma2_to64_rest();
            vstd::arithmetic::div_mod::lemma_mod_bound(v / (pow2(off) as int), pow2(lb as nat) as int);
        }
        lanes.push(x);
        k = k + 1;
    }
    let r = T::from_lanes(lanes.as_slice());
    proof {
        assert(lanes@ =~= Seq::new(T::lane_count(), |j: int| stored_lane::<T>(buf@, index as int, j) as u64));
    }
    r
}

/// Writes `value` as element `index` of a bit-packed byte buffer; every
/// other element keeps its value.
fn write_element<T: BitPackable>(buf: &mut [u8], index: usize, value: T)
    requires
        T::packable(),
        (index + 1) * element_bits::<T>() <= 8 * old(buf)@.len(),
        (index + 1) * element_bits::<T>() <= usize::MAX,
    ensures
        final(buf)@.len() == old(buf)@.len(),
        stored_element::<T>(final(buf)@, index as int) == value,
        forall|e: int|
            0 <= e && e != index ==> #[trigger] stored_element::<T>(final(buf)@, e)
                == stored_element::<T>(old(buf)@, e),
{
    proof {
        T::lemma_shape();
    }
    let lb = T::lane_bits();
    let lc = T::lanes();
    let eb = elem_bits::<T>();
    proof {
        assert(index * eb <= (index + 1) * eb) by (nonlinear_arith)
            requires
                eb >= 1,
        ;
    }
    let base = index * eb;
    let mut k: usize = 0;
    while k < lc
        invariant
            T::packable(),
            1 <= lb <= 64,
            lb == T::lane_width(),
            lc == T::lane_count(),
            1 <= lc <= 2,
            eb == element_bits::<T>(),
            base == index * eb,
            (index + 1) * eb <= 8 * buf@.len(),
            (index + 1) * eb <= usize::MAX,
            buf@.len() == old(buf)@.len(),
            k <= lc,
            k > 0 ==> T::assemble(Seq::new(T::lane_count(), |j: int| value.lane_value(j) as u64)) == value,
            forall|j: int| 0 <= j < k ==> #[trigger] stored_lane::<T>(buf@, index as int, j) == value.lane_value(j),
            forall|e: int, j: int|
                0 <= e && e != index && 0 <= j < lc ==> #[trigger] stored_lane::<T>(buf@, e, j)
                    == stored_lane::<T>(old(buf)@, e, j),
        decreases lc - k,
    {
        proof {
            lemma_lane_inside(index as int, k as int, lb as nat, lc as nat);
        }
        let x = value.lane(k);
        let off = base + k * (lb as usize);
        let ghost before = buf@;
        write_bits(buf, off, lb, x);
        proof {
            let v = stream_value(before) as int;
            lemma_field_of_splice(v, off as nat, lb as nat, x as int);
            vstd::arithmetic::div_mod::lemma_small_mod(x as nat, pow2(lb as nat));
            assert forall|j: int| 0 <= j < k + 1 implies #[trigger] stored_lane::<T>(buf@, index as int, j)
                == value.lane_value(j) by {
                if j < k {
                    lemma_lanes_disjoint(index as int, index as int, j, k as int, lb as nat, lc as nat);
                    lemma_lane_inside(index as int, j, lb as nat, lc as nat);
                    lemma_field_of_splice_disjoint(
                        v,
                        off as nat,
                        lb as nat,
                        x as int,
                        (index * eb + j * lb) as nat,
                        lb as nat,
                    );
                    assert(stored_lane::<T>(before, index as int, j) == value.lane_value(j));
                } else {
                    assert(j == k);
                    assert(stored_lane::<T>(buf@, index as int, j) == x);
                }
            }
            assert forall|e: int, j: int|
                0 <= e && e != index && 0 <= j < lc implies #[trigger] stored_lane::<T>(buf@, e, j)
                == stored_lane::<T>(old(buf)@, e, j) by {
                lemma_lanes_disjoint(e, index as int, j, k as int, lb as nat, lc as nat);
                lemma_lane_inside(e, j, lb as nat, lc as nat);
                lemma_field_of_splice_disjoint(
                    v,
                    off as nat,
                    lb as nat,
                    x as int,
                    (e * eb + j * lb) as nat,
                    lb as nat,
                );
                assert(stored_lane::<T>(before, e, j) == stored_lane::<T>(old(buf)@, e, j));
            }
        }
        k = k + 1;
    }
    proof {
        assert(Seq::new(T::lane_count(), |j: int| stored_lane::<T>(buf@, index as int, j) as u64) =~= Seq::new(
            T::lane_count(),
            |j: int| value.lane_value(j) as u64,
        ));
        assert forall|e: int| 0 <= e && e != index implies #[trigger] stored_element::<T>(buf@, e)
            == stored_element::<T>(old(buf)@, e) by {
            assert(Seq::new(T::lane_count(), |j: int| stored_lane::<T>(buf@, e, j) as u64) =~= Seq::new(
                T::lane_count(),
                |j: int| stored_lane::<T>(old(buf)@, e, j) as u64,
            ));
        }
    }
}

// ===========================================================================
// PackedBits: fixed byte budget, bit-exact
// ===========================================================================

/// A fixed byte budget that packs values at exactly `I + F` bits each (a
/// `CQ` at `2 * (I + F)`), crossing byte boundaries with no waste.
///
/// The capacity, `BYTES * 8 / bits_per_element`, is fixed by the budget.
/// Denser than [`PackedArray`] (12-bit samples take 12 bits, not 16), but
/// each access is a read-modify-write shift and mask. Elements are returned
/// by value.
#[derive(Copy)]
pub struct PackedBits<T: BitPackable, const BYTES: usize> {
    data: [u8; BYTES],
    len: usize,
    marker: PhantomData<T>,
}

impl<T: BitPackable, const BYTES: usize> View for PackedBits<T, BYTES> {
    type V = Seq<T>;

    /// The stored values, in order.
    closed spec fn view(&self) -> Seq<T> {
        Seq::new(self.len as nat, |i: int| stored_element::<T>(self.data@, i))
    }
}

impl<T: BitPackable, const BYTES: usize> Clone for PackedBits<T, BYTES> {
    /// A copy holding the same values.
    fn clone(&self) -> (r: Self)
        ensures
            r@ == self@,
            r.wf() == self.wf(),
    {
        *self
    }
}

impl<T: BitPackable, const BYTES: usize> PackedBits<T, BYTES> {
    /// The buffer is usable: the element format is, the budget's bit count
    /// fits a `usize`, and the stored elements fit the budget.
    pub closed spec fn wf(self) -> bool {
        &&& T::packable()
        &&& BYTES * 8 <= usize::MAX
        &&& self.len * element_bits::<T>() <= BYTES * 8
    }

    /// The number of elements the budget holds.
    pub open spec fn spec_capacity() -> nat {
        (BYTES * 8) as nat / element_bits::<T>()
    }

    /// An empty buffer, all bytes zero.
    pub fn new() -> (r: Self)
        requires
            T::packable(),
            BYTES * 8 <= usize::MAX,
        ensures
            r.wf(),
            r@ == Seq::<T>::empty(),
    {
        let r = Self { data: [0u8; BYTES], len: 0, marker: PhantomData };
        proof {
            assert(r@ =~= Seq::<T>::empty());
        }
        r
    }

    /// The most elements that fit the byte budget, `BYTES * 8 /
    /// bits_per_element`.
    pub fn capacity(&self) -> (r: usize)
        requires
            self.wf(),
        ensures
            r == Self::spec_capacity(),
    {
        (BYTES * 8) / elem_bits::<T>()
    }

    /// The number of elements stored.
    pub fn len(&self) -> (r: usize)
        ensures
            r == self@.len(),
    {
        self.len
    }

    /// Whether no element is stored.
    pub fn is_empty(&self) -> (r: bool)
        ensures
            r == (self@.len() == 0),
    {
        self.len == 0
    }

    /// Appends `value`; the buffer must have room for it.
    pub fn push(&mut self, value: T)
        requires
            old(self).wf(),
            old(self)@.len() < Self::spec_capacity(),
        ensures
            final(self).wf(),
            final(self)@ == old(self)@.push(value),
            final(self)@ == apply_edit(old(self)@, Edit::Push(value)),
    {
        let eb = elem_bits::<T>();
        proof {
            lemma_room_for_one(self.len as int, eb as int, (BYTES * 8) as int);
        }
        write_element(&mut self.data, self.len, value);
        self.len = self.len + 1;
        proof {
            assert(self@ =~= old(self)@.push(value));
        }
    }

    /// Appends `value` when there is room; otherwise hands it back and
    /// leaves the buffer unchanged.
    pub fn try_push(&mut self, value: T) -> (r: Result<(), T>)
        requires
            old(self).wf(),
        ensures
            final(self).wf(),
            r is Ok <==> old(self)@.len() < Self::spec_capacity(),
            r is Ok ==> final(self)@ == old(self)@.push(value),
            r is Ok ==> final(self)@ == apply_edit(old(self)@, Edit::Push(value)),
            r is Err ==> r->Err_0 == value && final(self)@ == old(self)@,
    {
        if self.len < self.capacity() {
            self.push(value);
            Ok(())
        } else {
            Err(value)
        }
    }

    /// Removes and returns the last element, or `None` when empty.
    pub fn pop(&mut self) -> (r: Option<T>)
        requires
            old(self).wf(),
        ensures
            final(self).wf(),
            old(self)@.len() == 0 ==> r == None::<T> && final(self)@ == old(self)@,
            old(self)@.len() > 0 ==> r == Some(old(self)@.last()) && final(self)@ == old(self)@.drop_last(),
            final(self)@ == apply_edit(old(self)@, Edit::Pop),
    {
        if self.len == 0 {
            return None;
        }
        proof {
            lemma_element_bits::<T>();
            lemma_index_inside(self.len - 1, self.len as int, element_bits::<T>() as int);
            let eb = element_bits::<T>() as int;
            let n = self.len as int;
            assert((n - 1) * eb <= n * eb) by (nonlinear_arith)
                requires
                    eb >= 0,
                    n >= 1,
            ;
        }
        let value = read_element(&self.data, self.len - 1);
        self.len = self.len - 1;
        proof {
            assert(self@ =~= old(self)@.drop_last());
        }
        Some(value)
    }

    /// The element at `index`, or `None` past the end.
    pub fn get(&self, index: usize) -> (r: Option<T>)
        requires
            self.wf(),
        ensures
            r == (if index < self@.len() { Some(self@[index as int]) } else { None::<T> }),
    {
        if index < self.len {
            proof {
                lemma_index_inside(index as int, self.len as int, element_bits::<T>() as int);
            }
            Some(read_element(&self.data, index))
        } else {
            None
        }
    }

    /// Stores `value` at `index`, which must be in bounds; the other
    /// elements keep their values.
    pub fn set(&mut self, index: usize, value: T)
        requires
            old(self).wf(),
            index < old(self)@.len(),
        ensures
            final(self).wf(),
            final(self)@ == old(self)@.update(index as int, value),
            final(self)@ == apply_edit(old(self)@, Edit::Write(index, value)),
    {
        proof {
            lemma_index_inside(index as int, self.len as int, element_bits::<T>() as int);
        }
        write_element(&mut self.data, index, value);
        proof {
            assert(self@ =~= old(self)@.update(index as int, value));
        }
    }

    /// Removes every element (the bytes are left as they are).
    pub fn clear(&mut self)
        requires
            old(self).wf(),
        ensures
            final(self).wf(),
            final(self)@ == Seq::<T>::empty(),
    {
        self.len = 0;
        proof {
            assert(self@ =~= Seq::<T>::empty());
        }
    }

    /// The elements, in order.
    pub fn iter(&self) -> (r: Vec<T>)
        requires
            self.wf(),
        ensures
            r@ == self@,
    {
        let mut out: Vec<T> = Vec::new();
        let mut i: usize = 0;
        while i < self.len
            invariant
                self.wf(),
                i <= self.len,
                out@ == self@.take(i as int),
            decreases self.len - i,
        {
            proof {
                lemma_index_inside(i as int, self.len as int, element_bits::<T>() as int);
            }
            out.push(read_element(&self.data, i));
            i = i + 1;
            proof {
                assert(out@ =~= self@.take(i as int));
            }
        }
        proof {
            assert(self@.take(self.len as int) =~= self@);
        }
        out
    }
}

/// One more element fits a budget of `total` bits when fewer than
/// `total / eb` are stored.
proof fn lemma_room_for_one(len: int, eb: int, total: int)
    requires
        eb >= 1,
        total >= 0,
        0 <= len < total / eb,
    ensures
        (len + 1) * eb <= total,
{
    vstd::arithmetic::div_mod::lemma_fundamental_div_mod(total, eb);
    vstd::arithmetic::div_mod::lemma_mod_bound(total, eb);
    assert((len + 1) * eb <= eb * (total / eb)) by (nonlinear_arith)
        requires
            len + 1 <= total / eb,
            eb >= 1,
    ;
}

/// An element takes 1 to 128 bits.
proof fn lemma_element_bits<T: BitPackable>()
    requires
        T::packable(),
    ensures
        1 <= element_bits::<T>() <= 128,
{
    T::lemma_shape();
    assert(1 <= T::lane_width() * T::lane_count() <= 128) by (nonlinear_arith)
        requires
            1 <= T::lane_width() <= 64,
            1 <= T::lane_count() <= 2,
    ;
}

/// Element `index < len` ends within the bits of `len` elements.
proof fn lemma_index_inside(index: int, len: int, eb: int)
    requires
        eb >= 0,
        0 <= index < len,
    ensures
        (index + 1) * eb <= len * eb,
{
    assert((index + 1) * eb <= len * eb) by (nonlinear_arith)
        requires
            index + 1 <= len,
            eb >= 0,
    ;
}

// ===========================================================================
// PackedBitsVec: growable, bit-exact
// ===========================================================================

/// A growable buffer that packs values at exactly `I + F` bits each: the
/// `Vec`-like counterpart of [`PackedBits`]. The byte buffer grows on
/// demand to the minimum needed.
pub struct PackedBitsVec<T: BitPackable> {
    data: Vec<u8>,
    len: usize,
    marker: PhantomData<T>,
}

impl<T: BitPackable> View for PackedBitsVec<T> {
    type V = Seq<T>;

    /// The stored values, in order.
    closed spec fn view(&self) -> Seq<T> {
        Seq::new(self.len as nat, |i: int| stored_element::<T>(self.data@, i))
    }
}

impl<T: BitPackable> Clone for PackedBitsVec<T> {
    /// A copy holding the same values.
    fn clone(&self) -> (r: Self)
        ensures
            r@ == self@,
            r.wf() == self.wf(),
    {
        let mut data: Vec<u8> = Vec::new();
        let mut i: usize = 0;
        while i < self.data.len()
            invariant
                i <= self.data@.len(),
                data@ == self.data@.take(i as int),
            decreases self.data@.len() - i,
        {
            data.push(self.data[i]);
            i = i + 1;
            proof {
                assert(data@ =~= self.data@.take(i as int));
            }
        }
        proof {
            assert(self.data@.take(self.data@.len() as int) =~= self.data@);
        }
        Self { data, len: self.len, marker: PhantomData }
    }
}

/// Appending a zero byte leaves the stream value unchanged.
proof fn lemma_stream_value_push_zero(bytes: Seq<u8>)
    ensures
        stream_value(bytes.push(0u8)) == stream_value(bytes),
{
    let b = bytes.push(0u8);
    assert(b.drop_last() =~= bytes);
    assert(b.last() == 0u8);
    assert(stream_value(b) == stream_value(b.drop_last()) + (b.last() as nat) * pow2((8 * (b.len() - 1)) as nat));
}

/// Buffers with the same stream value hold the same elements.
proof fn lemma_same_stream<T: BitPackable>(b1: Seq<u8>, b2: Seq<u8>, i: int)
    requires
        stream_value(b1) == stream_value(b2),
    ensures
        stored_element::<T>(b1, i) == stored_element::<T>(b2, i),
{
    assert(Seq::new(T::lane_count(), |k: int| stored_lane::<T>(b1, i, k) as u64) =~= Seq::new(
        T::lane_count(),
        |k: int| stored_lane::<T>(b2, i, k) as u64,
    ));
}

impl<T: BitPackable> PackedBitsVec<T> {
    /// The buffer is usable: the element format is, and the stored elements
    /// fit the bytes and a `usize` count of bits.
    pub closed spec fn wf(self) -> bool {
        &&& T::packable()
        &&& self.len * element_bits::<T>() <= 8 * self.data@.len()
        &&& self.len * element_bits::<T>() <= usize::MAX
    }

    /// An empty buffer.
    pub fn new() -> (r: Self)
        requires
            T::packable(),
        ensures
            r.wf(),
            r@ == Seq::<T>::empty(),
    {
        let r = Self { data: Vec::new(), len: 0, marker: PhantomData };
        proof {
            assert(r@ =~= Seq::<T>::empty());
        }
        r
    }

    /// A buffer holding `values`, in order.
    pub fn from_values(values: &[T]) -> (r: Self)
        requires
            T::packable(),
            values@.len() * element_bits::<T>() + 7 <= usize::MAX,
        ensures
            r.wf(),
            r@ == values@,
    {
        let mut r = Self::new();
        r.extend_from_slice(values);
        proof {
            assert(r@ =~= values@);
        }
        r
    }

    /// The number of elements stored.
    pub fn len(&self) -> (r: usize)
        ensures
            r == self@.len(),
    {
        self.len
    }

    /// Whether no element is stored.
    pub fn is_empty(&self) -> (r: bool)
        ensures
            r == (self@.len() == 0),
    {
        self.len == 0
    }

    /// Appends `value`, growing the byte buffer to the bytes the elements
    /// need. The bit count of the grown buffer must fit a `usize`.
    pub fn push(&mut self, value: T)
        requires
            old(self).wf(),
            (old(self)@.len() + 1) * element_bits::<T>() + 7 <= usize::MAX,
        ensures
            final(self).wf(),
            final(self)@ == old(self)@.push(value),
            final(self)@ == apply_edit(old(self)@, Edit::Push(value)),
    {
        let eb = elem_bits::<T>();
        proof {
            let n = self.len as int + 1;
            assert(n <= n * eb) by (nonlinear_arith)
                requires
                    n >= 1,
                    eb >= 1,
            ;
        }
        let needed = ((self.len + 1) * eb + 7) / 8;
        while self.data.len() < needed
            invariant
                T::packable(),
                eb == element_bits::<T>(),
                needed == ((old(self).len + 1) * eb + 7) / 8,
                self.len == old(self).len,
                self.data@.len() >= old(self).data@.len(),
                stream_value(self.data@) == stream_value(old(self).data@),
            decreases needed - self.data@.len(),
        {
            proof {
                lemma_stream_value_push_zero(self.data@);
            }
            self.data.push(0u8);
        }
        proof {
            assert forall|i: int| #[trigger] stored_element::<T>(self.data@, i) == stored_element::<T>(
                old(self).data@,
                i,
            ) by {
                lemma_same_stream::<T>(self.data@, old(self).data@, i);
            }
        }
        write_element(self.data.as_mut_slice(), self.len, value);
        self.len = self.len + 1;
        proof {
            assert(self@ =~= old(self)@.push(value));
        }
    }

    /// Appends every value of `values`, in order.
    pub fn extend_from_slice(&mut self, values: &[T])
        requires
            old(self).wf(),
            (old(self)@.len() + values@.len()) * element_bits::<T>() + 7 <= usize::MAX,
        ensures
            final(self).wf(),
            final(self)@ == old(self)@ + values@,
    {
        let mut i: usize = 0;
        while i < values.len()
            invariant
                self.wf(),
                i <= values@.len(),
                (old(self)@.len() + values@.len()) * element_bits::<T>() + 7 <= usize::MAX,
                self@ == old(self)@ + values@.take(i as int),
            decreases values@.len() - i,
        {
            proof {
                let eb = element_bits::<T>() as int;
                let a = self@.len() + 1;
                let b = old(self)@.len() + values@.len();
                assert(a * eb <= b * eb) by (nonlinear_arith)
                    requires
                        a <= b,
                        eb >= 0,
                ;
            }
            self.push(values[i]);
            i = i + 1;
            proof {
                assert(self@ =~= old(self)@ + values@.take(i as int));
            }
        }
        proof {
            assert(values@.take(values@.len() as int) =~= values@);
        }
    }

    /// Removes and returns the last element, or `None` when empty.
    pub fn pop(&mut self) -> (r: Option<T>)
        requires
            old(self).wf(),
        ensures
            final(self).wf(),
            old(self)@.len() == 0 ==> r == None::<T> && final(self)@ == old(self)@,
            old(self)@.len() > 0 ==> r == Some(old(self)@.last()) && final(self)@ == old(self)@.drop_last(),
            final(self)@ == apply_edit(old(self)@, Edit::Pop),
    {
        if self.len == 0 {
            return None;
        }
        proof {
            lemma_element_bits::<T>();
            lemma_index_inside(self.len - 1, self.len as int, element_bits::<T>() as int);
            let eb = element_bits::<T>() as int;
            let n = self.len as int;
            assert((n - 1) * eb <= n * eb) by (nonlinear_arith)
                requires
                    eb >= 0,
                    n >= 1,
            ;
        }
        let value = read_element(self.data.as_slice(), self.len - 1);
        self.len = self.len - 1;
        proof {
            assert(self@ =~= old(self)@.drop_last());
        }
        Some(value)
    }

    /// The element at `index`, or `None` past the end.
    pub fn get(&self, index: usize) -> (r: Option<T>)
        requires
            self.wf(),
        ensures
            r == (if index < self@.len() { Some(self@[index as int]) } else { None::<T> }),
    {
        if index < self.len {
            proof {
                lemma_index_inside(index as int, self.len as int, element_bits::<T>() as int);
            }
            Some(read_element(self.data.as_slice(), index))
        } else {
            None
        }
    }

    /// Stores `value` at `index`, which must be in bounds; the other
    /// elements keep their values.
    pub fn set(&mut self, index: usize, value: T)
        requires
            old(self).wf(),
            index < old(self)@.len(),
        ensures
            final(self).wf(),
            final(self)@ == old(self)@.update(index as int, value),
            final(self)@ == apply_edit(old(self)@, Edit::Write(index, value)),
    {
        proof {
            lemma_index_inside(index as int, self.len as int, element_bits::<T>() as int);
        }
        write_element(self.data.as_mut_slice(), index, value);
        proof {
            assert(self@ =~= old(self)@.update(index as int, value));
        }
    }

    /// Removes every element and empties the byte buffer.
    pub fn clear(&mut self)
        requires
            old(self).wf(),
        ensures
            final(self).wf(),
            final(self)@ == Seq::<T>::empty(),
    {
        self.data.clear();
        self.len = 0;
        proof {
            assert(self@ =~= Seq::<T>::empty());
        }
    }

    /// The elements, in order.
    pub fn iter(&self) -> (r: Vec<T>)
        requires
            self.wf(),
        ensures
            r@ == self@,
    {
        let mut out: Vec<T> = Vec::new();
        let mut i: usize = 0;
        while i < self.len
            invariant
                self.wf(),
                i <= self.len,
                out@ == self@.take(i as int),
            decreases self.len - i,
        {
            proof {
                lemma_index_inside(i as int, self.len as int, element_bits::<T>() as int);
            }
            out.push(read_element(self.data.as_slice(), i));
            i = i + 1;
            proof {
                assert(out@ =~= self@.take(i as int));
            }
        }
        proof {
            assert(self@.take(self.len as int) =~= self@);
        }
        out
    }
}

} // verus!
