//! Properties that relate several operations of the library.

use vstd::prelude::*;
use vstd::arithmetic::power2::{pow2, lemma_pow2_pos};
use vstd::arithmetic::div_mod::{lemma_sub_mod_noop, lemma_mod_multiples_basic,
    lemma_div_multiples_vanish};
use crate::spec::{fits_signed, signed_wrap, unsigned_wrap, rescale, rescale_exact, trunc_div};
use crate::ops::{q_counts_sum, uq_counts_sum};
use crate::cq_ops::{re_parts, im_parts};
use crate::convert::signed_narrow_error;
use crate::error::FixedError;
use crate::q::Q;
use crate::uq::UQ;
use crate::cq::CQ;
use crate::packed::element_bits;
use crate::packed::{Packable, BitPackable, Repr, PackedArray, PackedBits};
use crate::bits::{lemma_signed_wrap, lemma_signed_wrap_fits, lemma_signed_wrap_congruent,
    lemma_unsigned_of_signed, lemma_fits_signed_scaled, lemma_fits_signed_wider};

verus! {

/// Wrapping subtraction undoes wrapping addition: in `n`-bit register
/// arithmetic, `(a + b) - b` gives back `a` for every `b`.
pub proof fn law_wrapping_sub_undoes_add(a: int, b: int, n: nat)
    requires
        n >= 1,
        fits_signed(a, n),
    ensures
        signed_wrap(signed_wrap(a + b, n) - b, n) == a,
{
    let p = pow2(n) as int;
    lemma_pow2_pos(n);
    let w = signed_wrap(a + b, n);
    lemma_signed_wrap(a + b, n);
    lemma_sub_mod_noop(w, b, p);
    lemma_sub_mod_noop(a + b, b, p);
    lemma_signed_wrap_congruent(w - b, a, n);
    lemma_signed_wrap_fits(a, n);
}

/// Reading back a raw bit pattern undoes taking it: sign-extending the low
/// `n` bits of an `n`-bit signed count gives the count back, so
/// `from_bits(x.to_bits()) == x`.
pub proof fn law_bits_roundtrip(x: int, n: nat)
    requires
        n >= 1,
        fits_signed(x, n),
    ensures
        signed_wrap(unsigned_wrap(x, n), n) == x,
{
    lemma_unsigned_of_signed(x, n);
    lemma_signed_wrap_fits(x, n);
}

/// Value-preserving narrowing undoes lossless widening: a count widened by
/// `s` fractional bits into a word of `m >= n + s` bits fits that word, and
/// narrowing it back by `s` bits is exact and gives the count back.
pub proof fn law_narrow_undoes_widen(x: int, n: nat, s: nat, m: nat)
    requires
        n >= 1,
        n + s <= m,
        fits_signed(x, n),
    ensures
        fits_signed(x * pow2(s), m),
        rescale_exact(x * pow2(s), -(s as int)),
        rescale(x * pow2(s), -(s as int)) == x,
{
    lemma_fits_signed_scaled(x, n, s);
    lemma_fits_signed_wider(x * pow2(s), n + s, m);
    lemma_pow2_pos(s);
    if s > 0 {
        lemma_mod_multiples_basic(x, pow2(s) as int);
        lemma_div_multiples_vanish(x, pow2(s) as int);
        assert(x * pow2(s) == pow2(s) * x) by (nonlinear_arith);
    } else {
        vstd::arithmetic::power2::lemma2_to64();
        assert(x * pow2(s) == x) by (nonlinear_arith)
            requires
                pow2(s) == 1,
        ;
    }
}

/// One edit of a packed container's element sequence, as `push`,
/// `try_push` (when it succeeds), `pop` and `set` apply it.
pub enum Edit<T> {
    /// Append a value.
    Push(T),
    /// Remove the last value, if there is one.
    Pop,
    /// Overwrite the value at an index, if the index is held.
    Write(usize, T),
}

/// The element sequence after one edit.
pub open spec fn apply_edit<T>(s: Seq<T>, e: Edit<T>) -> Seq<T> {
    match e {
        Edit::Push(v) => s.push(v),
        Edit::Pop => if s.len() > 0 {
            s.drop_last()
        } else {
            s
        },
        Edit::Write(i, v) => if i < s.len() {
            s.update(i as int, v)
        } else {
            s
        },
    }
}

/// The element sequence after the edits `es`, applied in order to `s`.
pub open spec fn apply_edits<T>(s: Seq<T>, es: Seq<Edit<T>>) -> Seq<T>
    decreases es.len(),
{
    if es.len() == 0 {
        s
    } else {
        apply_edit(apply_edits(s, es.drop_last()), es.last())
    }
}

/// The value that the edits `es` last wrote at index `i` and that is still
/// held there, or the starting value at `i` when no such write happened.
pub open spec fn last_written<T>(s: Seq<T>, es: Seq<Edit<T>>, i: int) -> T
    decreases es.len(),
{
    if es.len() == 0 {
        s[i]
    } else {
        let prev = es.drop_last();
        let n = apply_edits(s, prev).len();
        match es.last() {
            Edit::Push(v) => if i == n {
                v
            } else {
                last_written(s, prev, i)
            },
            Edit::Pop => last_written(s, prev, i),
            Edit::Write(j, v) => if j == i && i < n {
                v
            } else {
                last_written(s, prev, i)
            },
        }
    }
}

/// Packing loses nothing across edits: after any run of pushes, pops and
/// sets, the element a packed container holds at each index is the value
/// last pushed or set there (or, for a `PackedArray` from `new`, the
/// starting zero), so `get(i)` gives back exactly that value.
pub proof fn law_read_gives_last_write<T>(s: Seq<T>, es: Seq<Edit<T>>, i: int)
    requires
        0 <= i < apply_edits(s, es).len(),
    ensures
        apply_edits(s, es)[i] == last_written(s, es, i),
    decreases es.len(),
{
    if es.len() > 0 {
        let prev = es.drop_last();
        let before = apply_edits(s, prev);
        match es.last() {
            Edit::Push(v) => {
                if i != before.len() {
                    law_read_gives_last_write(s, prev, i);
                }
            },
            Edit::Pop => {
                law_read_gives_last_write(s, prev, i);
            },
            Edit::Write(j, v) => {
                if !(j == i && i < before.len()) {
                    law_read_gives_last_write(s, prev, i);
                }
            },
        }
    }
}

/// Edits that only overwrite keep a fixed-size container's length: a `PackedArray`
/// stays `N` long whatever is written into it.
pub proof fn law_sets_keep_length<T>(s: Seq<T>, es: Seq<Edit<T>>)
    requires
        forall|k: int| 0 <= k < es.len() ==> (#[trigger] es[k]) is Write,
    ensures
        apply_edits(s, es).len() == s.len(),
    decreases es.len(),
{
    if es.len() > 0 {
        let prev = es.drop_last();
        assert forall|k: int| 0 <= k < prev.len() implies (#[trigger] prev[k]) is Write by {
            assert(prev[k] == es[k]);
        }
        law_sets_keep_length(s, prev);
    }
}

/// Adding an edit to a history applies it after the earlier ones, so a
/// history can be grown one container call at a time.
pub proof fn lemma_apply_edits_push<T>(s: Seq<T>, es: Seq<Edit<T>>, e: Edit<T>)
    ensures
        apply_edits(s, es.push(e)) == apply_edit(apply_edits(s, es), e),
{
    assert(es.push(e).drop_last() =~= es);
}

/// A `PackedArray` read gives back the last write: when the array holds
/// `start` (what `new` gives: `N` zeros) after the `set` calls recorded in
/// `es`, it keeps `N` elements and element `i` is the value last set at `i`,
/// or the zero `start[i]` when `i` was never set. `get(i)` returns `Some`
/// of that element.
pub proof fn law_packed_array_reads_last_write<T: Packable<B>, B: Repr, const N: usize>(
    arr: PackedArray<T, B, N>,
    start: Seq<T>,
    es: Seq<Edit<T>>,
    i: int,
)
    requires
        start.len() == N,
        forall|k: int| 0 <= k < N ==> (#[trigger] start[k]).is_zero(),
        forall|k: int| 0 <= k < es.len() ==> (#[trigger] es[k]) is Write,
        arr@ == apply_edits(start, es),
        0 <= i < N,
    ensures
        arr@.len() == N,
        arr@[i] == last_written(start, es, i),
{
    law_sets_keep_length(start, es);
    law_read_gives_last_write(start, es, i);
}

/// A `PackedBits` read gives back the last write: when the buffer holds
/// what `new` (empty) followed by the `push`, successful `try_push`, `pop`
/// and `set` calls recorded in `es` leave, element `i` of it is the value
/// last pushed or set at `i`, across byte boundaries. `get(i)` returns
/// `Some` of that element.
pub proof fn law_packed_bits_reads_last_write<T: BitPackable, const BYTES: usize>(
    b: PackedBits<T, BYTES>,
    es: Seq<Edit<T>>,
    i: int,
)
    requires
        b@ == apply_edits(Seq::<T>::empty(), es),
        0 <= i < b@.len(),
    ensures
        b@[i] == last_written(Seq::<T>::empty(), es, i),
{
    law_read_gives_last_write(Seq::<T>::empty(), es, i);
}

// ---------------------------------------------------------------------------
// Division toward zero
// ---------------------------------------------------------------------------

/// Division rounding toward zero is the division of the machine: for a
/// nonzero divisor the quotient `q` leaves a remainder `a - q * b` that is
/// smaller than the divisor in magnitude and has the dividend's sign (or is
/// zero). So negating either operand negates the quotient.
pub proof fn law_trunc_div_remainder(a: int, b: int)
    requires
        b != 0,
    ensures
        ({
            let r = a - trunc_div(a, b) * b;
            &&& (if r < 0 { -r } else { r }) < (if b < 0 { -b } else { b })
            &&& r > 0 ==> a > 0
            &&& r < 0 ==> a < 0
        }),
        trunc_div(a, -b) == -trunc_div(a, b),
        trunc_div(-a, b) == -trunc_div(a, b),
{
    let aa = if a < 0 { -a } else { a };
    let bb = if b < 0 { -b } else { b };
    let m = aa / bb;
    let rr = aa % bb;
    vstd::arithmetic::div_mod::lemma_fundamental_div_mod(aa, bb);
    vstd::arithmetic::div_mod::lemma_mod_pos_bound(aa, bb);
    let q = trunc_div(a, b);
    assert(q == (if (a < 0) != (b < 0) { -m } else { m }));
    assert(q * b == (if a < 0 { -(m * bb) } else { m * bb })) by (nonlinear_arith)
        requires
            q == (if (a < 0) != (b < 0) { -m } else { m }),
            bb == (if b < 0 { -b } else { b }),
    ;
    assert(bb * m == m * bb) by (nonlinear_arith);
    assert(a - q * b == (if a < 0 { -rr } else { rr }));
    assert(trunc_div(a, -b) == -q);
    let na = -a;
    assert((if na < 0 { -na } else { na }) == aa);
    assert(trunc_div(-a, b) == -q);
}

// ---------------------------------------------------------------------------
// Sums of counts
// ---------------------------------------------------------------------------

/// The total of a run of signed values is the plain sum of their counts:
/// one value totals its count, and the total of two runs one after the
/// other is the sum of their totals, whatever their lengths.
pub proof fn law_q_counts_sum_adds<const I: u32, const F: u32>(xs: Seq<Q<I, F>>, ys: Seq<Q<I, F>>, x: Q<I, F>)
    ensures
        q_counts_sum(seq![x]) == x@,
        q_counts_sum(xs + ys) == q_counts_sum(xs) + q_counts_sum(ys),
        q_counts_sum(xs.push(x)) == q_counts_sum(xs) + x@,
    decreases ys.len(),
{
    assert(seq![x].drop_last() =~= Seq::<Q<I, F>>::empty());
    assert(q_counts_sum(Seq::<Q<I, F>>::empty()) == 0);
    assert(seq![x].last() == x);
    assert(xs.push(x).drop_last() =~= xs);
    if ys.len() == 0 {
        assert(xs + ys =~= xs);
    } else {
        law_q_counts_sum_adds(xs, ys.drop_last(), x);
        assert((xs + ys).drop_last() =~= xs + ys.drop_last());
        assert((xs + ys).last() == ys.last());
    }
}

/// The total of a run of unsigned values is the plain sum of their counts,
/// as for signed values.
pub proof fn law_uq_counts_sum_adds<const I: u32, const F: u32>(xs: Seq<UQ<I, F>>, ys: Seq<UQ<I, F>>, x: UQ<I, F>)
    ensures
        uq_counts_sum(seq![x]) == x@,
        uq_counts_sum(xs + ys) == uq_counts_sum(xs) + uq_counts_sum(ys),
        uq_counts_sum(xs.push(x)) == uq_counts_sum(xs) + x@,
    decreases ys.len(),
{
    assert(seq![x].drop_last() =~= Seq::<UQ<I, F>>::empty());
    assert(uq_counts_sum(Seq::<UQ<I, F>>::empty()) == 0);
    assert(seq![x].last() == x);
    assert(xs.push(x).drop_last() =~= xs);
    if ys.len() == 0 {
        assert(xs + ys =~= xs);
    } else {
        law_uq_counts_sum_adds(xs, ys.drop_last(), x);
        assert((xs + ys).drop_last() =~= xs + ys.drop_last());
        assert((xs + ys).last() == ys.last());
    }
}

/// A complex sum adds every element's parts: the real and imaginary parts
/// of a run keep its length and order, and those of two runs one after the
/// other are the parts of the first followed by those of the second.
pub proof fn law_parts_of_runs<const I: u32, const F: u32>(xs: Seq<CQ<I, F>>, ys: Seq<CQ<I, F>>)
    ensures
        re_parts(xs).len() == xs.len(),
        im_parts(xs).len() == xs.len(),
        forall|k: int| 0 <= k < xs.len() ==> #[trigger] re_parts(xs)[k] == xs[k].re,
        forall|k: int| 0 <= k < xs.len() ==> #[trigger] im_parts(xs)[k] == xs[k].im,
        re_parts(xs + ys) == re_parts(xs) + re_parts(ys),
        im_parts(xs + ys) == im_parts(xs) + im_parts(ys),
{
    assert(re_parts(xs + ys) =~= re_parts(xs) + re_parts(ys));
    assert(im_parts(xs + ys) =~= im_parts(xs) + im_parts(ys));
}

// ---------------------------------------------------------------------------
// Realigning the binary point
// ---------------------------------------------------------------------------

/// Moving the binary point is multiplying or dividing by a power of two:
/// left by `s` places multiplies the count by `2^s`; right by `s` places
/// floors the quotient by `2^s`, and is exact precisely when the `s`
/// dropped bits are all zero, that is when the count is a multiple of `2^s`.
pub proof fn law_rescale_moves_the_point(x: int, y: int, s: nat)
    ensures
        rescale(x, s as int) == x * pow2(s),
        rescale_exact(x, s as int),
        rescale(x, -(s as int)) * pow2(s) <= x < (rescale(x, -(s as int)) + 1) * pow2(s),
        rescale_exact(x, -(s as int)) <==> x % (pow2(s) as int) == 0,
        rescale(y * pow2(s), -(s as int)) == y,
        rescale_exact(y * pow2(s), -(s as int)),
{
    lemma_pow2_pos(s);
    let p = pow2(s) as int;
    if s > 0 {
        vstd::arithmetic::div_mod::lemma_fundamental_div_mod(x, p);
        vstd::arithmetic::div_mod::lemma_mod_pos_bound(x - (x / p) * p, p);
        vstd::arithmetic::div_mod::lemma_mod_bound(x, p);
        assert(rescale(x, -(s as int)) == x / p);
        assert((x / p) * p <= x < (x / p + 1) * p) by (nonlinear_arith)
            requires
                x == p * (x / p) + x % p,
                0 <= x % p < p,
        ;
        lemma_mod_multiples_basic(y, p);
        lemma_div_multiples_vanish(y, p);
        assert(y * p == p * y) by (nonlinear_arith);
    } else {
        vstd::arithmetic::power2::lemma2_to64();
        assert(x * pow2(s) == x) by (nonlinear_arith)
            requires
                pow2(s) == 1,
        ;
        assert(y * pow2(s) == y) by (nonlinear_arith)
            requires
                pow2(s) == 1,
        ;
        assert(x / 1 == x);
        assert(x % 1 == 0);
    }
}

/// Value-preserving narrowing fails with `Inexact` exactly when a set bit
/// would be dropped: moving a count `x` right by `s` places errs `Inexact`
/// precisely when `x` is not a multiple of `2^s`. A count that is such a
/// multiple, `y * 2^s`, narrows to `y` whenever `y` fits the `n`-bit word
/// and errs `OutOfRange` otherwise; moving left only fails on range.
pub proof fn law_narrow_error_drops_only_zero_bits(x: int, y: int, s: nat, n: nat)
    ensures
        signed_narrow_error(x, -(s as int), n) == Some(FixedError::Inexact) <==> x % (pow2(s) as int)
            != 0,
        signed_narrow_error(y * pow2(s), -(s as int), n) == (if fits_signed(y, n) {
            None::<FixedError>
        } else {
            Some(FixedError::OutOfRange)
        }),
        signed_narrow_error(x, s as int, n) == (if fits_signed(x * pow2(s), n) {
            None::<FixedError>
        } else {
            Some(FixedError::OutOfRange)
        }),
{
    law_rescale_moves_the_point(x, y, s);
}

// ---------------------------------------------------------------------------
// Bit-packed capacity
// ---------------------------------------------------------------------------

/// A bit-packed buffer holds as many elements as its byte budget has room
/// for, and no fewer: `capacity` elements of `element_bits` bits fit in
/// `BYTES * 8` bits, and one more would not.
pub proof fn law_capacity_fills_budget<T: BitPackable, const BYTES: usize>()
    requires
        element_bits::<T>() > 0,
    ensures
        PackedBits::<T, BYTES>::spec_capacity() * element_bits::<T>() <= BYTES * 8,
        BYTES * 8 < (PackedBits::<T, BYTES>::spec_capacity() + 1) * element_bits::<T>(),
{
    let b = (BYTES * 8) as int;
    let e = element_bits::<T>() as int;
    vstd::arithmetic::div_mod::lemma_fundamental_div_mod(b, e);
    vstd::arithmetic::div_mod::lemma_mod_pos_bound(b, e);
    let c = PackedBits::<T, BYTES>::spec_capacity() as int;
    assert(c == b / e);
    assert(c * e <= b < (c + 1) * e) by (nonlinear_arith)
        requires
            b == e * (b / e) + b % e,
            0 <= b % e < e,
            c == b / e,
    ;
}

/// An element takes its format's bits: `I + F` for `Q` and `UQ`, twice that
/// for `CQ`, one lane per part.
pub proof fn law_element_bits<const I: u32, const F: u32>()
    ensures
        element_bits::<Q<I, F>>() == I + F,
        element_bits::<UQ<I, F>>() == I + F,
        element_bits::<CQ<I, F>>() == 2 * (I + F),
{
    assert(<Q<I, F> as BitPackable>::lane_width() == I + F);
    assert(<Q<I, F> as BitPackable>::lane_count() == 1);
    assert(<CQ<I, F> as BitPackable>::lane_count() == 2);
}

} // verus!
