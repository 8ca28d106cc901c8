//! Arithmetic operators for `CQ`: the widening sum, difference, negation,
//! complex and scalar products, componentwise shifts, and reductions.
//!
//! As for `Q`, the output format of a widening operation is a const
//! parameter pinned by the precondition: `CQ<I, F> + CQ<I, F>` is a
//! `CQ<I + 1, F>`, `CQ<I, F> * CQ<I, F>` a `CQ<2I + 1, 2F>`, and a product
//! with a real scalar a `CQ<2I, 2F>`.

use vstd::prelude::*;
use vstd::arithmetic::power2::{pow2, lemma2_to64_rest};
use vstd::std_specs::ops::{ShlSpecImpl, ShrSpecImpl};
use crate::spec::{fits_signed, signed_wrap, rescale};
use crate::bits::{lemma_pow2_halves, lemma_pow2_le, lemma_signed_wrap_fits, lemma_signed_wrap_wider,
    lemma_i128_as_i64, lemma_i128_shr, lemma_i128_shl_wraps, lemma_pow2_128, lemma_fits_signed_wider};
use crate::ops::{q_counts_sum, lemma_q_sum_fits, realign_exact};
use crate::error::FixedError;
use crate::q::Q;
use crate::cq::{CQ, cmul_re, cmul_im};

verus! {

impl<const I: u32, const F: u32> CQ<I, F> {
    /// `self + rhs` as a `CQ<I + 1, F>`: no overflow.
    pub fn add<const IO: u32>(self, rhs: Self) -> (r: CQ<IO, F>)
        requires
            Self::valid(),
            CQ::<IO, F>::valid(),
            IO == I + 1,
        ensures
            r@ == (self.re@ + rhs.re@, self.im@ + rhs.im@),
    {
        CQ { re: self.re.add::<IO>(rhs.re), im: self.im.add::<IO>(rhs.im) }
    }

    /// `self - rhs` as a `CQ<I + 1, F>`: no overflow.
    pub fn sub<const IO: u32>(self, rhs: Self) -> (r: CQ<IO, F>)
        requires
            Self::valid(),
            CQ::<IO, F>::valid(),
            IO == I + 1,
        ensures
            r@ == (self.re@ - rhs.re@, self.im@ - rhs.im@),
    {
        CQ { re: self.re.sub::<IO>(rhs.re), im: self.im.sub::<IO>(rhs.im) }
    }

    /// `-self` as a `CQ<I + 1, F>`: no overflow.
    pub fn neg<const IO: u32>(self) -> (r: CQ<IO, F>)
        requires
            Self::valid(),
            CQ::<IO, F>::valid(),
            IO == I + 1,
        ensures
            r@ == (-self.re@, -self.im@),
    {
        CQ { re: self.re.neg::<IO>(), im: self.im.neg::<IO>() }
    }

    /// The complex product `(ac - bd) + (ad + bc)i` as a `CQ<2I + 1, 2F>`:
    /// exact, one integer bit wider than a real product.
    pub fn mul<const IO: u32, const FO: u32>(self, rhs: Self) -> (r: CQ<IO, FO>)
        requires
            Self::valid(),
            CQ::<IO, FO>::valid(),
            IO == 2 * I + 1,
            FO == 2 * F,
        ensures
            r@ == (cmul_re(self@, rhs@), cmul_im(self@, rhs@)),
    {
        let a = self.re.raw() as i128;
        let b = self.im.raw() as i128;
        let c = rhs.re.raw() as i128;
        let d = rhs.im.raw() as i128;
        proof {
            let n = Self::width();
            lemma_pow2_halves(n);
            let h = pow2((n - 1) as nat) as int;
            vstd::arithmetic::power2::lemma_pow2_adds((n - 1) as nat, (n - 1) as nat);
            assert(((n - 1) as nat + (n - 1) as nat) as nat == (2 * n - 2) as nat);
            lemma_pow2_halves((2 * n - 1) as nat);
            lemma_pow2_halves(2 * n);
            lemma_pow2_halves(2 * n + 1);
            lemma_pow2_le((2 * n - 1) as nat, 62);
            lemma2_to64_rest();
            assert(-(2 * (h * h)) <= a * c - b * d <= 2 * (h * h) && -(2 * (h * h)) <= a * d + b * c <= 2
                * (h * h)) by (nonlinear_arith)
                requires
                    -h <= a < h,
                    -h <= b < h,
                    -h <= c < h,
                    -h <= d < h,
            ;
            crate::bits::lemma_product_fits_i128(a as i64, c as i64);
            crate::bits::lemma_product_fits_i128(b as i64, d as i64);
            crate::bits::lemma_product_fits_i128(a as i64, d as i64);
            crate::bits::lemma_product_fits_i128(b as i64, c as i64);
            assert(-(h * h) <= a * c <= h * h && -(h * h) <= b * d <= h * h && -(h * h) <= a * d <= h
                * h && -(h * h) <= b * c <= h * h) by (nonlinear_arith)
                requires
                    -h <= a < h,
                    -h <= b < h,
                    -h <= c < h,
                    -h <= d < h,
            ;
            lemma_signed_wrap_fits(a * c - b * d, CQ::<IO, FO>::width());
            lemma_signed_wrap_fits(a * d + b * c, CQ::<IO, FO>::width());
        }
        let re = a * c - b * d;
        let im = a * d + b * c;
        CQ { re: Q::<IO, FO>::from_raw(re as i64), im: Q::<IO, FO>::from_raw(im as i64) }
    }

    /// Product with a real scalar, `(a·s) + (b·s)i`, as a `CQ<2I, 2F>`: no
    /// extra integer bit is needed.
    pub fn mul_scalar<const IO: u32, const FO: u32>(self, rhs: Q<I, F>) -> (r: CQ<IO, FO>)
        requires
            Self::valid(),
            CQ::<IO, FO>::valid(),
            IO == 2 * I,
            FO == 2 * F,
        ensures
            r@ == (self.re@ * rhs@, self.im@ * rhs@),
    {
        CQ { re: self.re.mul::<IO, FO>(rhs), im: self.im.mul::<IO, FO>(rhs) }
    }

    /// Shifts both parts right in place, arithmetically.
    pub fn shr_assign(&mut self, shift: u32)
        requires
            Self::valid(),
            shift < 64,
        ensures
            final(self)@ == (old(self).re@ / (pow2(shift as nat) as int), old(self).im@ / (pow2(
                shift as nat,
            ) as int)),
    {
        *self = *self >> shift;
    }

    /// Shifts both parts left in place, keeping the low `I + F` bits of each.
    pub fn shl_assign(&mut self, shift: u32)
        requires
            Self::valid(),
            shift < 64,
        ensures
            final(self)@ == (signed_wrap(old(self).re@ * pow2(shift as nat), Self::width()),
                signed_wrap(old(self).im@ * pow2(shift as nat), Self::width())),
    {
        *self = *self << shift;
    }
}

impl<const I: u32, const F: u32> Q<I, F> {
    /// Product of this real scalar with a complex value, `(s·a) + (s·b)i`,
    /// as a `CQ<2I, 2F>`.
    pub fn mul_complex<const IO: u32, const FO: u32>(self, rhs: CQ<I, F>) -> (r: CQ<IO, FO>)
        requires
            Self::valid(),
            CQ::<IO, FO>::valid(),
            IO == 2 * I,
            FO == 2 * F,
        ensures
            r@ == (self@ * rhs.re@, self@ * rhs.im@),
    {
        CQ { re: self.mul::<IO, FO>(rhs.re), im: self.mul::<IO, FO>(rhs.im) }
    }
}

impl<const I: u32, const F: u32> core::ops::Shl<u32> for CQ<I, F> {
    type Output = Self;

    /// Shifts both parts left, keeping the low `I + F` bits of each.
    fn shl(self, shift: u32) -> (r: Self)
        ensures
            r@ == (signed_wrap(self.re@ * pow2(shift as nat), Self::width()), signed_wrap(
                self.im@ * pow2(shift as nat),
                Self::width(),
            )),
    {
        CQ { re: self.re << shift, im: self.im << shift }
    }
}

impl<const I: u32, const F: u32> ShlSpecImpl<u32> for CQ<I, F> {
    open spec fn obeys_shl_spec() -> bool {
        true
    }

    open spec fn shl_req(self, shift: u32) -> bool {
        Self::valid() && shift < 64
    }

    open spec fn shl_spec(self, shift: u32) -> Self {
        CQ {
            re: Q::<I, F>::of_count(signed_wrap(self.re@ * pow2(shift as nat), Self::width())),
            im: Q::<I, F>::of_count(signed_wrap(self.im@ * pow2(shift as nat), Self::width())),
        }
    }
}

impl<const I: u32, const F: u32> core::ops::Shr<u32> for CQ<I, F> {
    type Output = Self;

    /// Shifts both parts right arithmetically: each count divided by
    /// `2^shift`, rounding toward negative infinity.
    fn shr(self, shift: u32) -> (r: Self)
        ensures
            r@ == (self.re@ / (pow2(shift as nat) as int), self.im@ / (pow2(shift as nat) as int)),
    {
        CQ { re: self.re >> shift, im: self.im >> shift }
    }
}

impl<const I: u32, const F: u32> ShrSpecImpl<u32> for CQ<I, F> {
    open spec fn obeys_shr_spec() -> bool {
        true
    }

    open spec fn shr_req(self, shift: u32) -> bool {
        Self::valid() && shift < 64
    }

    open spec fn shr_spec(self, shift: u32) -> Self {
        CQ {
            re: Q::<I, F>::of_count(self.re@ / (pow2(shift as nat) as int)),
            im: Q::<I, F>::of_count(self.im@ / (pow2(shift as nat) as int)),
        }
    }
}

// ===========================================================================
// Reductions into a caller-chosen accumulator
// ===========================================================================

/// The real parts of `xs`.
pub open spec fn re_parts<const I: u32, const F: u32>(xs: Seq<CQ<I, F>>) -> Seq<Q<I, F>> {
    xs.map_values(|c: CQ<I, F>| c.re)
}

/// The imaginary parts of `xs`.
pub open spec fn im_parts<const I: u32, const F: u32>(xs: Seq<CQ<I, F>>) -> Seq<Q<I, F>> {
    xs.map_values(|c: CQ<I, F>| c.im)
}

/// The real and the imaginary counts of `xs`, each added up in 128 bits,
/// where no partial sum can overflow.
fn cq_accumulate<const I: u32, const F: u32>(xs: &[CQ<I, F>]) -> (acc: (i128, i128))
    requires
        CQ::<I, F>::valid(),
    ensures
        acc.0 == q_counts_sum(re_parts(xs@)),
        acc.1 == q_counts_sum(im_parts(xs@)),
        forall|j: int|
            0 <= j < xs@.len() ==> fits_signed(#[trigger] re_parts(xs@)[j]@, CQ::<I, F>::width()),
        forall|j: int|
            0 <= j < xs@.len() ==> fits_signed(#[trigger] im_parts(xs@)[j]@, CQ::<I, F>::width()),
{
    let mut re_acc: i128 = 0;
    let mut im_acc: i128 = 0;
    let mut i: usize = 0;
    while i < xs.len()
        invariant
            CQ::<I, F>::valid(),
            i <= xs.len(),
            re_acc == q_counts_sum(re_parts(xs@.take(i as int))),
            im_acc == q_counts_sum(im_parts(xs@.take(i as int))),
            -(i as int) * 0x8000_0000_0000_0000 <= re_acc <= (i as int) * 0x8000_0000_0000_0000,
            -(i as int) * 0x8000_0000_0000_0000 <= im_acc <= (i as int) * 0x8000_0000_0000_0000,
            forall|j: int|
                0 <= j < i ==> fits_signed(#[trigger] xs@[j].re@, CQ::<I, F>::width()) && fits_signed(
                    xs@[j].im@,
                    CQ::<I, F>::width(),
                ),
        decreases xs.len() - i,
    {
        let c = xs[i];
        let x = c.re.raw();
        let y = c.im.raw();
        proof {
            assert(xs@[i as int] == c);
            assert(fits_signed(c.re@, CQ::<I, F>::width()) && fits_signed(c.im@, CQ::<I, F>::width()));
            let t = xs@.take(i + 1);
            assert(re_parts(t).drop_last() =~= re_parts(xs@.take(i as int)));
            assert(im_parts(t).drop_last() =~= im_parts(xs@.take(i as int)));
            assert(re_parts(t).last() == c.re);
            assert(im_parts(t).last() == c.im);
            assert((i as int + 1) * 0x8000_0000_0000_0000 <= 0x8000_0000_0000_0000_0000_0000_0000_0000)
                by (nonlinear_arith)
                requires
                    i < 0x1_0000_0000_0000_0000,
            ;
        }
        re_acc = re_acc + x as i128;
        im_acc = im_acc + y as i128;
        proof {
            assert forall|j: int| 0 <= j < i + 1 implies fits_signed(#[trigger] xs@[j].re@, CQ::<I, F>::width())
                && fits_signed(xs@[j].im@, CQ::<I, F>::width()) by {
                if j == i {
                    assert(xs@[j] == c);
                }
            }
        }
        i = i + 1;
    }
    proof {
        assert(xs@.take(xs.len() as int) =~= xs@);
        assert forall|j: int| 0 <= j < xs@.len() implies fits_signed(
            #[trigger] re_parts(xs@)[j]@,
            CQ::<I, F>::width(),
        ) by {
            assert(re_parts(xs@)[j] == xs@[j].re);
            assert(fits_signed(xs@[j].re@, CQ::<I, F>::width()));
        }
        assert forall|j: int| 0 <= j < xs@.len() implies fits_signed(
            #[trigger] im_parts(xs@)[j]@,
            CQ::<I, F>::width(),
        ) by {
            assert(im_parts(xs@)[j] == xs@[j].im);
            assert(fits_signed(xs@[j].re@, CQ::<I, F>::width()));
        }
    }
    (re_acc, im_acc)
}

/// Moves the binary point of a 128-bit total by `shift` places, keeping the
/// low 128 bits of a left shift.
fn realign(acc: i128, shift: i32) -> (r: i128)
    requires
        -64 <= shift <= 64,
    ensures
        r as int == signed_wrap(rescale(acc as int, shift as int), 128),
{
    proof {
        lemma_pow2_128();
        lemma_pow2_halves(128);
    }
    if shift >= 0 {
        proof {
            lemma_i128_shl_wraps(acc, shift as u32);
        }
        acc << (shift as u32)
    } else {
        proof {
            lemma_i128_shr(acc, (-shift) as u32);
            lemma_signed_wrap_fits(acc as int / (pow2((-shift) as nat) as int), 128);
        }
        acc >> ((-shift) as u32)
    }
}

impl<const IO: u32, const FO: u32> CQ<IO, FO> {
    /// Sums `xs` componentwise into this accumulator type: partial sums in
    /// 128 bits, realigned from `F` to `FO` fractional bits by shifting, each
    /// total kept to `IO + FO` bits (it wraps when `IO` is too narrow). An
    /// empty slice yields zero. When `xs` holds at most `2^k` values and
    /// `IO >= I + k`, `FO >= F`, both totals are exact.
    pub fn sum<const I: u32, const F: u32>(xs: &[CQ<I, F>]) -> (r: Self)
        requires
            Self::valid(),
            CQ::<I, F>::valid(),
        ensures
            r.re@ == signed_wrap(rescale(q_counts_sum(re_parts(xs@)), FO - F), Self::width()),
            r.im@ == signed_wrap(rescale(q_counts_sum(im_parts(xs@)), FO - F), Self::width()),
            forall|k: nat| #![trigger pow2(k)]
                xs@.len() <= pow2(k) && IO >= I + k && FO >= F ==> r@ == (rescale(
                    q_counts_sum(re_parts(xs@)),
                    FO - F,
                ), rescale(q_counts_sum(im_parts(xs@)), FO - F)),
    {
        let (re_acc, im_acc) = cq_accumulate(xs);
        let shift: i32 = FO as i32 - F as i32;
        let re = realign(re_acc, shift);
        let im = realign(im_acc, shift);
        proof {
            let tr = rescale(q_counts_sum(re_parts(xs@)), FO - F);
            let ti = rescale(q_counts_sum(im_parts(xs@)), FO - F);
            lemma_i128_as_i64(re);
            lemma_i128_as_i64(im);
            lemma_signed_wrap_wider(tr, 64, 128);
            lemma_signed_wrap_wider(ti, 64, 128);
            lemma_signed_wrap_wider(tr, Self::width(), 64);
            lemma_signed_wrap_wider(ti, Self::width(), 64);
            assert forall|k: nat| #![trigger pow2(k)]
                xs@.len() <= pow2(k) && IO >= I + k && FO >= F implies signed_wrap(tr, Self::width())
                == tr && signed_wrap(ti, Self::width()) == ti by {
                lemma_q_sum_fits(re_parts(xs@), k, IO as nat, FO as nat);
                lemma_q_sum_fits(im_parts(xs@), k, IO as nat, FO as nat);
                lemma_signed_wrap_fits(tr, Self::width());
                lemma_signed_wrap_fits(ti, Self::width());
            }
        }
        CQ { re: Q::<IO, FO>::from_raw(re as i64), im: Q::<IO, FO>::from_raw(im as i64) }
    }

    /// Checked componentwise sum: accumulates like [`sum`](Self::sum), but
    /// returns `OutOfRange` instead of wrapping when either exact total,
    /// realigned to `FO` fractional bits, falls outside `[MIN, MAX]`. An
    /// empty slice yields `Ok(zero)`.
    pub fn try_sum<const I: u32, const F: u32>(xs: &[CQ<I, F>]) -> (r: Result<Self, FixedError>)
        requires
            Self::valid(),
            CQ::<I, F>::valid(),
        ensures
            r is Ok <==> fits_signed(rescale(q_counts_sum(re_parts(xs@)), FO - F), Self::width())
                && fits_signed(rescale(q_counts_sum(im_parts(xs@)), FO - F), Self::width()),
            r is Ok ==> r->Ok_0@ == (rescale(q_counts_sum(re_parts(xs@)), FO - F),
                rescale(q_counts_sum(im_parts(xs@)), FO - F)),
            r is Err ==> r->Err_0 == FixedError::OutOfRange,
    {
        let (re_acc, im_acc) = cq_accumulate(xs);
        let shift: i32 = FO as i32 - F as i32;
        let ghost tr = rescale(q_counts_sum(re_parts(xs@)), FO - F);
        let ghost ti = rescale(q_counts_sum(im_parts(xs@)), FO - F);
        proof {
            lemma_pow2_halves(Self::width());
            if fits_signed(tr, Self::width()) {
                lemma_fits_signed_wider(tr, Self::width(), 64);
            }
            if fits_signed(ti, Self::width()) {
                lemma_fits_signed_wider(ti, Self::width(), 64);
            }
        }
        let re = match realign_exact(re_acc, shift) {
            Some(v) => v,
            None => {
                return Err(FixedError::OutOfRange);
            },
        };
        let im = match realign_exact(im_acc, shift) {
            Some(v) => v,
            None => {
                return Err(FixedError::OutOfRange);
            },
        };
        let lo = Q::<IO, FO>::min_value().raw() as i128;
        let hi = Q::<IO, FO>::max_value().raw() as i128;
        if re < lo || re > hi || im < lo || im > hi {
            return Err(FixedError::OutOfRange);
        }
        proof {
            lemma_signed_wrap_fits(re as int, Self::width());
            lemma_signed_wrap_fits(im as int, Self::width());
        }
        Ok(CQ { re: Q::<IO, FO>::from_raw(re as i64), im: Q::<IO, FO>::from_raw(im as i64) })
    }
}

} // verus!
