//! Mathematical model of fixed-point words.
//!
//! A fixed-point value with `n` total bits is modelled by its *count*: the
//! integer number of least-significant-bit units it holds. Signed words hold
//! counts in `[-2^(n-1), 2^(n-1) - 1]`, unsigned words in `[0, 2^n - 1]`.
//! Every operation that can leave that range reduces its exact result modulo
//! `2^n` (RTL register wrap) or clamps it (saturation), as its contract says.

use vstd::prelude::*;
use vstd::arithmetic::power2::pow2;

verus! {

/// Smallest count of an `n`-bit signed word: `-2^(n-1)`.
pub open spec fn signed_lo(n: nat) -> int {
    -(pow2((n - 1) as nat) as int)
}

/// Largest count of an `n`-bit signed word: `2^(n-1) - 1`.
pub open spec fn signed_hi(n: nat) -> int {
    pow2((n - 1) as nat) - 1
}

/// Largest count of an `n`-bit unsigned word: `2^n - 1`.
pub open spec fn unsigned_hi(n: nat) -> int {
    pow2(n) - 1
}

/// Whether `x` is a count that an `n`-bit signed word can hold.
pub open spec fn fits_signed(x: int, n: nat) -> bool {
    signed_lo(n) <= x <= signed_hi(n)
}

/// Whether `x` is a count that an `n`-bit unsigned word can hold.
pub open spec fn fits_unsigned(x: int, n: nat) -> bool {
    0 <= x <= unsigned_hi(n)
}

/// The `n`-bit two's-complement reading of `x`: the unique count in
/// `[-2^(n-1), 2^(n-1) - 1]` congruent to `x` modulo `2^n`.
pub open spec fn signed_wrap(x: int, n: nat) -> int {
    let m = x % (pow2(n) as int);
    if m > signed_hi(n) {
        m - pow2(n)
    } else {
        m
    }
}

/// The `n`-bit unsigned reading of `x`: `x mod 2^n`.
pub open spec fn unsigned_wrap(x: int, n: nat) -> int {
    x % (pow2(n) as int)
}

/// `x` moved by `shift` binary places: multiplied by `2^shift` when `shift`
/// is non-negative, otherwise divided by `2^-shift` rounding toward negative
/// infinity (an arithmetic right shift).
pub open spec fn rescale(x: int, shift: int) -> int {
    if shift >= 0 {
        x * pow2(shift as nat)
    } else {
        x / (pow2((-shift) as nat) as int)
    }
}

/// Like [`rescale`], but a right shift drops the low bits of the magnitude,
/// rounding toward zero.
pub open spec fn rescale_toward_zero(x: int, shift: int) -> int {
    if shift >= 0 || x >= 0 {
        rescale(x, shift)
    } else {
        -rescale(-x, shift)
    }
}

/// Whether moving `x` right by `-shift` places loses no set bit, i.e. the
/// rescaled count still denotes exactly the same value.
pub open spec fn rescale_exact(x: int, shift: int) -> bool {
    shift >= 0 || x % (pow2((-shift) as nat) as int) == 0
}

/// `x` clamped to `[lo, hi]`.
pub open spec fn clamp(x: int, lo: int, hi: int) -> int {
    if x < lo {
        lo
    } else if x > hi {
        hi
    } else {
        x
    }
}

/// Integer division rounding toward zero, as Rust's `/` does: the quotient
/// of the magnitudes, negative when exactly one operand is negative.
pub open spec fn trunc_div(a: int, b: int) -> int {
    let m = (if a < 0 { -a } else { a }) / (if b < 0 { -b } else { b });
    if (a < 0) != (b < 0) {
        -m
    } else {
        m
    }
}

} // verus!
