//! `bf16` — the brain-floating-point format that is the native compute dtype of a TPU.
//!
//! A `bf16` is the top 16 bits of an IEEE-754 `f32`: one sign bit, eight exponent
//! bits, and seven mantissa bits. It keeps the full `f32` dynamic range while
//! throwing away mantissa precision, which is exactly the trade a systolic matrix
//! unit wants.
//!
//! Everything here works on bit patterns: narrowing an `f32` (given by its bits)
//! rounds to nearest, ties to even, and keeps NaN a NaN; widening back is exact.
//! Arithmetic on the values themselves goes through `f32`.

use vstd::prelude::*;

verus! {

/// A bf16 value, stored as its 16 raw bits.
#[derive(Clone, Copy, Debug, PartialEq, Eq, Structural)]
pub struct Bf16(u16);

impl View for Bf16 {
    type V = u16;

    /// The raw bits.
    closed spec fn view(&self) -> u16 {
        self.0
    }
}

/// The `f32` with bit pattern `bits` is a NaN: all exponent bits set and a
/// non-zero mantissa.
pub open spec fn f32_bits_is_nan(bits: u32) -> bool {
    (bits & 0x7f80_0000u32) == 0x7f80_0000u32 && (bits & 0x007f_ffffu32) != 0
}

/// The top half of `bits`, rounded to nearest with ties to even on the dropped
/// low half (a carry out of the top half wraps to zero).
pub open spec fn round_to_bf16_bits(bits: u32) -> u16 {
    let hi = bits >> 16u32;
    let lo = bits & 0xffffu32;
    let up = lo > 0x8000u32 || (lo == 0x8000u32 && (hi & 1u32) == 1u32);
    if up {
        ((hi + 1) % 0x1_0000) as u16
    } else {
        hi as u16
    }
}

/// The bits of a bf16 narrowed from the `f32` with bit pattern `bits`: a NaN keeps
/// its top half with a quiet bit forced on, everything else rounds to nearest even.
pub open spec fn spec_from_f32_bits(bits: u32) -> u16 {
    if f32_bits_is_nan(bits) {
        ((bits >> 16u32) as u16) | 0x0040u16
    } else {
        round_to_bf16_bits(bits)
    }
}

/// The bit pattern of the `f32` that the bf16 `b` widens to: `b` in the top half,
/// zeros below.
pub open spec fn widen_bits(b: u16) -> u32 {
    ((b as int) * 0x1_0000) as u32
}

/// The bf16 bit pattern `b` is a NaN.
pub open spec fn bf16_bits_is_nan(b: u16) -> bool {
    (b & 0x7f80u16) == 0x7f80u16 && (b & 0x007fu16) != 0
}

impl Bf16 {
    /// Positive zero.
    pub fn zero() -> (r: Bf16)
        ensures
            r@ == 0x0000,
    {
        Bf16(0x0000)
    }

    /// One.
    pub fn one() -> (r: Bf16)
        ensures
            r@ == 0x3f80,
    {
        Bf16(0x3f80)
    }

    /// Minus one.
    pub fn neg_one() -> (r: Bf16)
        ensures
            r@ == 0xbf80,
    {
        Bf16(0xbf80)
    }

    /// Positive infinity.
    pub fn infinity() -> (r: Bf16)
        ensures
            r@ == 0x7f80,
    {
        Bf16(0x7f80)
    }

    /// Negative infinity.
    pub fn neg_infinity() -> (r: Bf16)
        ensures
            r@ == 0xff80,
    {
        Bf16(0xff80)
    }

    /// A quiet NaN.
    pub fn nan() -> (r: Bf16)
        ensures
            r@ == 0x7fc0,
    {
        Bf16(0x7fc0)
    }

    /// The largest finite value.
    pub fn max_value() -> (r: Bf16)
        ensures
            r@ == 0x7f7f,
    {
        Bf16(0x7f7f)
    }

    /// The most negative finite value.
    pub fn min_value() -> (r: Bf16)
        ensures
            r@ == 0xff7f,
    {
        Bf16(0xff7f)
    }

    /// The smallest positive normal value.
    pub fn min_positive() -> (r: Bf16)
        ensures
            r@ == 0x0080,
    {
        Bf16(0x0080)
    }

    /// Build from raw bits.
    pub fn from_bits(bits: u16) -> (r: Bf16)
        ensures
            r@ == bits,
    {
        Bf16(bits)
    }

    /// The raw bits.
    pub fn to_bits(self) -> (r: u16)
        ensures
            r == self@,
    {
        self.0
    }

    /// Narrow the `f32` whose bit pattern is `bits`, rounding to nearest with ties
    /// to even. A NaN stays a NaN: its payload is forced non-zero so that it
    /// survives losing the low half.
    pub fn from_f32_bits(bits: u32) -> (r: Bf16)
        ensures
            r@ == spec_from_f32_bits(bits),
            bf16_bits_is_nan(r@) <==> f32_bits_is_nan(bits),
    {
        if (bits & 0x7f80_0000u32) == 0x7f80_0000u32 && (bits & 0x007f_ffffu32) != 0 {
            let r = Bf16(((bits >> 16u32) as u16) | 0x0040u16);
            assert(bf16_bits_is_nan(((bits >> 16u32) as u16) | 0x0040u16)) by (bit_vector)
                requires
                    (bits & 0x7f80_0000u32) == 0x7f80_0000u32 && (bits & 0x007f_ffffu32) != 0,
            ;
            r
        } else {
            assert(bits + 0x7fffu32 + ((bits >> 16u32) & 1u32) <= 0xffff_ffffu32) by (bit_vector)
                requires
                    !((bits & 0x7f80_0000u32) == 0x7f80_0000u32 && (bits & 0x007f_ffffu32) != 0),
            ;
            let bias = 0x7fffu32 + ((bits >> 16u32) & 1u32);
            let rounded = bits + bias;
            let r = Bf16((rounded >> 16u32) as u16);
            assert((((bits + 0x7fffu32 + ((bits >> 16u32) & 1u32)) as u32) >> 16u32) as u16 == round_to_bf16_bits(bits))
                by (bit_vector)
                requires
                    bits + 0x7fffu32 + ((bits >> 16u32) & 1u32) <= 0xffff_ffffu32,
            ;
            assert(!bf16_bits_is_nan(round_to_bf16_bits(bits))) by (bit_vector)
                requires
                    !((bits & 0x7f80_0000u32) == 0x7f80_0000u32 && (bits & 0x007f_ffffu32) != 0),
            ;
            r
        }
    }

    /// The bit pattern of the `f32` this value widens to exactly: the bf16 bits in
    /// the top half, zeros below.
    pub fn to_f32_bits(self) -> (r: u32)
        ensures
            r == widen_bits(self@),
            r as int == (self@ as int) * 0x1_0000,
    {
        let b = self.0 as u32;
        assert(b << 16u32 == b * 0x1_0000u32) by (bit_vector)
            requires b <= 0xffffu32;
        b << 16u32
    }

    /// True if this value is NaN.
    pub fn is_nan(self) -> (r: bool)
        ensures
            r == bf16_bits_is_nan(self@),
    {
        (self.0 & 0x7f80u16) == 0x7f80u16 && (self.0 & 0x007fu16) != 0
    }

    /// True if this value is positive or negative infinity.
    pub fn is_infinite(self) -> (r: bool)
        ensures
            r == ((self@ & 0x7fffu16) == 0x7f80u16),
    {
        (self.0 & 0x7fffu16) == 0x7f80u16
    }

    /// True if this value is neither infinite nor NaN.
    pub fn is_finite(self) -> (r: bool)
        ensures
            r == ((self@ & 0x7f80u16) != 0x7f80u16),
    {
        (self.0 & 0x7f80u16) != 0x7f80u16
    }
}

/// The round-trip law: widening a bf16 to `f32` and narrowing it back gives the
/// same bits, except that a NaN comes back with its quiet bit set.
pub proof fn lemma_widen_narrow(b: u16)
    ensures
        spec_from_f32_bits(widen_bits(b)) == (if bf16_bits_is_nan(b) { b | 0x0040u16 } else { b }),
{
    let w = widen_bits(b);
    assert(w == (b as u32) << 16u32) by (bit_vector)
        requires w == ((b as int) * 0x1_0000) as u32;
    assert(f32_bits_is_nan(w) == bf16_bits_is_nan(b)) by (bit_vector)
        requires w == (b as u32) << 16u32;
    assert(((w >> 16u32) as u16) == b) by (bit_vector)
        requires w == (b as u32) << 16u32;
    assert(round_to_bf16_bits(w) == b) by (bit_vector)
        requires w == (b as u32) << 16u32;
}

} // verus!
