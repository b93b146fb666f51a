//! Floating-point values as the bits that encode them.
//!
//! Files hold floats as bit patterns, and every decision that the library takes on one (is it
//! positive, which of two is greater) can be read off the bits.

use vstd::arithmetic::power2::{
    lemma2_to64, lemma_pow2_adds, lemma_pow2_pos, lemma_pow2_strictly_increases, pow2,
};
use vstd::prelude::*;

verus! {

/// A 32-bit float, by its IEEE 754 encoding.
#[derive(Debug, Clone, Copy, PartialEq, Eq, Structural)]
pub struct F32 {
    pub bits: u32,
}

/// A 64-bit float, by its IEEE 754 encoding.
#[derive(Debug, Clone, Copy, PartialEq, Eq, Structural)]
pub struct F64 {
    pub bits: u64,
}

impl View for F32 {
    type V = F32;

    open spec fn view(&self) -> F32 {
        *self
    }
}

impl View for F64 {
    type V = F64;

    open spec fn view(&self) -> F64 {
        *self
    }
}

impl F32 {
    /// The float with the given encoding.
    pub fn from_bits(bits: u32) -> (res: F32)
        ensures
            res.bits == bits,
    {
        F32 { bits }
    }

    /// Whether the encoding stands for no number: all exponent bits set and a fraction.
    pub open spec fn nan(self) -> bool {
        (self.bits as int) % 0x8000_0000 > 0x7F80_0000
    }

    /// Where a number stands in the order of the floats. Both zeros stand at 0, and a greater
    /// number stands at a greater place.
    pub open spec fn place(self) -> int {
        if self.bits < 0x8000_0000u32 {
            self.bits as int
        } else {
            0x8000_0000 - self.bits
        }
    }

    /// `self > other` as floats compare: false where either is not a number.
    pub open spec fn above(self, other: F32) -> bool {
        !self.nan() && !other.nan() && self.place() > other.place()
    }

    /// Whether the encoding stands for no number.
    pub fn is_nan(self) -> (res: bool)
        ensures
            res == self.nan(),
    {
        self.bits % 0x8000_0000u32 > 0x7F80_0000u32
    }

    /// Whether this float is greater than another.
    pub fn is_above(self, other: F32) -> (res: bool)
        ensures
            res == self.above(other),
    {
        if self.is_nan() || other.is_nan() {
            return false;
        }
        let a: i64 = if self.bits < 0x8000_0000u32 {
            self.bits as i64
        } else {
            0x8000_0000i64 - self.bits as i64
        };
        let b: i64 = if other.bits < 0x8000_0000u32 {
            other.bits as i64
        } else {
            0x8000_0000i64 - other.bits as i64
        };
        a > b
    }

    /// Greater than zero, as floats compare.
    pub open spec fn above_zero(self) -> bool {
        self.above(F32 { bits: 0 })
    }

    /// Whether this float is greater than zero; infinity is, a zero or a non-number is not.
    pub fn is_positive(self) -> (res: bool)
        ensures
            res == self.above_zero(),
            res == (1 <= self.bits <= 0x7F80_0000u32),
    {
        self.is_above(F32 { bits: 0 })
    }
}

impl F64 {
    /// The float with the given encoding.
    pub fn from_bits(bits: u64) -> (res: F64)
        ensures
            res.bits == bits,
    {
        F64 { bits }
    }
}

/// What a finite float counts, in units of the smallest that there is, without its sign.
pub open spec fn units(m: int) -> int {
    let e = m / 0x80_0000;
    let f = m % 0x80_0000;
    if e == 0 {
        f
    } else {
        (0x80_0000 + f) * pow2((e - 1) as nat)
    }
}

impl F32 {
    /// The value of a finite float, in units of the smallest that there is.
    pub open spec fn value(self) -> int {
        if self.bits < 0x8000_0000u32 {
            units(self.bits as int)
        } else {
            -units(self.bits - 0x8000_0000)
        }
    }
}

proof fn lemma_units_grow(a: int, b: int)
    requires
        0 <= a < b < 0x7F80_0000,
    ensures
        0 <= units(a) < units(b),
{
    let (ea, fa) = (a / 0x80_0000, a % 0x80_0000);
    let (eb, fb) = (b / 0x80_0000, b % 0x80_0000);
    assert(a == 0x80_0000 * ea + fa && b == 0x80_0000 * eb + fb);
    lemma2_to64();
    if ea == eb {
        if ea > 0 {
            let p = pow2((ea - 1) as nat) as int;
            lemma_pow2_pos((ea - 1) as nat);
            assert(0 <= (0x80_0000 + fa) * p < (0x80_0000 + fb) * p) by (nonlinear_arith)
                requires
                    p > 0,
                    0 <= fa < fb,
            ;
        }
    } else {
        let q = pow2((eb - 1) as nat) as int;
        lemma_pow2_pos((eb - 1) as nat);
        assert((0x80_0000 + fb) * q >= 0x80_0000 * q) by (nonlinear_arith)
            requires
                q > 0,
                fb >= 0,
        ;
        if ea == 0 {
            assert(0x80_0000 * q >= 0x80_0000) by (nonlinear_arith)
                requires
                    q >= 1,
            ;
        } else {
            let p = pow2((ea - 1) as nat) as int;
            lemma_pow2_pos((ea - 1) as nat);
            lemma_pow2_adds((ea - 1) as nat, 1);
            assert(pow2(ea as nat) == 2 * p);
            if ea < eb - 1 {
                lemma_pow2_strictly_increases(ea as nat, (eb - 1) as nat);
            }
            assert(q >= 2 * p);
            assert(0 <= (0x80_0000 + fa) * p < 0x80_0000 * q) by (nonlinear_arith)
                requires
                    p > 0,
                    q >= 2 * p,
                    0 <= fa < 0x80_0000,
            ;
        }
    }
}

/// Finite floats compare as their values do.
pub proof fn law_floats_compare_by_value(a: F32, b: F32)
    requires
        a.bits as int % 0x8000_0000 < 0x7F80_0000,
        b.bits as int % 0x8000_0000 < 0x7F80_0000,
    ensures
        a.above(b) <==> a.value() > b.value(),
        a.above_zero() <==> a.value() > 0,
{
    let x = a.bits as int % 0x8000_0000;
    let y = b.bits as int % 0x8000_0000;
    assert(a.bits < 0x8000_0000u32 ==> x == a.bits);
    assert(a.bits >= 0x8000_0000u32 ==> x == a.bits - 0x8000_0000);
    assert(b.bits < 0x8000_0000u32 ==> y == b.bits);
    assert(b.bits >= 0x8000_0000u32 ==> y == b.bits - 0x8000_0000);
    if x < y {
        lemma_units_grow(x, y);
    } else if y < x {
        lemma_units_grow(y, x);
    }
    assert(units(0) == 0);
    if x > 0 {
        lemma_units_grow(0, x);
    }
    if y > 0 {
        lemma_units_grow(0, y);
    }
}

} // verus!
