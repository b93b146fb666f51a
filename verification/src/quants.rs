//! Packed weights: what the bytes of a block say, element by element, and the integer part of
//! multiplying them.
//!
//! A block stands for 256 weights. The products with 8-bit activations are summed in eight
//! integer lanes, exactly; only the scales are floats, and those are handed on by their bits.

use vstd::arithmetic::power2::{lemma2_to64, lemma_pow2_adds, pow2};
use vstd::prelude::*;

use crate::ieee::F32;

verus! {

/// The weights of one block.
pub const QK_K: usize = 256;

/// The bytes of a block of 4-bit weights: two scales, 12 bytes of group scales, 128 of weights.
pub const BLOCK_Q4_K_BYTES: usize = 144;

/// The bytes of a block of 6-bit weights: low bits, high bits, group scales, and the scale.
pub const BLOCK_Q6_K_BYTES: usize = 210;

// ---- Half floats ----------------------------------------------------------------------------

/// A fraction below 1024 doubled until it is not, with the exponent lowered each time.
pub open spec fn normalized(m: int, e: int) -> (int, int)
    decreases 2048 - m,
{
    if 0 < m < 1024 {
        normalized(2 * m, e - 1)
    } else {
        (m, e)
    }
}

/// The encoding of the 32-bit float with the value of a 16-bit one. A non-number becomes the
/// quiet one with no payload.
pub open spec fn widened(h: u16) -> int {
    let sign = (h / 0x8000) * 0x8000_0000int;
    let exp = (h / 0x400) % 0x20;
    let frac = h % 0x400;
    if exp == 0 && frac == 0 {
        sign
    } else if exp == 0 {
        let (m, e) = normalized(frac as int, 113);
        sign + e * 0x80_0000 + (m - 1024) * 0x2000
    } else if exp == 0x1F && frac == 0 {
        sign + 0x7F80_0000
    } else if exp == 0x1F {
        sign + 0x7FC0_0000
    } else {
        sign + (exp + 112) * 0x80_0000 + frac * 0x2000
    }
}

proof fn lemma_normalized_range(m: int, e: int)
    requires
        0 < m < 1024,
    ensures
        1024 <= normalized(m, e).0 < 2048,
        e - 10 <= normalized(m, e).1 < e,
{
    reveal_with_fuel(normalized, 12);
}

/// The 32-bit float with the value of a 16-bit one.
pub fn f16_to_f32(h: u16) -> (res: F32)
    ensures
        res.bits == widened(h),
{
    let sign: u32 = (h / 0x8000) as u32 * 0x8000_0000;
    let exp: u32 = ((h / 0x400) % 0x20) as u32;
    let frac: u32 = (h % 0x400) as u32;
    if exp == 0 {
        if frac == 0 {
            return F32 { bits: sign };
        }
        proof {
            lemma_normalized_range(frac as int, 113);
        }
        let mut e: u32 = 113;
        let mut m: u32 = frac;
        while m < 1024
            invariant
                0 < m < 2048,
                m < 1024 ==> e > 103,
                103 <= e <= 113,
                normalized(frac as int, 113) == normalized(m as int, e as int),
                103 <= normalized(frac as int, 113).1 <= 113,
                m < 1024 ==> normalized(m as int, e as int).1 < e,
            decreases 2048 - m,
        {
            m = m * 2;
            e = e - 1;
            proof {
                if m < 1024 {
                    lemma_normalized_range(m as int, e as int);
                }
            }
        }
        F32 { bits: sign + e * 0x80_0000 + (m - 1024) * 0x2000 }
    } else if exp == 0x1F {
        if frac == 0 {
            F32 { bits: sign + 0x7F80_0000 }
        } else {
            F32 { bits: sign + 0x7FC0_0000 }
        }
    } else {
        F32 { bits: sign + (exp + 112) * 0x80_0000 + frac * 0x2000 }
    }
}

/// What a finite 16-bit float counts in units of 2 to the power -24, without its sign.
pub open spec fn units16(h: u16) -> int {
    let exp = (h / 0x400) % 0x20;
    let frac = h % 0x400;
    if exp == 0 {
        frac as int
    } else {
        (0x400 + frac) * pow2((exp - 1) as nat)
    }
}

/// Widening a finite 16-bit float keeps its sign and its exact value: the fraction of the result,
/// with its leading one, times the power of its exponent is the same number of units.
pub proof fn law_widening_exact(h: u16)
    requires
        (h / 0x400) % 0x20 != 0x1F,
        h % 0x8000 != 0,
    ensures
        ({
            let bits = widened(h);
            let e = (bits / 0x80_0000) % 0x100;
            let m = 0x80_0000 + bits % 0x80_0000;
            &&& bits / 0x8000_0000 == h / 0x8000
            &&& 103 <= e <= 142
            &&& m * pow2((e - 103) as nat) == units16(h) * pow2(23)
        }),
{
    let sign = (h / 0x8000) as int;
    let exp = ((h / 0x400) % 0x20) as int;
    let frac = (h % 0x400) as int;
    let bits = widened(h);
    let e = (bits / 0x80_0000) % 0x100;
    let m = 0x80_0000 + bits % 0x80_0000;
    lemma2_to64();
    if exp == 0 {
        lemma_normalized_range(frac, 113);
        let (n, x) = normalized(frac, 113);
        assert(e == x);
        assert(m == n * 0x2000);
        lemma_normalized_value(frac, 113);
        let k = (113 - x) as nat;
        assert(n == frac * pow2(k));
        lemma_pow2_adds(k, (x - 103) as nat);
        let a = pow2(k) as int;
        let b = pow2((x - 103) as nat) as int;
        assert(a * b == pow2(10));
        assert(((frac * a) * 0x2000) * b == frac * (a * b) * 0x2000) by (nonlinear_arith);
        assert(frac * 0x400 * 0x2000 == frac * 0x80_0000);
    } else {
        assert(e == exp + 112);
        assert(m == (0x400 + frac) * 0x2000);
        lemma_pow2_adds((exp - 1) as nat, 10);
        let p = pow2((exp - 1) as nat) as int;
        assert(pow2((exp + 9) as nat) == p * 0x400);
        assert(((0x400 + frac) * 0x2000) * (p * 0x400) == ((0x400 + frac) * p) * 0x80_0000)
            by (nonlinear_arith);
    }
}

proof fn lemma_normalized_value(m: int, e: int)
    requires
        0 < m < 2048,
    ensures
        normalized(m, e).1 <= e,
        normalized(m, e).0 == m * pow2((e - normalized(m, e).1) as nat),
    decreases 2048 - m,
{
    lemma2_to64();
    if m < 1024 {
        lemma_normalized_value(2 * m, e - 1);
        let k = (e - 1 - normalized(2 * m, e - 1).1) as nat;
        lemma_pow2_adds(1, k);
        let p = pow2(k) as int;
        assert(m * (2 * p) == (2 * m) * p) by (nonlinear_arith);
    } else {
        assert(m * 1 == m);
    }
}

/// The 16-bit number at the front of two bytes, least significant first.
pub open spec fn half_at(bytes: Seq<u8>) -> int {
    bytes[0] + 0x100 * bytes[1]
}

/// The 16-bit number at the front of a slice.
pub fn f16_at(bytes: &[u8]) -> (res: u16)
    requires
        bytes@.len() >= 2,
    ensures
        res == half_at(bytes@),
{
    bytes[0] as u16 + bytes[1] as u16 * 0x100
}

// ---- Blocks of 4-bit weights ----------------------------------------------------------------

/// The scale of group `g` of a block, from the 12 bytes of group scales.
pub open spec fn group_scale(s: Seq<u8>, g: int) -> int {
    if g < 4 {
        (s[g] % 64) as int
    } else {
        s[g + 4] % 16 + 16 * (s[g - 4] / 64)
    }
}

/// The minimum of group `g` of a block, from the 12 bytes of group scales.
pub open spec fn group_min(s: Seq<u8>, g: int) -> int {
    if g < 4 {
        (s[g + 4] % 64) as int
    } else {
        s[g + 4] / 16 + 16 * (s[g] / 64)
    }
}

/// Scale and minimum of group `g`: six bits each, those of the last four groups put together
/// from two places.
pub fn scale_min_k4(s: &[u8], g: usize) -> (res: (u8, u8))
    requires
        s@.len() >= 12,
        g < 8,
    ensures
        res.0 == group_scale(s@, g as int),
        res.1 == group_min(s@, g as int),
        res.0 <= 63,
        res.1 <= 63,
{
    if g < 4 {
        (s[g] % 64, s[g + 4] % 64)
    } else {
        (s[g + 4] % 16 + 16 * (s[g - 4] / 64), s[g + 4] / 16 + 16 * (s[g] / 64))
    }
}

/// The 4 bits of element `e`: in the byte of its place within its pair of groups, the low half
/// for the first group of the pair and the high half for the second.
pub open spec fn q4_bits(block: Seq<u8>, e: int) -> int {
    let b = block[16 + 32 * (e / 64) + e % 32];
    if e % 64 < 32 {
        (b % 16) as int
    } else {
        (b / 16) as int
    }
}

/// The 4 bits of element `e` of a block.
pub fn q4_k_bits(block: &[u8], e: usize) -> (res: u8)
    requires
        block@.len() == BLOCK_Q4_K_BYTES,
        e < QK_K,
    ensures
        res == q4_bits(block@, e as int),
        res <= 15,
{
    let b: u8 = block[16 + 32 * (e / 64) + e % 32];
    if e % 64 < 32 {
        b % 16
    } else {
        b / 16
    }
}

// ---- Blocks of 6-bit weights ----------------------------------------------------------------

/// The power of 4 by which the high bits of element `e` stand in their byte.
pub open spec fn high_place(e: int) -> int {
    let q = (e % 128) / 32;
    if q == 0 {
        1
    } else if q == 1 {
        4
    } else if q == 2 {
        16
    } else {
        64
    }
}

/// The weight of element `e` before scaling: its four low and two high bits, less 32.
pub open spec fn q6_weight(block: Seq<u8>, e: int) -> int {
    let low = block[64 * (e / 128) + e % 64];
    let high = block[128 + 32 * (e / 128) + e % 32];
    (if e % 128 < 64 {
        (low % 16) as int
    } else {
        (low / 16) as int
    }) + 16 * ((high as int / high_place(e)) % 4) - 32
}

/// The weight of element `e` of a block before scaling.
pub fn q6_k_weight(block: &[u8], e: usize) -> (res: i32)
    requires
        block@.len() == BLOCK_Q6_K_BYTES,
        e < QK_K,
    ensures
        res == q6_weight(block@, e as int),
        -32 <= res <= 31,
{
    let low: u8 = block[64 * (e / 128) + e % 64];
    let high: u8 = block[128 + 32 * (e / 128) + e % 32];
    let nib: i32 = if e % 128 < 64 {
        (low % 16) as i32
    } else {
        (low / 16) as i32
    };
    let q: usize = (e % 128) / 32;
    let bits: u8 = if q == 0 {
        high % 4
    } else if q == 1 {
        (high / 4) % 4
    } else if q == 2 {
        (high / 16) % 4
    } else {
        (high / 64) % 4
    };
    nib + 16 * bits as i32 - 32
}

/// A byte as a signed number.
pub open spec fn signed(b: u8) -> int {
    if b < 128 {
        b as int
    } else {
        b - 256
    }
}

/// A byte as a signed number.
pub fn signed_byte(b: u8) -> (res: i32)
    ensures
        res == signed(b),
        -128 <= res <= 127,
{
    if b < 128 {
        b as i32
    } else {
        b as i32 - 256
    }
}

// ---- Activations ----------------------------------------------------------------------------

/// A block of activations: a scale, 256 signed bytes, and the sums of each 16 of them.
#[derive(Debug, Clone)]
pub struct Q8KBlock {
    pub d: F32,
    pub qs: Vec<i8>,
    pub bsums: Vec<i32>,
}

/// The sum of the `n` numbers from `start` on.
pub open spec fn sum_from(qs: Seq<i8>, start: int, n: nat) -> int
    decreases n,
{
    if n == 0 {
        0
    } else {
        sum_from(qs, start, (n - 1) as nat) + qs[start + n - 1]
    }
}

impl Q8KBlock {
    /// There are 256 numbers, and the sums are theirs.
    pub open spec fn wf(&self) -> bool {
        &&& self.qs@.len() == 256
        &&& self.bsums@.len() == 16
        &&& forall|j: int| 0 <= j < 16 ==> #[trigger] self.bsums@[j] == sum_from(self.qs@, 16 * j, 16)
    }
}

proof fn lemma_sum_bound(qs: Seq<i8>, start: int, n: nat)
    ensures
        -128 * n <= sum_from(qs, start, n) <= 127 * n,
    decreases n,
{
    if n > 0 {
        lemma_sum_bound(qs, start, (n - 1) as nat);
    }
}

/// A block from its scale and numbers; the sums are made here.
pub fn q8_k_block(d: F32, qs: Vec<i8>) -> (res: Q8KBlock)
    requires
        qs@.len() == 256,
    ensures
        res.wf(),
        res.d == d,
        res.qs@ == qs@,
{
    let mut bsums: Vec<i32> = Vec::new();
    let mut j: usize = 0;
    while j < 16
        invariant
            j <= 16,
            qs@.len() == 256,
            bsums@.len() == j,
            forall|i: int| 0 <= i < j ==> #[trigger] bsums@[i] == sum_from(qs@, 16 * i, 16),
        decreases 16 - j,
    {
        let mut sum: i32 = 0;
        let mut i: usize = 0;
        while i < 16
            invariant
                i <= 16,
                j < 16,
                qs@.len() == 256,
                sum == sum_from(qs@, 16 * j as int, i as nat),
                -128 * i <= sum <= 127 * i,
            decreases 16 - i,
        {
            proof {
                lemma_sum_bound(qs@, 16 * j as int, (i + 1) as nat);
            }
            sum = sum + qs[16 * j + i] as i32;
            i += 1;
        }
        bsums.push(sum);
        j += 1;
    }
    Q8KBlock { d, qs, bsums }
}

/// The integer that a float of magnitude below 2 to the power 22 was rounded to, read off the
/// bits of that float with 12582912 added to it: the fraction, less half its range.
pub open spec fn rounded(bits: u32) -> int {
    bits as int % 0x80_0000 - 0x40_0000
}

/// The integer in the fraction of a float to which 12582912 was added.
pub fn nearest_int(bits: u32) -> (res: i32)
    ensures
        res == rounded(bits),
{
    (bits % 0x80_0000) as i32 - 0x40_0000
}

/// An activation as a signed byte: at most 127, and otherwise its low eight bits.
pub fn activation_byte(n: i32) -> (res: i8)
    ensures
        n >= 127 ==> res == 127,
        -128 <= n < 127 ==> res == n,
        res == (if n > 127 {
            127i32
        } else {
            n
        }) as i8,
{
    let m: i32 = if n > 127 {
        127
    } else {
        n
    };
    m as i8
}

// ---- Lanes ----------------------------------------------------------------------------------

/// The product of element `e` with its activation, with the scale of its group of 32.
pub open spec fn q4_term(block: Seq<u8>, qs: Seq<i8>, e: int) -> int {
    group_scale(block.subrange(4, 16), e / 32) * q4_bits(block, e) * qs[e]
}

/// The product of element `e` with its activation, with the scale of its group of 16.
pub open spec fn q6_term(block: Seq<u8>, qs: Seq<i8>, e: int) -> int {
    signed(block[192 + e / 16]) * q6_weight(block, e) * qs[e]
}

/// Lane `k` of 4-bit products: the sum of those of the elements below `n` whose place leaves `k`
/// when divided by 8.
pub open spec fn q4_lane(block: Seq<u8>, qs: Seq<i8>, k: int, n: nat) -> int
    decreases n,
{
    if n == 0 {
        0
    } else {
        q4_lane(block, qs, k, (n - 1) as nat) + if (n - 1) % 8 == k {
            q4_term(block, qs, n - 1)
        } else {
            0
        }
    }
}

/// Lane `k` of 6-bit products.
pub open spec fn q6_lane(block: Seq<u8>, qs: Seq<i8>, k: int, n: nat) -> int
    decreases n,
{
    if n == 0 {
        0
    } else {
        q6_lane(block, qs, k, (n - 1) as nat) + if (n - 1) % 8 == k {
            q6_term(block, qs, n - 1)
        } else {
            0
        }
    }
}

/// The sum over the groups of 16 of their sums times the minimum of their group of 32.
pub open spec fn min_sum(block: Seq<u8>, bsums: Seq<i32>, n: nat) -> int
    decreases n,
{
    if n == 0 {
        0
    } else {
        min_sum(block, bsums, (n - 1) as nat) + bsums[n - 1] * group_min(
            block.subrange(4, 16),
            (n - 1) / 2,
        )
    }
}

/// The eight lanes of a block of 4-bit weights against activations.
pub fn q4_k_lanes(block: &[u8], qs: &Vec<i8>) -> (res: Vec<i32>)
    requires
        block@.len() == BLOCK_Q4_K_BYTES,
        qs@.len() == QK_K,
    ensures
        res@.len() == 8,
        forall|k: int| 0 <= k < 8 ==> #[trigger] res@[k] == q4_lane(block@, qs@, k, 256),
{
    let scales = vstd::slice::slice_subrange(block, 4, 16);
    let mut sums: Vec<i32> = Vec::new();
    let mut k: usize = 0;
    while k < 8
        invariant
            k <= 8,
            sums@.len() == k,
            forall|i: int| 0 <= i < k ==> sums@[i] == 0,
        decreases 8 - k,
    {
        sums.push(0);
        k += 1;
    }
    let mut e: usize = 0;
    while e < 256
        invariant
            e <= 256,
            block@.len() == BLOCK_Q4_K_BYTES,
            qs@.len() == QK_K,
            scales@ == block@.subrange(4, 16),
            sums@.len() == 8,
            forall|k: int| 0 <= k < 8 ==> #[trigger] sums@[k] == q4_lane(block@, qs@, k, e as nat),
            forall|k: int| 0 <= k < 8 ==> -121_000 * e <= #[trigger] sums@[k] <= 121_000 * e,
        decreases 256 - e,
    {
        let (sc, _) = scale_min_k4(scales, e / 32);
        let a: u8 = q4_k_bits(block, e);
        let q: i8 = qs[e];
        proof {
            assert(0 <= sc * a <= 945) by (nonlinear_arith)
                requires
                    0 <= sc <= 63,
                    0 <= a <= 15,
            ;
            let p = sc * a;
            assert(-120_960 <= p * q <= 120_960) by (nonlinear_arith)
                requires
                    0 <= p <= 945,
                    -128 <= q <= 127,
            ;
        }
        let term: i32 = sc as i32 * a as i32 * q as i32;
        let lane: usize = e % 8;
        let old: i32 = sums[lane];
        sums.set(lane, old + term);
        e += 1;
    }
    sums
}

/// The eight lanes of a block of 6-bit weights against activations.
pub fn q6_k_lanes(block: &[u8], qs: &Vec<i8>) -> (res: Vec<i32>)
    requires
        block@.len() == BLOCK_Q6_K_BYTES,
        qs@.len() == QK_K,
    ensures
        res@.len() == 8,
        forall|k: int| 0 <= k < 8 ==> #[trigger] res@[k] == q6_lane(block@, qs@, k, 256),
{
    let mut sums: Vec<i32> = Vec::new();
    let mut k: usize = 0;
    while k < 8
        invariant
            k <= 8,
            sums@.len() == k,
            forall|i: int| 0 <= i < k ==> sums@[i] == 0,
        decreases 8 - k,
    {
        sums.push(0);
        k += 1;
    }
    let mut e: usize = 0;
    while e < 256
        invariant
            e <= 256,
            block@.len() == BLOCK_Q6_K_BYTES,
            qs@.len() == QK_K,
            sums@.len() == 8,
            forall|k: int| 0 <= k < 8 ==> #[trigger] sums@[k] == q6_lane(block@, qs@, k, e as nat),
            forall|k: int| 0 <= k < 8 ==> -525_000 * e <= #[trigger] sums@[k] <= 525_000 * e,
        decreases 256 - e,
    {
        let sc: i32 = signed_byte(block[192 + e / 16]);
        let a: i32 = q6_k_weight(block, e);
        let q: i8 = qs[e];
        proof {
            assert(-4096 <= sc * a <= 4096) by (nonlinear_arith)
                requires
                    -128 <= sc <= 127,
                    -32 <= a <= 31,
            ;
            let p = sc * a;
            assert(-524_288 <= p * q <= 524_288) by (nonlinear_arith)
                requires
                    -4096 <= p <= 4096,
                    -128 <= q <= 127,
            ;
        }
        let term: i32 = sc * a * q as i32;
        let lane: usize = e % 8;
        let old: i32 = sums[lane];
        sums.set(lane, old + term);
        e += 1;
    }
    sums
}

/// The sum of the minima of a block of 4-bit weights against the sums of activations.
pub fn q4_k_min_sum(block: &[u8], x: &Q8KBlock) -> (res: i32)
    requires
        block@.len() == BLOCK_Q4_K_BYTES,
        x.wf(),
    ensures
        res == min_sum(block@, x.bsums@, 16),
{
    let scales = vstd::slice::slice_subrange(block, 4, 16);
    let mut sum: i32 = 0;
    let mut g: usize = 0;
    while g < 16
        invariant
            g <= 16,
            block@.len() == BLOCK_Q4_K_BYTES,
            x.wf(),
            scales@ == block@.subrange(4, 16),
            sum == min_sum(block@, x.bsums@, g as nat),
            -130_000 * g <= sum <= 130_000 * g,
        decreases 16 - g,
    {
        let (_, m) = scale_min_k4(scales, g / 2);
        let b: i32 = x.bsums[g];
        proof {
            assert(x.bsums@[g as int] == sum_from(x.qs@, 16 * g as int, 16));
            lemma_sum_bound(x.qs@, 16 * g as int, 16);
            assert(-129_024 <= b * m <= 129_024) by (nonlinear_arith)
                requires
                    -2048 <= b <= 2032,
                    0 <= m <= 63,
            ;
        }
        sum = sum + b * m as i32;
        g += 1;
    }
    sum
}

/// The whole product of a block of 4-bit weights: the sum over all elements.
pub open spec fn q4_total(block: Seq<u8>, qs: Seq<i8>, n: nat) -> int
    decreases n,
{
    if n == 0 {
        0
    } else {
        q4_total(block, qs, (n - 1) as nat) + q4_term(block, qs, n - 1)
    }
}

/// The whole product of a block of 6-bit weights.
pub open spec fn q6_total(block: Seq<u8>, qs: Seq<i8>, n: nat) -> int
    decreases n,
{
    if n == 0 {
        0
    } else {
        q6_total(block, qs, (n - 1) as nat) + q6_term(block, qs, n - 1)
    }
}

/// The eight lanes together are the whole product: no element is lost and none counts twice.
pub proof fn law_lanes_are_whole(block: Seq<u8>, qs: Seq<i8>, n: nat)
    ensures
        q4_lane(block, qs, 0, n) + q4_lane(block, qs, 1, n) + q4_lane(block, qs, 2, n) + q4_lane(
            block,
            qs,
            3,
            n,
        ) + q4_lane(block, qs, 4, n) + q4_lane(block, qs, 5, n) + q4_lane(block, qs, 6, n)
            + q4_lane(block, qs, 7, n) == q4_total(block, qs, n),
        q6_lane(block, qs, 0, n) + q6_lane(block, qs, 1, n) + q6_lane(block, qs, 2, n) + q6_lane(
            block,
            qs,
            3,
            n,
        ) + q6_lane(block, qs, 4, n) + q6_lane(block, qs, 5, n) + q6_lane(block, qs, 6, n)
            + q6_lane(block, qs, 7, n) == q6_total(block, qs, n),
    decreases n,
{
    if n > 0 {
        law_lanes_are_whole(block, qs, (n - 1) as nat);
    }
}

/// Widening keeps what is no finite number, and zero: zeros and infinities become those of the same
/// sign, and a non-number becomes a non-number.
pub proof fn law_widening_keeps_special_values(h: u16)
    ensures
        ({
            let f = F32 { bits: widened(h) as u32 };
            &&& 0 <= widened(h) <= u32::MAX
            &&& h % 0x8000 == 0 ==> widened(h) == (h / 0x8000) * 0x8000_0000
            &&& h % 0x8000 == 0x7C00 ==> widened(h) == (h / 0x8000) * 0x8000_0000 + 0x7F80_0000
            &&& h % 0x8000 > 0x7C00 <==> f.nan()
        }),
{
    let exp = (h / 0x400) % 0x20;
    let frac = h % 0x400;
    let m = h % 0x8000;
    assert(m == 0x400 * exp + frac);
    if exp == 0 && frac != 0 {
        lemma_normalized_range(frac as int, 113);
    }
    assert(h / 0x8000 == 0 || h / 0x8000 == 1);
}

} // verus!
