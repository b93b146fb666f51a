//! What packed weights stand for, and what a product with them is, element by element.

use vstd::prelude::*;

use crate::ieee::F32;
use crate::kernels::exact::{
    in_turn, law_chain_is_sum_of_products, law_chain_takes_pairs_in_turn, lemma_sums_agree, sum_of,
    takes_in,
};
use crate::kernels::strides::chained;
use crate::packed::{
    block_at, lanes_to, levelled, q4_element, q4_lane_sums, q4_lanes_to, q4_min_sums,
    q4_q8_dots_to, q4_row, q6_element, q6_lane_sums, q6_lanes_to, q6_q8_dots_to, q6_row, scales_of,
    quantized, strongest, Q4Weight, Q6Weight,
};
use crate::quants::{
    group_min, group_scale, law_lanes_are_whole, min_sum, q4_bits, q4_lane, q4_term, q4_total,
    q6_lane, q6_term, q6_total, q6_weight, rounded, signed, sum_from, widened, Q8KBlock,
};

verus! {

// ---- Bytes ----------------------------------------------------------------------------------

/// The elements of a block of 4-bit weights give its bytes back. Byte `l` of stretch `j` holds
/// element `l` of group `2j` in its low half and that of group `2j + 1` in its high half. The
/// scales and minima of the groups have six bits each: those of the first four groups stand in
/// the low bits of the first eight bytes, and those of the last four are divided between the last
/// four bytes and the two bits that are left in the first eight.
pub proof fn law_q4_bytes_given_back(block: Seq<u8>, j: int, l: int, e: int, f: int)
    requires
        block.len() == 144,
        0 <= j < 4,
        0 <= l < 32,
        32 * j <= e < 32 * j + 32,
        32 * (j + 4) <= f < 32 * (j + 4) + 32,
    ensures
        ({
            let low = q4_element(block, 64 * j + l);
            let high = q4_element(block, 64 * j + 32 + l);
            let a = q4_element(block, e);
            let b = q4_element(block, f);
            &&& block[16 + 32 * j + l] == low.bits + 16 * high.bits
            &&& low.bits < 16
            &&& high.bits < 16
            &&& block[4 + j] == a.scale + 64 * (b.scale / 16)
            &&& block[8 + j] == a.min + 64 * (b.min / 16)
            &&& block[12 + j] == b.scale % 16 + 16 * (b.min % 16)
            &&& a.scale < 64
            &&& a.min < 64
            &&& b.scale < 64
            &&& b.min < 64
        }),
{
    let s = block.subrange(4, 16);
    lemma_place(32, j, e - 32 * j);
    lemma_place(32, j + 4, f - 32 * (j + 4));
    assert(s[j] == block[4 + j]);
    assert(s[j + 4] == block[8 + j]);
    assert(s[j + 8] == block[12 + j]);
    lemma_six(block[4 + j] as int, block[8 + j] as int, block[12 + j] as int);
    assert(group_scale(s, j + 4) == s[j + 8] % 16 + 16 * (s[j] / 64));
    assert(group_min(s, j + 4) == s[j + 8] / 16 + 16 * (s[j + 4] / 64));
    lemma_nibbles(block, j, l);
}

proof fn lemma_place(size: int, j: int, l: int)
    requires
        0 < size,
        0 <= l < size,
    ensures
        (size * j + l) / size == j,
        (size * j + l) % size == l,
{
    assert(size * j + l == j * size + l) by (nonlinear_arith);
    vstd::arithmetic::div_mod::lemma_fundamental_div_mod_converse(size * j + l, size, j, l);
}

proof fn lemma_nibbles(block: Seq<u8>, j: int, l: int)
    requires
        0 <= j < 4,
        0 <= l < 32,
    ensures
        q4_bits(block, 64 * j + l) == block[16 + 32 * j + l] % 16,
        q4_bits(block, 64 * j + 32 + l) == block[16 + 32 * j + l] / 16,
{
    lemma_place(64, j, l);
    lemma_place(32, 2 * j, l);
    lemma_place(64, j, 32 + l);
    lemma_place(32, 2 * j + 1, l);
}

/// Two numbers of six bits each from three bytes, with what else is in the bytes.
proof fn lemma_six(p: int, q: int, r: int)
    requires
        0 <= p < 256,
        0 <= q < 256,
        0 <= r < 256,
    ensures
        ({
            let scale = r % 16 + 16 * (p / 64);
            let min = r / 16 + 16 * (q / 64);
            &&& 0 <= scale < 64
            &&& 0 <= min < 64
            &&& p == p % 64 + 64 * (scale / 16)
            &&& q == q % 64 + 64 * (min / 16)
            &&& r == scale % 16 + 16 * (min % 16)
        }),
{
    lemma_place(16, p / 64, r % 16);
    lemma_place(16, q / 64, r / 16);
}

/// The elements of a block of 6-bit weights give its bytes back. Of each half of 128 elements the
/// four quarters of 32 stand side by side: low bits of the first and third quarter in one byte,
/// of the second and fourth in another, and the high bits of all four in a third.
pub proof fn law_q6_bytes_given_back(block: Seq<u8>, half: int, l: int)
    requires
        block.len() == 210,
        0 <= half < 2,
        0 <= l < 32,
    ensures
        ({
            let at = 128 * half + l;
            let a = q6_element(block, at).weight + 32;
            let b = q6_element(block, at + 32).weight + 32;
            let c = q6_element(block, at + 64).weight + 32;
            let d = q6_element(block, at + 96).weight + 32;
            &&& 0 <= a < 64 && 0 <= b < 64 && 0 <= c < 64 && 0 <= d < 64
            &&& block[64 * half + l] == a % 16 + 16 * (c % 16)
            &&& block[64 * half + 32 + l] == b % 16 + 16 * (d % 16)
            &&& block[128 + 32 * half + l] == a / 16 + 4 * (b / 16) + 16 * (c / 16) + 64 * (d / 16)
        }),
{
    let at = 128 * half + l;
    let low = block[64 * half + l] as int;
    let low2 = block[64 * half + 32 + l] as int;
    let high = block[128 + 32 * half + l] as int;
    lemma_quarter(block, half, 0, l);
    lemma_quarter(block, half, 1, l);
    lemma_quarter(block, half, 2, l);
    lemma_quarter(block, half, 3, l);
    lemma_four(low, low2, high);
}

proof fn lemma_quarter(block: Seq<u8>, half: int, k: int, l: int)
    requires
        0 <= half < 2,
        0 <= k < 4,
        0 <= l < 32,
    ensures
        ({
            let low = block[64 * half + 32 * (k % 2) + l] as int;
            let high = block[128 + 32 * half + l] as int;
            q6_weight(block, 128 * half + 32 * k + l) + 32 == (if k < 2 {
                low % 16
            } else {
                low / 16
            }) + 16 * ((if k == 0 {
                high
            } else if k == 1 {
                high / 4
            } else if k == 2 {
                high / 16
            } else {
                high / 64
            }) % 4)
        }),
{
    let e = 128 * half + 32 * k + l;
    lemma_place(128, half, 32 * k + l);
    lemma_place(32, 4 * half + k, l);
    lemma_place(32, k, l);
    if k < 2 {
        lemma_place(64, 2 * half, 32 * k + l);
    } else {
        lemma_place(64, 2 * half + 1, 32 * (k - 2) + l);
    }
    assert(e / 128 == half);
    assert((e % 128) / 32 == k);
    assert(e % 32 == l);
    assert(e % 64 == 32 * (k % 2) + l);
}

/// A byte is made of its four pairs of bits.
proof fn lemma_pairs(high: int)
    requires
        0 <= high < 256,
    ensures
        high == high % 4 + 4 * ((high / 4) % 4) + 16 * ((high / 16) % 4) + 64 * ((high / 64) % 4),
{
    let a = high / 4;
    let b = high / 16;
    let c = high / 64;
    assert(a == 4 * (a / 4) + a % 4);
    assert(a / 4 == b);
    assert(b == 4 * (b / 4) + b % 4);
    assert(b / 4 == c);
    assert(c % 4 == c);
}

/// A number of six bits by its low four and high two.
proof fn lemma_low_and_high(low: int, high: int)
    requires
        0 <= low < 16,
        0 <= high < 4,
    ensures
        0 <= low + 16 * high < 64,
        (low + 16 * high) % 16 == low,
        (low + 16 * high) / 16 == high,
{
}

/// Four numbers of six bits each from three bytes.
proof fn lemma_four(low: int, low2: int, high: int)
    requires
        0 <= low < 256,
        0 <= low2 < 256,
        0 <= high < 256,
    ensures
        ({
            let a = low % 16 + 16 * (high % 4);
            let b = low2 % 16 + 16 * ((high / 4) % 4);
            let c = low / 16 + 16 * ((high / 16) % 4);
            let d = low2 / 16 + 16 * ((high / 64) % 4);
            &&& 0 <= a < 64 && 0 <= b < 64 && 0 <= c < 64 && 0 <= d < 64
            &&& low == a % 16 + 16 * (c % 16)
            &&& low2 == b % 16 + 16 * (d % 16)
            &&& high == a / 16 + 4 * (b / 16) + 16 * (c / 16) + 64 * (d / 16)
        }),
{
    lemma_pairs(high);
    let (p, q, r, s) = (high % 4, (high / 4) % 4, (high / 16) % 4, (high / 64) % 4);
    let (l, m) = (low % 16, low / 16);
    let (l2, m2) = (low2 % 16, low2 / 16);
    assert(low == l + 16 * m);
    assert(low2 == l2 + 16 * m2);
    lemma_low_and_high(l, p);
    lemma_low_and_high(l2, q);
    lemma_low_and_high(m, r);
    lemma_low_and_high(m2, s);
}

/// The scale of each 16 elements of a block of 6-bit weights is a signed byte.
pub proof fn law_q6_scales(block: Seq<u8>, g: int, e: int)
    requires
        block.len() == 210,
        0 <= g < 16,
        16 * g <= e < 16 * g + 16,
    ensures
        -128 <= q6_element(block, e).scale <= 127,
        (q6_element(block, e).scale - block[192 + g]) % 256 == 0,
{
    assert(e / 16 == g);
}

/// The floats of a block: a half stands with its low byte first, that of the 4-bit weights and
/// that of their minima at the front of the block, that of 6-bit weights at its back.
pub proof fn law_floats_of_blocks(h: u16, block: Seq<u8>, e: int)
    ensures
        block.len() == 144 && block[0] == h % 256 && block[1] == h / 256 ==> q4_element(
            block,
            e,
        ).d.bits == widened(h) as u32,
        block.len() == 144 && block[2] == h % 256 && block[3] == h / 256 ==> q4_element(
            block,
            e,
        ).dmin.bits == widened(h) as u32,
        block.len() == 210 && block[208] == h % 256 && block[209] == h / 256 ==> q6_element(
            block,
            e,
        ).d.bits == widened(h) as u32,
{
    assert(h % 256 + 256 * (h / 256) == h);
}

/// Rows of whole blocks can be joined: the elements of the joined row are those of the first and
/// then those of the second.
pub proof fn law_packed_rows_join(a: Seq<u8>, b: Seq<u8>, m: nat, n: nat)
    ensures
        a.len() == 144 * m && b.len() == 144 * n ==> q4_row(a + b, 256 * (m + n)) == q4_row(
            a,
            256 * m,
        ) + q4_row(b, 256 * n),
        a.len() == 210 * m && b.len() == 210 * n ==> q6_row(a + b, 256 * (m + n)) == q6_row(
            a,
            256 * m,
        ) + q6_row(b, 256 * n),
{
    if a.len() == 144 * m && b.len() == 144 * n {
        let all = q4_row(a + b, 256 * (m + n));
        let two = q4_row(a, 256 * m) + q4_row(b, 256 * n);
        assert forall|i: int| 0 <= i < 256 * (m + n) implies #[trigger] all[i] == two[i] by {
            lemma_block_of_joined(a, b, 144, m, n, i);
        }
        assert(all =~= two);
    }
    if a.len() == 210 * m && b.len() == 210 * n {
        let all = q6_row(a + b, 256 * (m + n));
        let two = q6_row(a, 256 * m) + q6_row(b, 256 * n);
        assert forall|i: int| 0 <= i < 256 * (m + n) implies #[trigger] all[i] == two[i] by {
            lemma_block_of_joined(a, b, 210, m, n, i);
        }
        assert(all =~= two);
    }
}

/// A row of one block has the elements of that block, in order.
pub proof fn law_packed_row_of_one_block(a: Seq<u8>, e: int)
    requires
        0 <= e < 256,
    ensures
        a.len() == 144 ==> q4_row(a, 256)[e] == q4_element(a, e),
        a.len() == 210 ==> q6_row(a, 256)[e] == q6_element(a, e),
{
    assert(e / 256 == 0 && e % 256 == e);
    if a.len() == 144 {
        assert(block_at(a, 144, 0) =~= a);
    }
    if a.len() == 210 {
        assert(block_at(a, 210, 0) =~= a);
    }
}

proof fn lemma_block_of_joined(a: Seq<u8>, b: Seq<u8>, size: int, m: nat, n: nat, i: int)
    requires
        size > 0,
        a.len() == size * m,
        b.len() == size * n,
        0 <= i < 256 * (m + n),
    ensures
        i < 256 * m ==> block_at(a + b, size, i / 256) == block_at(a, size, i / 256),
        i >= 256 * m ==> block_at(a + b, size, i / 256) == block_at(b, size, (i - 256 * m) / 256)
            && (i - 256 * m) % 256 == i % 256,
{
    let q = i / 256;
    if i < 256 * m {
        assert(0 <= q * size && q * size + size <= size * m) by (nonlinear_arith)
            requires
                0 <= q < m,
                size > 0,
        ;
        assert(block_at(a + b, size, q) =~= block_at(a, size, q));
    } else {
        let r = (i - 256 * m) / 256;
        assert(q == r + m);
        assert(q * size == r * size + size * m) by (nonlinear_arith)
            requires
                q == r + m,
        ;
        assert(0 <= r * size && r * size + size <= size * n) by (nonlinear_arith)
            requires
                0 <= r < n,
                size > 0,
        ;
        assert(block_at(a + b, size, q) =~= block_at(b, size, r));
    }
}

// ---- Integer products -----------------------------------------------------------------------

/// The integer part of a product with a block of 4-bit weights, element by element: the eight
/// lanes add up to the products of scale, bits and activation, and the sum of the minima to the
/// products of each element's own minimum with its activation.
pub proof fn law_q4_product_by_elements(block: Seq<u8>, x: Q8KBlock)
    requires
        block.len() == 144,
        x.wf(),
    ensures
        ({
            let qs = x.qs@;
            &&& sum_of(|k: int| q4_lane(block, qs, k, 256), 8) == sum_of(
                |e: int| q4_element(block, e).scale * q4_element(block, e).bits * qs[e],
                256,
            )
            &&& min_sum(block, x.bsums@, 16) == sum_of(
                |e: int| q4_element(block, e).min * qs[e],
                256,
            )
        }),
{
    let qs = x.qs@;
    law_lanes_are_whole(block, qs, 256);
    lemma_eight(|k: int| q4_lane(block, qs, k, 256));
    lemma_q4_total(block, qs, 256);
    lemma_min_sum(block, x, 16);
}

/// The integer part of a product with a block of 6-bit weights, element by element.
pub proof fn law_q6_product_by_elements(block: Seq<u8>, qs: Seq<i8>)
    requires
        block.len() == 210,
        qs.len() == 256,
    ensures
        sum_of(|k: int| q6_lane(block, qs, k, 256), 8) == sum_of(
            |e: int| q6_element(block, e).scale * q6_element(block, e).weight * qs[e],
            256,
        ),
{
    law_lanes_are_whole(block, qs, 256);
    lemma_eight(|k: int| q6_lane(block, qs, k, 256));
    lemma_q6_total(block, qs, 256);
}

proof fn lemma_eight(f: spec_fn(int) -> int)
    ensures
        sum_of(f, 8) == f(0) + f(1) + f(2) + f(3) + f(4) + f(5) + f(6) + f(7),
{
    reveal_with_fuel(sum_of, 9);
}

proof fn lemma_small_fields(block: Seq<u8>, e: int)
    requires
        block.len() == 144,
        0 <= e < 256,
    ensures
        q4_element(block, e).scale == group_scale(block.subrange(4, 16), e / 32),
        q4_element(block, e).min == group_min(block.subrange(4, 16), e / 32),
        q4_element(block, e).bits == q4_bits(block, e),
        q4_element(block, e).scale <= 63,
        q4_element(block, e).min <= 63,
        q4_element(block, e).bits <= 15,
{
}

proof fn lemma_q4_total(block: Seq<u8>, qs: Seq<i8>, n: nat)
    requires
        block.len() == 144,
        n <= 256,
    ensures
        q4_total(block, qs, n) == sum_of(
            |e: int| q4_element(block, e).scale * q4_element(block, e).bits * qs[e],
            n,
        ),
    decreases n,
{
    if n > 0 {
        lemma_q4_total(block, qs, (n - 1) as nat);
        lemma_small_fields(block, n - 1);
    }
}

proof fn lemma_q6_total(block: Seq<u8>, qs: Seq<i8>, n: nat)
    requires
        block.len() == 210,
        n <= 256,
    ensures
        q6_total(block, qs, n) == sum_of(
            |e: int| q6_element(block, e).scale * q6_element(block, e).weight * qs[e],
            n,
        ),
    decreases n,
{
    if n > 0 {
        lemma_q6_total(block, qs, (n - 1) as nat);
        assert(-32 <= q6_weight(block, n - 1) <= 31);
        assert(-128 <= signed(block[192 + (n - 1) / 16]) <= 127);
    }
}

proof fn lemma_min_group(block: Seq<u8>, qs: Seq<i8>, g: nat, i: nat)
    requires
        block.len() == 144,
        g < 16,
        i <= 16,
    ensures
        ({
            let f = |e: int| q4_element(block, e).min * qs[e];
            sum_of(f, 16 * g + i) == sum_of(f, 16 * g) + group_min(
                block.subrange(4, 16),
                g as int / 2,
            ) * sum_from(qs, 16 * g as int, i)
        }),
    decreases i,
{
    let m = group_min(block.subrange(4, 16), g as int / 2);
    if i > 0 {
        lemma_min_group(block, qs, g, (i - 1) as nat);
        let e = 16 * g + i - 1;
        assert(e / 32 == g as int / 2);
        lemma_small_fields(block, e);
        let s = sum_from(qs, 16 * g as int, (i - 1) as nat);
        let q = qs[e] as int;
        assert(m * (s + q) == m * s + m * q) by (nonlinear_arith);
    } else {
        assert(m * 0 == 0);
    }
}

proof fn lemma_min_sum(block: Seq<u8>, x: Q8KBlock, n: nat)
    requires
        block.len() == 144,
        x.wf(),
        n <= 16,
    ensures
        min_sum(block, x.bsums@, n) == sum_of(
            |e: int| q4_element(block, e).min * x.qs@[e],
            16 * n,
        ),
    decreases n,
{
    if n > 0 {
        let g = (n - 1) as nat;
        lemma_min_sum(block, x, g);
        lemma_min_group(block, x.qs@, g, 16);
        let b = x.bsums@[g as int] as int;
        assert(b == sum_from(x.qs@, 16 * g as int, 16));
        let m = group_min(block.subrange(4, 16), g as int / 2);
        assert(b * m == m * b) by (nonlinear_arith);
    }
}

// ---- Whole products -------------------------------------------------------------------------

/// Sums over blocks of sums over lanes are sums over blocks of all lanes together.
proof fn lemma_lanes_swap(
    c: spec_fn(int) -> int,
    t: spec_fn(int, int) -> int,
    n: nat,
)
    ensures
        sum_of(|k: int| sum_of(|b: int| c(b) * t(b, k), n), 8) == sum_of(
            |b: int| c(b) * sum_of(|k: int| t(b, k), 8),
            n,
        ),
    decreases n,
{
    let f = |k: int| sum_of(|b: int| c(b) * t(b, k), n);
    lemma_eight(f);
    if n > 0 {
        let m = (n - 1) as nat;
        lemma_lanes_swap(c, t, m);
        lemma_eight(|k: int| sum_of(|b: int| c(b) * t(b, k), m));
        let u = |k: int| t(m as int, k);
        lemma_eight(u);
        let d = c(m as int);
        assert forall|k: int| #[trigger] f(k) == sum_of(|b: int| c(b) * t(b, k), m) + d * u(k) by {
            let g = |b: int| c(b) * t(b, k);
            assert(sum_of(g, n) == sum_of(g, m) + g(m as int));
        }
        assert(f(0) + f(1) + f(2) + f(3) + f(4) + f(5) + f(6) + f(7) == sum_of(
            |k: int| sum_of(|b: int| c(b) * t(b, k), m),
            8,
        ) + d * u(0) + d * u(1) + d * u(2) + d * u(3) + d * u(4) + d * u(5) + d * u(6) + d * u(7));
        assert(d * u(0) + d * u(1) + d * u(2) + d * u(3) + d * u(4) + d * u(5) + d * u(6) + d * u(7)
            == d * (u(0) + u(1) + u(2) + u(3) + u(4) + u(5) + u(6) + u(7))) by (nonlinear_arith);
        let h = |b: int| c(b) * sum_of(|k: int| t(b, k), 8);
        assert(sum_of(h, n) == sum_of(h, m) + h(m as int));
        assert(h(m as int) == d * sum_of(u, 8));
    } else {
        assert forall|k: int| #[trigger] f(k) == 0 by {}
    }
}

proof fn lemma_product3(a: int, b: int, c: int, x: int, y: int, z: int)
    requires
        -x <= a <= x,
        -y <= b <= y,
        -z <= c <= z,
    ensures
        -(x * y * z) <= a * b * c <= x * y * z,
{
    assert(-(x * y) <= a * b <= x * y) by (nonlinear_arith)
        requires
            -x <= a <= x,
            -y <= b <= y,
    ;
    let p = a * b;
    let m = x * y;
    assert(-(m * z) <= p * c <= m * z) by (nonlinear_arith)
        requires
            -m <= p <= m,
            -z <= c <= z,
    ;
}

proof fn lemma_q4_lane_small(block: Seq<u8>, qs: Seq<i8>, k: int, n: nat)
    requires
        block.len() == 144,
        n <= 256,
    ensures
        -121_000 * n <= q4_lane(block, qs, k, n) <= 121_000 * n,
    decreases n,
{
    if n > 0 {
        lemma_q4_lane_small(block, qs, k, (n - 1) as nat);
        lemma_small_fields(block, n - 1);
        let e = q4_element(block, n - 1);
        lemma_product3(e.scale as int, e.bits as int, qs[n - 1] as int, 63, 15, 128);
        assert(63 * 15 * 128 <= 121_000);
    }
}

proof fn lemma_q6_lane_small(block: Seq<u8>, qs: Seq<i8>, k: int, n: nat)
    requires
        block.len() == 210,
        n <= 256,
    ensures
        -525_000 * n <= q6_lane(block, qs, k, n) <= 525_000 * n,
    decreases n,
{
    if n > 0 {
        lemma_q6_lane_small(block, qs, k, (n - 1) as nat);
        assert(-32 <= q6_weight(block, n - 1) <= 31);
        lemma_product3(
            signed(block[192 + (n - 1) / 16]),
            q6_weight(block, n - 1),
            qs[n - 1] as int,
            128,
            32,
            128,
        );
        assert(128 * 32 * 128 <= 525_000);
    }
}

proof fn lemma_min_sum_small(block: Seq<u8>, x: Q8KBlock, n: nat)
    requires
        block.len() == 144,
        x.wf(),
        n <= 16,
    ensures
        -130_000 * n <= min_sum(block, x.bsums@, n) <= 130_000 * n,
    decreases n,
{
    if n > 0 {
        lemma_min_sum_small(block, x, (n - 1) as nat);
        let b = x.bsums@[n - 1] as int;
        assert(b == sum_from(x.qs@, 16 * (n - 1), 16));
        lemma_sum_small(x.qs@, 16 * (n - 1), 16);
        let m = group_min(block.subrange(4, 16), (n - 1) / 2);
        assert(0 <= m <= 63);
        assert(-130_000 <= b * m <= 130_000) by (nonlinear_arith)
            requires
                -2048 <= b <= 2048,
                0 <= m <= 63,
        ;
    }
}

proof fn lemma_sum_small(qs: Seq<i8>, start: int, n: nat)
    ensures
        -128 * n <= sum_from(qs, start, n) <= 128 * n,
    decreases n,
{
    if n > 0 {
        lemma_sum_small(qs, start, (n - 1) as nat);
    }
}

proof fn lemma_block_whole(w: Seq<u8>, size: int, n: int, b: int)
    requires
        0 <= b < n,
        size > 0,
        w.len() == size * n,
    ensures
        block_at(w, size, b).len() == size,
{
    assert(0 <= b * size && b * size + size <= size * n) by (nonlinear_arith)
        requires
            0 <= b < n,
            size > 0,
    ;
}

/// Adding up the eight lanes, where each has taken in a term for every block.
proof fn lemma_lanes_added<T, F: Fn(T, (F32, F32), i32) -> T, H: Fn(T, T, T) -> T>(
    lane: F,
    onto: H,
    v: spec_fn(T) -> int,
    fv: spec_fn(F32) -> int,
    zero: T,
    start: T,
    scales: Seq<(F32, F32)>,
    sums: spec_fn(int) -> Seq<i32>,
    lanes: Seq<T>,
    r: T,
)
    requires
        takes_in(lane, v, |p: (F32, F32)| fv(p.0) * fv(p.1), |i: i32| i as int),
        takes_in(onto, v, v, |t: T| 1int),
        v(zero) == 0,
        forall|k: int| 0 <= k < 8 ==> (#[trigger] sums(k)).len() == scales.len(),
        lanes_to(lane, zero, scales, sums, lanes),
        chained(onto, start, lanes, lanes, r),
    ensures
        v(r) == v(start) + sum_of(
            |b: int|
                fv(scales[b].0) * fv(scales[b].1) * sum_of(|k: int| sums(k)[b] as int, 8),
            scales.len(),
        ),
{
    let pv = |p: (F32, F32)| fv(p.0) * fv(p.1);
    let iv = |i: i32| i as int;
    let one = |t: T| 1int;
    let c = |b: int| fv(scales[b].0) * fv(scales[b].1);
    let t = |b: int, k: int| sums(k)[b] as int;
    law_chain_is_sum_of_products(onto, v, v, one, start, lanes, lanes, r);
    let f = |k: int| v(lanes[k]) * one(lanes[k]);
    let g = |k: int| sum_of(|b: int| c(b) * t(b, k), scales.len());
    assert forall|k: int| 0 <= k < 8 implies #[trigger] f(k) == g(k) by {
        assert(chained(lane, zero, scales, sums(k), lanes[k]));
        law_chain_is_sum_of_products(lane, v, pv, iv, zero, scales, sums(k), lanes[k]);
        lemma_sums_agree(
            |b: int| pv(scales[b]) * iv(sums(k)[b]),
            |b: int| c(b) * t(b, k),
            scales.len(),
        );
    }
    lemma_sums_agree(f, g, 8);
    lemma_lanes_swap(c, t, scales.len());
    let h1 = |b: int| c(b) * sum_of(|k: int| t(b, k), 8);
    let h2 = |b: int|
        fv(scales[b].0) * fv(scales[b].1) * sum_of(|k: int| sums(k)[b] as int, 8);
    assert forall|b: int| 0 <= b < scales.len() implies #[trigger] h1(b) == h2(b) by {
        lemma_sums_agree(|k: int| t(b, k), |k: int| sums(k)[b] as int, 8);
    }
    lemma_sums_agree(h1, h2, scales.len());
}

/// What block `b` of a row of 4-bit weights contributes: every activation times its weight, with
/// `d * scale * bits - dmin * min` for the weight and `d * q` for the activation.
pub open spec fn q4_share(fv: spec_fn(F32) -> int, x: Q8KBlock, row: Seq<Q4Weight>, b: int) -> int {
    let at = 256 * b;
    fv(x.d) * (fv(row[at].d) * sum_of(
        |e: int| row[at + e].scale * row[at + e].bits * x.qs@[e],
        256,
    ) - fv(row[at].dmin) * sum_of(|e: int| row[at + e].min * x.qs@[e], 256))
}

/// What block `b` of a row of 6-bit weights contributes.
pub open spec fn q6_share(fv: spec_fn(F32) -> int, x: Q8KBlock, row: Seq<Q6Weight>, b: int) -> int {
    let at = 256 * b;
    fv(x.d) * fv(row[at].d) * sum_of(|e: int| row[at + e].scale * row[at + e].weight * x.qs@[e], 256)
}

/// The product of a row of 4-bit weights with packed activations, where the arithmetic is exact:
/// over all elements, the weight that the row holds times the activation.
pub proof fn law_q4_product<
    T,
    F: Fn(T, (F32, F32), i32) -> T,
    G: Fn(T, (F32, F32), i32) -> T,
    H: Fn(T, T, T) -> T,
>(
    lane: F,
    less: G,
    onto: H,
    v: spec_fn(T) -> int,
    fv: spec_fn(F32) -> int,
    zero: T,
    x: Seq<Q8KBlock>,
    w: Seq<u8>,
    r: T,
)
    requires
        takes_in(lane, v, |p: (F32, F32)| fv(p.0) * fv(p.1), |i: i32| i as int),
        takes_in(less, v, |p: (F32, F32)| -(fv(p.0) * fv(p.1)), |i: i32| i as int),
        takes_in(onto, v, v, |t: T| 1int),
        v(zero) == 0,
        w.len() == 144 * x.len(),
        forall|b: int| 0 <= b < x.len() ==> (#[trigger] x[b]).wf(),
        q4_q8_dots_to(lane, less, onto, zero, x, w, r),
    ensures
        v(r) == sum_of(
            |b: int| q4_share(fv, x[b], q4_row(w, 256 * x.len()), b),
            x.len(),
        ),
{
    let n = x.len();
    let row = q4_row(w, 256 * n);
    let (lanes, mins) = choose|lanes: Seq<T>, mins: T|
        #[trigger] q4_lanes_to(lane, zero, x, w, lanes) && #[trigger] chained(
            less,
            zero,
            scales_of(x, w, 144, 2),
            q4_min_sums(x, w),
            mins,
        ) && chained(onto, mins, lanes, lanes, r);
    let scales = scales_of(x, w, 144, 0);
    let lows = scales_of(x, w, 144, 2);
    let ms = q4_min_sums(x, w);
    let sums = |k: int| q4_lane_sums(x, w, k);
    lemma_lanes_added(lane, onto, v, fv, zero, mins, scales, sums, lanes, r);
    let np = |p: (F32, F32)| -(fv(p.0) * fv(p.1));
    let iv = |i: i32| i as int;
    law_chain_is_sum_of_products(less, v, np, iv, zero, lows, ms, mins);
    let f = |b: int| fv(scales[b].0) * fv(scales[b].1) * sum_of(|k: int| sums(k)[b] as int, 8);
    let g = |b: int| np(lows[b]) * iv(ms[b]);
    let h = |b: int| q4_share(fv, x[b], row, b);
    assert forall|b: int| 0 <= b < n implies #[trigger] h(b) == f(b) + g(b) by {
        lemma_q4_share(fv, x, w, b);
        lemma_sums_agree(
            |k: int| sums(k)[b] as int,
            |k: int| q4_lane_sums(x, w, k)[b] as int,
            8,
        );
        let d = fv(x[b].d);
        let (p, q) = (fv(scales[b].1), fv(lows[b].1));
        let (s, m) = (sum_of(|k: int| sums(k)[b] as int, 8), ms[b] as int);
        assert(d * (p * s - q * m) == d * p * s + (-(d * q)) * m) by (nonlinear_arith);
    }
    lemma_two_sums(f, g, h, n);
}

proof fn lemma_two_sums(
    f: spec_fn(int) -> int,
    g: spec_fn(int) -> int,
    h: spec_fn(int) -> int,
    n: nat,
)
    requires
        forall|i: int| 0 <= i < n ==> #[trigger] h(i) == f(i) + g(i),
    ensures
        sum_of(h, n) == sum_of(f, n) + sum_of(g, n),
    decreases n,
{
    if n > 0 {
        lemma_two_sums(f, g, h, (n - 1) as nat);
    }
}

proof fn lemma_q4_share(fv: spec_fn(F32) -> int, x: Seq<Q8KBlock>, w: Seq<u8>, b: int)
    requires
        w.len() == 144 * x.len(),
        0 <= b < x.len(),
        x[b].wf(),
    ensures
        q4_share(fv, x[b], q4_row(w, 256 * x.len()), b) == fv(x[b].d) * (fv(
            scales_of(x, w, 144, 0)[b].1,
        ) * sum_of(|k: int| q4_lane_sums(x, w, k)[b] as int, 8) - fv(scales_of(x, w, 144, 2)[b].1)
            * (q4_min_sums(x, w)[b] as int)),
{
    let row = q4_row(w, 256 * x.len());
    let block = block_at(w, 144, b);
    let qs = x[b].qs@;
    let at = 256 * b;
    lemma_block_whole(w, 144, x.len() as int, b);
    law_q4_product_by_elements(block, x[b]);
    lemma_min_sum_small(block, x[b], 16);
    assert forall|e: int| 0 <= e < 256 implies #[trigger] row[at + e] == q4_element(block, e) by {
        lemma_place(256, b, e);
    }
    assert(row[at + 0] == q4_element(block, 0));
    lemma_sums_agree(
        |e: int| row[at + e].scale * row[at + e].bits * qs[e],
        |e: int| q4_element(block, e).scale * q4_element(block, e).bits * qs[e],
        256,
    );
    lemma_sums_agree(
        |e: int| row[at + e].min * qs[e],
        |e: int| q4_element(block, e).min * qs[e],
        256,
    );
    let a = |k: int| q4_lane_sums(x, w, k)[b] as int;
    let c = |k: int| q4_lane(block, qs, k, 256);
    assert forall|k: int| 0 <= k < 8 implies #[trigger] a(k) == c(k) by {
        lemma_q4_lane_small(block, qs, k, 256);
    }
    lemma_sums_agree(a, c, 8);
}

/// The product of a row of 6-bit weights with packed activations, where the arithmetic is exact.
pub proof fn law_q6_product<T, F: Fn(T, (F32, F32), i32) -> T, H: Fn(T, T, T) -> T>(
    lane: F,
    onto: H,
    v: spec_fn(T) -> int,
    fv: spec_fn(F32) -> int,
    zero: T,
    x: Seq<Q8KBlock>,
    w: Seq<u8>,
    r: T,
)
    requires
        takes_in(lane, v, |p: (F32, F32)| fv(p.0) * fv(p.1), |i: i32| i as int),
        takes_in(onto, v, v, |t: T| 1int),
        v(zero) == 0,
        w.len() == 210 * x.len(),
        forall|b: int| 0 <= b < x.len() ==> (#[trigger] x[b]).wf(),
        q6_q8_dots_to(lane, onto, zero, x, w, r),
    ensures
        v(r) == sum_of(
            |b: int| q6_share(fv, x[b], q6_row(w, 256 * x.len()), b),
            x.len(),
        ),
{
    let n = x.len();
    let row = q6_row(w, 256 * n);
    let lanes = choose|lanes: Seq<T>|
        #[trigger] q6_lanes_to(lane, zero, x, w, lanes) && chained(onto, zero, lanes, lanes, r);
    let scales = scales_of(x, w, 210, 208);
    let sums = |k: int| q6_lane_sums(x, w, k);
    lemma_lanes_added(lane, onto, v, fv, zero, zero, scales, sums, lanes, r);
    let f = |b: int| fv(scales[b].0) * fv(scales[b].1) * sum_of(|k: int| sums(k)[b] as int, 8);
    let h = |b: int| q6_share(fv, x[b], row, b);
    assert forall|b: int| 0 <= b < n implies #[trigger] f(b) == h(b) by {
        let block = block_at(w, 210, b);
        let qs = x[b].qs@;
        let at = 256 * b;
        lemma_block_whole(w, 210, n as int, b);
        law_q6_product_by_elements(block, qs);
        assert forall|e: int| 0 <= e < 256 implies #[trigger] row[at + e] == q6_element(
            block,
            e,
        ) by {
            lemma_place(256, b, e);
        }
        assert(row[at + 0] == q6_element(block, 0));
        lemma_sums_agree(
            |e: int| row[at + e].scale * row[at + e].weight * qs[e],
            |e: int| q6_element(block, e).scale * q6_element(block, e).weight * qs[e],
            256,
        );
        let a = |k: int| sums(k)[b] as int;
        let c = |k: int| q6_lane(block, qs, k, 256);
        assert forall|k: int| 0 <= k < 8 implies #[trigger] a(k) == c(k) by {
            lemma_q6_lane_small(block, qs, k, 256);
        }
        lemma_sums_agree(a, c, 8);
    }
    lemma_sums_agree(f, h, n);
}

// ---- Activations ----------------------------------------------------------------------------

/// The strongest of numbers, none of them a non-number: none has a greater magnitude, and it is
/// the first of those that have as great a one. Where all are zero it is zero.
pub proof fn law_strongest(x: Seq<F32>, n: nat)
    requires
        n <= x.len(),
        forall|i: int| 0 <= i < n ==> !(#[trigger] x[i]).nan(),
    ensures
        ({
            let s = strongest(x, n);
            &&& !s.nan()
            &&& forall|i: int| 0 <= i < n ==> !(#[trigger] x[i]).magnitude().above(s.magnitude())
            &&& s.magnitude().bits == 0 ==> s.bits == 0
            &&& s.bits != 0 ==> exists|i: int|
                0 <= i < n && #[trigger] x[i] == s && forall|j: int|
                    0 <= j < i ==> s.magnitude().above((#[trigger] x[j]).magnitude())
        }),
    decreases n,
{
    if n > 0 {
        law_strongest(x, (n - 1) as nat);
        let best = strongest(x, (n - 1) as nat);
        let last = x[n - 1];
        if last.magnitude().above(best.magnitude()) {
            assert(x[n - 1] == last);
            assert forall|j: int| 0 <= j < n - 1 implies last.magnitude().above(
                (#[trigger] x[j]).magnitude(),
            ) by {
                assert(!x[j].magnitude().above(best.magnitude()));
            }
        } else if best.bits != 0 {
            let i = choose|i: int|
                0 <= i < n - 1 && #[trigger] x[i] == best && forall|j: int|
                    0 <= j < i ==> best.magnitude().above((#[trigger] x[j]).magnitude());
            assert(x[i] == best);
        }
    }
}

/// Rounding by adding 12582912: the float with that value, `n` steps of one further on, is read as
/// `n`.
pub proof fn law_rounded_by_adding(n: int)
    requires
        -0x40_0000 <= n < 0x40_0000,
    ensures
        rounded((0x4B40_0000 + n) as u32) == n,
        (0x4B40_0000 + n) / 0x80_0000 == 127 + 23,
        0x80_0000 + (0x4B40_0000 + n) % 0x80_0000 == 12582912 + n,
{
}

/// A block of activations, none of them a non-number: where all are zero the block is silent;
/// otherwise the strongest of all 256 sets scale and levels, and every byte is the rounded level of
/// its own activation, at most 127.
pub proof fn law_activations_are_levels<L: Fn(F32, F32) -> u32, U: Fn(F32) -> F32>(
    level: L,
    unit: U,
    x: Seq<F32>,
    b: Q8KBlock,
    m: int,
)
    requires
        x.len() == 256,
        forall|i: int| 0 <= i < 256 ==> !(#[trigger] x[i]).nan(),
        quantized(level, unit, x, b),
        0 <= m < 256,
    ensures
        (forall|i: int| 0 <= i < 256 ==> (#[trigger] x[i]).magnitude().bits == 0) ==> b.d.bits == 0
            && forall|j: int| 0 <= j < 256 ==> #[trigger] b.qs@[j] == 0,
        x[m].magnitude().bits != 0 && (forall|i: int|
            0 <= i < 256 ==> !(#[trigger] x[i]).magnitude().above(x[m].magnitude())) && (forall|
            i: int,
        |
            0 <= i < m ==> x[m].magnitude().above((#[trigger] x[i]).magnitude())) ==> {
            &&& unit.ensures((x[m],), b.d)
            &&& forall|j: int| 0 <= j < 256 ==> levelled(level, x[m], x[j], #[trigger] b.qs@[j])
        },
{
    law_strongest(x, 256);
    let s = strongest(x, 256);
    if forall|i: int| 0 <= i < 256 ==> (#[trigger] x[i]).magnitude().bits == 0 {
        if s.bits != 0 {
            let i = choose|i: int|
                0 <= i < 256 && #[trigger] x[i] == s && forall|j: int|
                    0 <= j < i ==> s.magnitude().above((#[trigger] x[j]).magnitude());
            assert(x[i].magnitude().bits == 0);
        }
        assert(s.magnitude().bits == 0);
    }
    if x[m].magnitude().bits != 0 && (forall|i: int|
        0 <= i < 256 ==> !(#[trigger] x[i]).magnitude().above(x[m].magnitude())) && (forall|i: int|
        0 <= i < m ==> x[m].magnitude().above((#[trigger] x[i]).magnitude())) {
        assert(!x[m].magnitude().above(s.magnitude()));
        assert(s.bits != 0);
        let i = choose|i: int|
            0 <= i < 256 && #[trigger] x[i] == s && forall|j: int|
                0 <= j < i ==> s.magnitude().above((#[trigger] x[j]).magnitude());
        if i < m {
            assert(x[m].magnitude().above(x[i].magnitude()));
        } else if m < i {
            assert(s.magnitude().above(x[m].magnitude()));
        }
    }
}

/// A level is read off the bits of a float with 12582912 added to it: `n` for the bits of
/// 12582912 and `n`, and 127 for all above.
pub proof fn law_levels_are_read_off<L: Fn(F32, F32) -> u32>(
    level: L,
    max: F32,
    x: F32,
    n: int,
    q: i8,
)
    requires
        -128 <= n < 0x40_0000,
        forall|bits: u32| #[trigger] level.ensures((max, x), bits) ==> bits == 0x4B40_0000 + n,
        levelled(level, max, x, q),
    ensures
        q == if n > 127 {
            127
        } else {
            n
        },
{
    law_rounded_by_adding(n);
}

// ---- In which order -------------------------------------------------------------------------

/// The order of a product with a row of 4-bit weights: the minima of the blocks are taken off zero
/// one after the other; each of the eight lanes takes in the blocks one after the other, from zero;
/// and the lanes are added onto the minima from the first to the last.
pub proof fn law_q4_product_in_order<
    T,
    F: Fn(T, (F32, F32), i32) -> T,
    G: Fn(T, (F32, F32), i32) -> T,
    H: Fn(T, T, T) -> T,
>(lane: F, less: G, onto: H, zero: T, x: Seq<Q8KBlock>, w: Seq<u8>, r: T)
    requires
        q4_q8_dots_to(lane, less, onto, zero, x, w, r),
    ensures
        exists|lanes: Seq<T>, mins: T, s: Seq<T>, t: Seq<T>|
            {
                &&& lanes.len() == 8
                &&& #[trigger] in_turn(
                    less,
                    zero,
                    scales_of(x, w, 144, 2),
                    q4_min_sums(x, w),
                    s,
                    mins,
                )
                &&& forall|k: int|
                    0 <= k < 8 ==> reached(
                        lane,
                        zero,
                        scales_of(x, w, 144, 0),
                        q4_lane_sums(x, w, k),
                        #[trigger] lanes[k],
                    )
                &&& #[trigger] in_turn(onto, mins, lanes, lanes, t, r)
            },
{
    let (lanes, mins) = choose|lanes: Seq<T>, mins: T|
        #[trigger] q4_lanes_to(lane, zero, x, w, lanes) && #[trigger] chained(
            less,
            zero,
            scales_of(x, w, 144, 2),
            q4_min_sums(x, w),
            mins,
        ) && chained(onto, mins, lanes, lanes, r);
    law_chain_takes_pairs_in_turn(less, zero, scales_of(x, w, 144, 2), q4_min_sums(x, w), mins);
    law_chain_takes_pairs_in_turn(onto, mins, lanes, lanes, r);
    let s = choose|s: Seq<T>| #[trigger]
        in_turn(less, zero, scales_of(x, w, 144, 2), q4_min_sums(x, w), s, mins);
    let t = choose|t: Seq<T>| #[trigger] in_turn(onto, mins, lanes, lanes, t, r);
    let scales = scales_of(x, w, 144, 0);
    assert forall|k: int| 0 <= k < 8 implies reached(
        lane,
        zero,
        scales,
        q4_lane_sums(x, w, k),
        #[trigger] lanes[k],
    ) by {
        law_chain_takes_pairs_in_turn(lane, zero, scales, q4_lane_sums(x, w, k), lanes[k]);
    }
    assert(in_turn(less, zero, scales_of(x, w, 144, 2), q4_min_sums(x, w), s, mins));
    assert(in_turn(onto, mins, lanes, lanes, t, r));
}

/// What taking in pairs one after the other reaches.
pub open spec fn reached<W, A, B, F: Fn(W, A, B) -> W>(
    step: F,
    start: W,
    a: Seq<A>,
    b: Seq<B>,
    r: W,
) -> bool {
    exists|s: Seq<W>| #[trigger] in_turn(step, start, a, b, s, r)
}

/// The order of a product with a row of 6-bit weights: each of the eight lanes takes in the blocks
/// one after the other, from zero, and the lanes are added onto zero from the first to the last.
pub proof fn law_q6_product_in_order<T, F: Fn(T, (F32, F32), i32) -> T, H: Fn(T, T, T) -> T>(
    lane: F,
    onto: H,
    zero: T,
    x: Seq<Q8KBlock>,
    w: Seq<u8>,
    r: T,
)
    requires
        q6_q8_dots_to(lane, onto, zero, x, w, r),
    ensures
        exists|lanes: Seq<T>, t: Seq<T>|
            {
                &&& lanes.len() == 8
                &&& forall|k: int|
                    0 <= k < 8 ==> reached(
                        lane,
                        zero,
                        scales_of(x, w, 210, 208),
                        q6_lane_sums(x, w, k),
                        #[trigger] lanes[k],
                    )
                &&& #[trigger] in_turn(onto, zero, lanes, lanes, t, r)
            },
{
    let lanes = choose|lanes: Seq<T>|
        #[trigger] q6_lanes_to(lane, zero, x, w, lanes) && chained(onto, zero, lanes, lanes, r);
    law_chain_takes_pairs_in_turn(onto, zero, lanes, lanes, r);
    let t = choose|t: Seq<T>| #[trigger] in_turn(onto, zero, lanes, lanes, t, r);
    let scales = scales_of(x, w, 210, 208);
    assert forall|k: int| 0 <= k < 8 implies reached(
        lane,
        zero,
        scales,
        q6_lane_sums(x, w, k),
        #[trigger] lanes[k],
    ) by {
        law_chain_takes_pairs_in_turn(lane, zero, scales, q6_lane_sums(x, w, k), lanes[k]);
    }
    assert(in_turn(onto, zero, lanes, lanes, t, r));
}

/// A lane takes every eighth product: lane `k` those of the elements `k`, `k + 8`, and so on.
pub proof fn law_lanes_take_every_eighth(block: Seq<u8>, qs: Seq<i8>, k: int, n: nat)
    requires
        0 <= k < 8,
    ensures
        q4_lane(block, qs, k, 8 * n) == sum_of(|i: int| q4_term(block, qs, 8 * i + k), n),
        q6_lane(block, qs, k, 8 * n) == sum_of(|i: int| q6_term(block, qs, 8 * i + k), n),
    decreases n,
{
    if n > 0 {
        let m = (n - 1) as nat;
        law_lanes_take_every_eighth(block, qs, k, m);
        lemma_eight_more(block, qs, k, m, 8);
    }
}

proof fn lemma_eight_more(block: Seq<u8>, qs: Seq<i8>, k: int, m: nat, j: nat)
    requires
        0 <= k < 8,
        j <= 8,
    ensures
        q4_lane(block, qs, k, 8 * m + j) == q4_lane(block, qs, k, 8 * m) + if k < j {
            q4_term(block, qs, 8 * m + k)
        } else {
            0
        },
        q6_lane(block, qs, k, 8 * m + j) == q6_lane(block, qs, k, 8 * m) + if k < j {
            q6_term(block, qs, 8 * m + k)
        } else {
            0
        },
    decreases j,
{
    if j > 0 {
        lemma_eight_more(block, qs, k, m, (j - 1) as nat);
        lemma_place(8, m as int, j - 1);
    }
}

} // verus!
