//! Rows of packed weights against rows of numbers.
//!
//! Which byte, which scale and which activation go together, and in which order the products are
//! summed, is fixed here. The float arithmetic on them is the caller's.

use vstd::prelude::*;
use vstd::slice::slice_subrange;

use crate::ieee::F32;
use crate::kernels::rows::{map_all, mapped};
use crate::kernels::strides::{chain, chained, dot, dots_to, total1, total3};
use crate::kernels::sums::total;
use crate::quants::{
    activation_byte, f16_at, f16_to_f32, group_min, group_scale, half_at, min_sum, nearest_int,
    q4_bits, q4_k_bits, q4_k_lanes, q4_k_min_sum, q4_lane, q6_k_lanes, q6_k_weight, q6_lane,
    q6_weight, q8_k_block, rounded, scale_min_k4, signed, signed_byte, widened, Q8KBlock,
    BLOCK_Q4_K_BYTES, BLOCK_Q6_K_BYTES, QK_K,
};

verus! {

// ---- Blocks of a row ------------------------------------------------------------------------

/// Block `b` of a row of blocks of `size` bytes.
pub open spec fn block_at(w: Seq<u8>, size: int, b: int) -> Seq<u8> {
    w.subrange(b * size, b * size + size)
}

fn block_of(w: &[u8], size: usize, b: usize) -> (res: &[u8])
    requires
        b * size + size <= w@.len(),
    ensures
        res@ == block_at(w@, size as int, b as int),
        res@.len() == size,
{
    proof {
        assert(0 <= b * size) by (nonlinear_arith)
            requires
                b >= 0,
                size >= 0,
        ;
        assert(w@.len() == w.len());
    }
    let at: usize = b * size;
    slice_subrange(w, at, at + size)
}

proof fn lemma_block_inside(b: int, blocks: int, size: int)
    requires
        0 <= b < blocks,
        0 <= size,
    ensures
        0 <= b * size,
        b * size + size <= blocks * size,
{
    assert(0 <= b * size && b * size + size <= blocks * size) by (nonlinear_arith)
        requires
            0 <= b < blocks,
            0 <= size,
    ;
}

/// The float of the half at the front of bytes.
pub open spec fn half_float(bytes: Seq<u8>) -> F32 {
    F32 { bits: widened(half_at(bytes) as u16) as u32 }
}

fn read_half(bytes: &[u8], at: usize) -> (res: F32)
    requires
        at + 2 <= bytes@.len(),
    ensures
        res == half_float(bytes@.subrange(at as int, at + 2)),
{
    proof {
        assert(bytes@.len() == bytes.len());
    }
    f16_to_f32(f16_at(slice_subrange(bytes, at, at + 2)))
}

/// What a block of 4-bit weights says of one element: the element is
/// `d * scale * bits - dmin * min`.
#[derive(Debug, Clone, Copy, PartialEq, Eq, Structural)]
pub struct Q4Weight {
    pub d: F32,
    pub dmin: F32,
    pub scale: u8,
    pub min: u8,
    pub bits: u8,
}

/// What a block of 6-bit weights says of one element: the element is `d * scale * weight`.
#[derive(Debug, Clone, Copy, PartialEq, Eq, Structural)]
pub struct Q6Weight {
    pub d: F32,
    pub scale: i32,
    pub weight: i32,
}

/// Element `e` of a block of 4-bit weights.
pub open spec fn q4_element(block: Seq<u8>, e: int) -> Q4Weight {
    let scales = block.subrange(4, 16);
    Q4Weight {
        d: half_float(block.subrange(0, 2)),
        dmin: half_float(block.subrange(2, 4)),
        scale: group_scale(scales, e / 32) as u8,
        min: group_min(scales, e / 32) as u8,
        bits: q4_bits(block, e) as u8,
    }
}

/// Element `e` of a block of 6-bit weights.
pub open spec fn q6_element(block: Seq<u8>, e: int) -> Q6Weight {
    Q6Weight {
        d: half_float(block.subrange(208, 210)),
        scale: signed(block[192 + e / 16]) as i32,
        weight: q6_weight(block, e) as i32,
    }
}

/// The first `n` elements of a row of 4-bit weights.
pub open spec fn q4_row(w: Seq<u8>, n: nat) -> Seq<Q4Weight> {
    Seq::new(n, |i: int| q4_element(block_at(w, 144, i / 256), i % 256))
}

/// The first `n` elements of a row of 6-bit weights.
pub open spec fn q6_row(w: Seq<u8>, n: nat) -> Seq<Q6Weight> {
    Seq::new(n, |i: int| q6_element(block_at(w, 210, i / 256), i % 256))
}

/// Unpacks a row of 4-bit weights.
pub fn unpack_q4_k(w: &[u8], n: usize) -> (res: Vec<Q4Weight>)
    requires
        n % 256 == 0,
        w@.len() == n / 256 * 144,
    ensures
        res@ == q4_row(w@, n as nat),
{
    let mut out: Vec<Q4Weight> = Vec::with_capacity(n);
    let mut i: usize = 0;
    while i < n
        invariant
            n % 256 == 0,
            w@.len() == n / 256 * 144,
            i <= n,
            out@ == q4_row(w@, i as nat),
        decreases n - i,
    {
        let b: usize = i / 256;
        let e: usize = i % 256;
        proof {
            lemma_block_inside(b as int, (n / 256) as int, 144);
        }
        let block = block_of(w, BLOCK_Q4_K_BYTES, b);
        let (scale, min) = scale_min_k4(slice_subrange(block, 4, 16), e / 32);
        let x = Q4Weight {
            d: read_half(block, 0),
            dmin: read_half(block, 2),
            scale,
            min,
            bits: q4_k_bits(block, e),
        };
        proof {
            assert(x == q4_element(block_at(w@, 144, i as int / 256), i as int % 256));
            assert(out@.push(x) =~= q4_row(w@, (i + 1) as nat));
        }
        out.push(x);
        i += 1;
    }
    out
}

/// Unpacks a row of 6-bit weights.
pub fn unpack_q6_k(w: &[u8], n: usize) -> (res: Vec<Q6Weight>)
    requires
        n % 256 == 0,
        w@.len() == n / 256 * 210,
    ensures
        res@ == q6_row(w@, n as nat),
{
    let mut out: Vec<Q6Weight> = Vec::with_capacity(n);
    let mut i: usize = 0;
    while i < n
        invariant
            n % 256 == 0,
            w@.len() == n / 256 * 210,
            i <= n,
            out@ == q6_row(w@, i as nat),
        decreases n - i,
    {
        let b: usize = i / 256;
        let e: usize = i % 256;
        proof {
            lemma_block_inside(b as int, (n / 256) as int, 210);
        }
        let block = block_of(w, BLOCK_Q6_K_BYTES, b);
        let x = Q6Weight {
            d: read_half(block, 208),
            scale: signed_byte(block[192 + e / 16]),
            weight: q6_k_weight(block, e),
        };
        proof {
            assert(x == q6_element(block_at(w@, 210, i as int / 256), i as int % 256));
            assert(out@.push(x) =~= q6_row(w@, (i + 1) as nat));
        }
        out.push(x);
        i += 1;
    }
    out
}

/// The numbers of a row of 4-bit weights.
pub fn dequantize_q4_k<T: Copy, F: Fn(Q4Weight) -> T>(w: &[u8], n: usize, value: &F) -> (res: Vec<T>)
    requires
        total1(*value),
        n % 256 == 0,
        w@.len() == n / 256 * 144,
    ensures
        mapped(*value, q4_row(w@, n as nat), res@),
{
    let row = unpack_q4_k(w, n);
    map_all(row.as_slice(), value)
}

/// The sum by pairs of the products of numbers with a row of 4-bit weights.
pub fn dot_q4_k<A: Copy, P: Copy, F: Fn(A, Q4Weight) -> P, G: Fn(P, P) -> P>(
    x: &[A],
    w: &[u8],
    times: &F,
    zero: P,
    plus: &G,
) -> (res: P)
    requires
        total(*times),
        total(*plus),
        x@.len() % 256 == 0,
        w@.len() == x@.len() / 256 * 144,
    ensures
        dots_to(*times, *plus, zero, x@, q4_row(w@, x@.len()), res),
{
    let row = unpack_q4_k(w, x.len());
    dot(x, row.as_slice(), times, zero, plus)
}

/// The sum by pairs of the products of numbers with a row of 6-bit weights.
pub fn dot_q6_k<A: Copy, P: Copy, F: Fn(A, Q6Weight) -> P, G: Fn(P, P) -> P>(
    x: &[A],
    w: &[u8],
    times: &F,
    zero: P,
    plus: &G,
) -> (res: P)
    requires
        total(*times),
        total(*plus),
        x@.len() % 256 == 0,
        w@.len() == x@.len() / 256 * 210,
    ensures
        dots_to(*times, *plus, zero, x@, q6_row(w@, x@.len()), res),
{
    let row = unpack_q6_k(w, x.len());
    dot(x, row.as_slice(), times, zero, plus)
}

// ---- Activations ----------------------------------------------------------------------------

impl F32 {
    /// The float without its sign.
    pub open spec fn magnitude(self) -> F32 {
        F32 { bits: (self.bits as int % 0x8000_0000) as u32 }
    }

    /// The float without its sign.
    pub fn without_sign(self) -> (res: F32)
        ensures
            res == self.magnitude(),
    {
        F32 { bits: self.bits % 0x8000_0000u32 }
    }
}

/// The number of greatest magnitude, with its sign, among the first `n`; the first of them where
/// several are equal, and zero where all are.
pub open spec fn strongest(x: Seq<F32>, n: nat) -> F32
    decreases n,
{
    if n == 0 {
        F32 { bits: 0 }
    } else {
        let best = strongest(x, (n - 1) as nat);
        if x[n - 1].magnitude().above(best.magnitude()) {
            x[n - 1]
        } else {
            best
        }
    }
}

/// The number of greatest magnitude, with its sign.
pub fn strongest_of(x: &[F32]) -> (res: F32)
    ensures
        res == strongest(x@, x@.len()),
{
    let mut best = F32 { bits: 0 };
    let mut i: usize = 0;
    while i < x.len()
        invariant
            i <= x@.len(),
            best == strongest(x@, i as nat),
        decreases x@.len() - i,
    {
        if x[i].without_sign().is_above(best.without_sign()) {
            best = x[i];
        }
        i += 1;
    }
    best
}

/// One activation as a byte: its level, given the strongest of its block, rounded and kept at 127.
pub open spec fn levelled<L: Fn(F32, F32) -> u32>(level: L, max: F32, x: F32, q: i8) -> bool {
    exists|bits: u32|
        #[trigger] level.ensures((max, x), bits) && q == (if rounded(bits) > 127 {
            127
        } else {
            rounded(bits)
        }) as i8
}

/// A block of activations: silent where all are zero, and otherwise each as a byte with a common
/// scale.
pub open spec fn quantized<L: Fn(F32, F32) -> u32, U: Fn(F32) -> F32>(
    level: L,
    unit: U,
    x: Seq<F32>,
    b: Q8KBlock,
) -> bool {
    let max = strongest(x, x.len());
    if max.magnitude().bits == 0 {
        b.d == (F32 { bits: 0 }) && forall|j: int| 0 <= j < 256 ==> #[trigger] b.qs@[j] == 0
    } else {
        &&& unit.ensures((max,), b.d)
        &&& forall|j: int| 0 <= j < 256 ==> levelled(level, max, x[j], #[trigger] b.qs@[j])
    }
}

fn quantize_block<L: Fn(F32, F32) -> u32, U: Fn(F32) -> F32>(x: &[F32], level: &L, unit: &U) -> (
    res: Q8KBlock)
    requires
        total(*level),
        total1(*unit),
        x@.len() == 256,
    ensures
        res.wf(),
        quantized(*level, *unit, x@, res),
{
    let max = strongest_of(x);
    let mut qs: Vec<i8> = Vec::with_capacity(QK_K);
    let mut j: usize = 0;
    if max.without_sign().bits == 0 {
        while j < 256
            invariant
                j <= 256,
                qs@.len() == j,
                forall|i: int| 0 <= i < j ==> #[trigger] qs@[i] == 0,
            decreases 256 - j,
        {
            qs.push(0);
            j += 1;
        }
        return q8_k_block(F32 { bits: 0 }, qs);
    }
    while j < 256
        invariant
            total(*level),
            x@.len() == 256,
            j <= 256,
            qs@.len() == j,
            forall|i: int| 0 <= i < j ==> levelled(*level, max, x@[i], #[trigger] qs@[i]),
        decreases 256 - j,
    {
        proof {
            assert(level.requires((max, x@[j as int])));
        }
        let bits: u32 = level(max, x[j]);
        let q: i8 = activation_byte(nearest_int(bits));
        proof {
            assert(level.ensures((max, x@[j as int]), bits));
            assert(levelled(*level, max, x@[j as int], q));
        }
        qs.push(q);
        j += 1;
    }
    proof {
        assert(unit.requires((max,)));
    }
    let d = unit(max);
    q8_k_block(d, qs)
}

/// Activations in blocks of 256.
pub fn quantize_q8_k<L: Fn(F32, F32) -> u32, U: Fn(F32) -> F32>(x: &[F32], level: &L, unit: &U) -> (
    res: Vec<Q8KBlock>)
    requires
        total(*level),
        total1(*unit),
        x@.len() % 256 == 0,
    ensures
        res@.len() == x@.len() / 256,
        forall|b: int|
            0 <= b < res@.len() ==> (#[trigger] res@[b]).wf() && quantized(
                *level,
                *unit,
                x@.subrange(b * 256, b * 256 + 256),
                res@[b],
            ),
{
    let blocks: usize = x.len() / 256;
    let mut out: Vec<Q8KBlock> = Vec::with_capacity(blocks);
    let mut b: usize = 0;
    while b < blocks
        invariant
            total(*level),
            total1(*unit),
            x@.len() % 256 == 0,
            blocks == x@.len() / 256,
            b <= blocks,
            out@.len() == b,
            forall|i: int|
                0 <= i < b ==> (#[trigger] out@[i]).wf() && quantized(
                    *level,
                    *unit,
                    x@.subrange(i * 256, i * 256 + 256),
                    out@[i],
                ),
        decreases blocks - b,
    {
        proof {
            assert(x@.len() == x.len());
        }
        let block = quantize_block(slice_subrange(x, b * 256, b * 256 + 256), level, unit);
        out.push(block);
        b += 1;
    }
    out
}

// ---- Packed weights against activations -----------------------------------------------------

/// For every block, the scale of the activations and a scale of the weights, which stands `at`
/// bytes into the block.
pub open spec fn scales_of(x: Seq<Q8KBlock>, w: Seq<u8>, size: int, at: int) -> Seq<(F32, F32)> {
    Seq::new(
        x.len(),
        |b: int| (x[b].d, half_float(block_at(w, size, b).subrange(at, at + 2))),
    )
}

/// For every block, lane `k` of its products.
pub open spec fn q4_lane_sums(x: Seq<Q8KBlock>, w: Seq<u8>, k: int) -> Seq<i32> {
    Seq::new(x.len(), |b: int| q4_lane(block_at(w, 144, b), x[b].qs@, k, 256) as i32)
}

/// For every block, lane `k` of its products.
pub open spec fn q6_lane_sums(x: Seq<Q8KBlock>, w: Seq<u8>, k: int) -> Seq<i32> {
    Seq::new(x.len(), |b: int| q6_lane(block_at(w, 210, b), x[b].qs@, k, 256) as i32)
}

/// For every block, the sum of its minima.
pub open spec fn q4_min_sums(x: Seq<Q8KBlock>, w: Seq<u8>) -> Seq<i32> {
    Seq::new(x.len(), |b: int| min_sum(block_at(w, 144, b), x[b].bsums@, 16) as i32)
}

/// `lanes` holds, for each of the eight lanes, what its sums add up to over the blocks.
pub open spec fn lanes_to<T, F: Fn(T, (F32, F32), i32) -> T>(
    lane: F,
    zero: T,
    scales: Seq<(F32, F32)>,
    sums: spec_fn(int) -> Seq<i32>,
    lanes: Seq<T>,
) -> bool {
    &&& lanes.len() == 8
    &&& forall|k: int| 0 <= k < 8 ==> chained(lane, zero, scales, sums(k), #[trigger] lanes[k])
}

/// `lanes` holds the eight lanes of a row of 4-bit weights.
pub open spec fn q4_lanes_to<T, F: Fn(T, (F32, F32), i32) -> T>(
    lane: F,
    zero: T,
    x: Seq<Q8KBlock>,
    w: Seq<u8>,
    lanes: Seq<T>,
) -> bool {
    lanes_to(lane, zero, scales_of(x, w, 144, 0), |k: int| q4_lane_sums(x, w, k), lanes)
}

/// `lanes` holds the eight lanes of a row of 6-bit weights.
pub open spec fn q6_lanes_to<T, F: Fn(T, (F32, F32), i32) -> T>(
    lane: F,
    zero: T,
    x: Seq<Q8KBlock>,
    w: Seq<u8>,
    lanes: Seq<T>,
) -> bool {
    lanes_to(lane, zero, scales_of(x, w, 210, 208), |k: int| q6_lane_sums(x, w, k), lanes)
}

/// The product of a row of 4-bit weights with activations: the minima first, then the eight lanes
/// in turn.
pub open spec fn q4_q8_dots_to<
    T,
    F: Fn(T, (F32, F32), i32) -> T,
    G: Fn(T, (F32, F32), i32) -> T,
    H: Fn(T, T, T) -> T,
>(lane: F, less: G, onto: H, zero: T, x: Seq<Q8KBlock>, w: Seq<u8>, r: T) -> bool {
    exists|lanes: Seq<T>, mins: T|
        #[trigger] q4_lanes_to(lane, zero, x, w, lanes) && #[trigger] chained(less, zero, scales_of(x, w, 144, 2), q4_min_sums(x, w), mins)
            && chained(onto, mins, lanes, lanes, r)
}

/// The product of a row of 6-bit weights with activations: the eight lanes in turn.
pub open spec fn q6_q8_dots_to<T, F: Fn(T, (F32, F32), i32) -> T, H: Fn(T, T, T) -> T>(
    lane: F,
    onto: H,
    zero: T,
    x: Seq<Q8KBlock>,
    w: Seq<u8>,
    r: T,
) -> bool {
    exists|lanes: Seq<T>|
        #[trigger] q6_lanes_to(lane, zero, x, w, lanes) && chained(onto, zero, lanes, lanes, r)
}

/// Every block of activations is whole.
pub open spec fn all_whole(x: Seq<Q8KBlock>) -> bool {
    forall|b: int| 0 <= b < x.len() ==> (#[trigger] x[b]).wf()
}

fn read_scales(x: &[Q8KBlock], w: &[u8], size: usize, at: usize) -> (res: Vec<(F32, F32)>)
    requires
        w@.len() == x@.len() * size,
        at + 2 <= size,
    ensures
        res@ == scales_of(x@, w@, size as int, at as int),
{
    let mut out: Vec<(F32, F32)> = Vec::with_capacity(x.len());
    let mut b: usize = 0;
    while b < x.len()
        invariant
            w@.len() == x@.len() * size,
            at + 2 <= size,
            b <= x@.len(),
            out@ == scales_of(x@, w@, size as int, at as int).take(b as int),
        decreases x@.len() - b,
    {
        proof {
            lemma_block_inside(b as int, x@.len() as int, size as int);
        }
        let block = block_of(w, size, b);
        let pair = (x[b].d, read_half(block, at));
        proof {
            let all = scales_of(x@, w@, size as int, at as int);
            assert(all[b as int] == pair);
            assert(all.take(b + 1) =~= all.take(b as int).push(pair));
        }
        out.push(pair);
        b += 1;
    }
    proof {
        assert(out@ =~= scales_of(x@, w@, size as int, at as int));
    }
    out
}

/// The sums of all blocks, block by block, eight to each.
fn q4_all_lanes(x: &[Q8KBlock], w: &[u8]) -> (res: Vec<Vec<i32>>)
    requires
        all_whole(x@),
        w@.len() == x@.len() * 144,
    ensures
        res@.len() == x@.len(),
        forall|b: int|
            0 <= b < x@.len() ==> (#[trigger] res@[b])@.len() == 8 && forall|k: int|
                0 <= k < 8 ==> #[trigger] res@[b]@[k] == q4_lane(
                    block_at(w@, 144, b),
                    x@[b].qs@,
                    k,
                    256,
                ),
{
    let mut out: Vec<Vec<i32>> = Vec::with_capacity(x.len());
    let mut b: usize = 0;
    while b < x.len()
        invariant
            all_whole(x@),
            w@.len() == x@.len() * 144,
            b <= x@.len(),
            out@.len() == b,
            forall|i: int|
                0 <= i < b ==> (#[trigger] out@[i])@.len() == 8 && forall|k: int|
                    0 <= k < 8 ==> #[trigger] out@[i]@[k] == q4_lane(
                        block_at(w@, 144, i),
                        x@[i].qs@,
                        k,
                        256,
                    ),
        decreases x@.len() - b,
    {
        proof {
            lemma_block_inside(b as int, x@.len() as int, 144);
            assert(x@[b as int].wf());
        }
        let lanes = q4_k_lanes(block_of(w, BLOCK_Q4_K_BYTES, b), &x[b].qs);
        out.push(lanes);
        b += 1;
    }
    out
}

fn q6_all_lanes(x: &[Q8KBlock], w: &[u8]) -> (res: Vec<Vec<i32>>)
    requires
        all_whole(x@),
        w@.len() == x@.len() * 210,
    ensures
        res@.len() == x@.len(),
        forall|b: int|
            0 <= b < x@.len() ==> (#[trigger] res@[b])@.len() == 8 && forall|k: int|
                0 <= k < 8 ==> #[trigger] res@[b]@[k] == q6_lane(
                    block_at(w@, 210, b),
                    x@[b].qs@,
                    k,
                    256,
                ),
{
    let mut out: Vec<Vec<i32>> = Vec::with_capacity(x.len());
    let mut b: usize = 0;
    while b < x.len()
        invariant
            all_whole(x@),
            w@.len() == x@.len() * 210,
            b <= x@.len(),
            out@.len() == b,
            forall|i: int|
                0 <= i < b ==> (#[trigger] out@[i])@.len() == 8 && forall|k: int|
                    0 <= k < 8 ==> #[trigger] out@[i]@[k] == q6_lane(
                        block_at(w@, 210, i),
                        x@[i].qs@,
                        k,
                        256,
                    ),
        decreases x@.len() - b,
    {
        proof {
            lemma_block_inside(b as int, x@.len() as int, 210);
            assert(x@[b as int].wf());
        }
        let lanes = q6_k_lanes(block_of(w, BLOCK_Q6_K_BYTES, b), &x[b].qs);
        out.push(lanes);
        b += 1;
    }
    out
}

/// Lane `k` of every block.
fn lane_column(all: &Vec<Vec<i32>>, k: usize) -> (res: Vec<i32>)
    requires
        k < 8,
        forall|b: int| 0 <= b < all@.len() ==> (#[trigger] all@[b])@.len() == 8,
    ensures
        res@.len() == all@.len(),
        forall|b: int| 0 <= b < all@.len() ==> #[trigger] res@[b] == all@[b]@[k as int],
{
    let mut out: Vec<i32> = Vec::with_capacity(all.len());
    let mut b: usize = 0;
    while b < all.len()
        invariant
            k < 8,
            forall|b: int| 0 <= b < all@.len() ==> (#[trigger] all@[b])@.len() == 8,
            b <= all@.len(),
            out@.len() == b,
            forall|i: int| 0 <= i < b ==> #[trigger] out@[i] == all@[i]@[k as int],
        decreases all@.len() - b,
    {
        out.push(all[b][k]);
        b += 1;
    }
    out
}

fn add_up_lanes<T: Copy, F: Fn(T, (F32, F32), i32) -> T>(
    all: &Vec<Vec<i32>>,
    scales: &Vec<(F32, F32)>,
    zero: T,
    lane: &F,
    sums: Ghost<spec_fn(int) -> Seq<i32>>,
) -> (res: Vec<T>)
    requires
        total3(*lane),
        all@.len() == scales@.len(),
        forall|b: int| 0 <= b < all@.len() ==> (#[trigger] all@[b])@.len() == 8,
        forall|k: int| 0 <= k < 8 ==> (#[trigger] (sums@)(k)).len() == all@.len(),
        forall|k: int, b: int|
            0 <= k < 8 && 0 <= b < all@.len() ==> #[trigger] (sums@)(k)[b] == all@[b]@[k],
    ensures
        lanes_to(*lane, zero, scales@, sums@, res@),
{
    let mut lanes: Vec<T> = Vec::with_capacity(8);
    let mut k: usize = 0;
    while k < 8
        invariant
            total3(*lane),
            all@.len() == scales@.len(),
            forall|b: int| 0 <= b < all@.len() ==> (#[trigger] all@[b])@.len() == 8,
            forall|k: int| 0 <= k < 8 ==> (#[trigger] (sums@)(k)).len() == all@.len(),
            forall|k: int, b: int|
                0 <= k < 8 && 0 <= b < all@.len() ==> #[trigger] (sums@)(k)[b] == all@[b]@[k],
            k <= 8,
            lanes@.len() == k,
            forall|i: int|
                0 <= i < k ==> chained(*lane, zero, scales@, (sums@)(i), #[trigger] lanes@[i]),
        decreases 8 - k,
    {
        let column = lane_column(all, k);
        proof {
            assert(column@ =~= (sums@)(k as int));
        }
        let sum = chain(scales.as_slice(), column.as_slice(), zero, lane);
        lanes.push(sum);
        k += 1;
    }
    lanes
}

/// The product of a row of 4-bit weights with activations.
pub fn dot_q4_k_q8_k<
    T: Copy,
    F: Fn(T, (F32, F32), i32) -> T,
    G: Fn(T, (F32, F32), i32) -> T,
    H: Fn(T, T, T) -> T,
>(x: &[Q8KBlock], w: &[u8], zero: T, lane: &F, less: &G, onto: &H) -> (res: T)
    requires
        total3(*lane),
        total3(*less),
        total3(*onto),
        all_whole(x@),
        w@.len() == x@.len() * 144,
    ensures
        q4_q8_dots_to(*lane, *less, *onto, zero, x@, w@, res),
{
    let scales = read_scales(x, w, BLOCK_Q4_K_BYTES, 0);
    let min_scales = read_scales(x, w, BLOCK_Q4_K_BYTES, 2);
    let all = q4_all_lanes(x, w);
    let ghost sums = |k: int| q4_lane_sums(x@, w@, k);
    let lanes = add_up_lanes(&all, &scales, zero, lane, Ghost(sums));
    let mut mins: Vec<i32> = Vec::with_capacity(x.len());
    let mut b: usize = 0;
    while b < x.len()
        invariant
            all_whole(x@),
            w@.len() == x@.len() * 144,
            b <= x@.len(),
            mins@ == q4_min_sums(x@, w@).take(b as int),
        decreases x@.len() - b,
    {
        proof {
            lemma_block_inside(b as int, x@.len() as int, 144);
            assert(x@[b as int].wf());
        }
        let m: i32 = q4_k_min_sum(block_of(w, BLOCK_Q4_K_BYTES, b), &x[b]);
        proof {
            let want = q4_min_sums(x@, w@);
            assert(want[b as int] == m);
            assert(want.take(b + 1) =~= want.take(b as int).push(m));
        }
        mins.push(m);
        b += 1;
    }
    proof {
        assert(mins@ =~= q4_min_sums(x@, w@));
    }
    let less_sum = chain(min_scales.as_slice(), mins.as_slice(), zero, less);
    let res = chain(lanes.as_slice(), lanes.as_slice(), less_sum, onto);
    proof {
        assert(q4_lanes_to(*lane, zero, x@, w@, lanes@));
        assert(chained(*less, zero, scales_of(x@, w@, 144, 2), q4_min_sums(x@, w@), less_sum));
    }
    res
}

/// The product of a row of 6-bit weights with activations.
pub fn dot_q6_k_q8_k<T: Copy, F: Fn(T, (F32, F32), i32) -> T, H: Fn(T, T, T) -> T>(
    x: &[Q8KBlock],
    w: &[u8],
    zero: T,
    lane: &F,
    onto: &H,
) -> (res: T)
    requires
        total3(*lane),
        total3(*onto),
        all_whole(x@),
        w@.len() == x@.len() * 210,
    ensures
        q6_q8_dots_to(*lane, *onto, zero, x@, w@, res),
{
    let scales = read_scales(x, w, BLOCK_Q6_K_BYTES, 208);
    let all = q6_all_lanes(x, w);
    let ghost sums = |k: int| q6_lane_sums(x@, w@, k);
    let lanes = add_up_lanes(&all, &scales, zero, lane, Ghost(sums));
    let res = chain(lanes.as_slice(), lanes.as_slice(), zero, onto);
    proof {
        assert(q6_lanes_to(*lane, zero, x@, w@, lanes@));
    }
    res
}

// ---- Matrices -------------------------------------------------------------------------------

/// The rows of a packed matrix.
pub fn rows_of(w: &[u8], row_bytes: usize, rows: usize) -> (res: Vec<&[u8]>)
    requires
        w@.len() == rows * row_bytes,
    ensures
        res@.len() == rows,
        forall|j: int|
            0 <= j < rows ==> (#[trigger] res@[j])@ == block_at(w@, row_bytes as int, j),
{
    let mut out: Vec<&[u8]> = Vec::with_capacity(rows);
    let mut j: usize = 0;
    while j < rows
        invariant
            w@.len() == rows * row_bytes,
            j <= rows,
            out@.len() == j,
            forall|i: int|
                0 <= i < j ==> (#[trigger] out@[i])@ == block_at(w@, row_bytes as int, i),
        decreases rows - j,
    {
        proof {
            lemma_block_inside(j as int, rows as int, row_bytes as int);
        }
        out.push(block_of(w, row_bytes, j));
        j += 1;
    }
    out
}

} // verus!
