//! Norms of rows.

use vstd::prelude::*;

use super::strides::{
    chain, chain_strided, chained, lemma_cell, part, part_of, strided, total1, total3,
};
use super::sums::total;

verus! {

/// The norm of a row: what its squares add up to sets a scale, and every number is scaled and
/// weighted.
pub open spec fn normed<T, W, F: Fn(W, T, T) -> W, G: Fn(W) -> T, H: Fn(T, T, T) -> T>(
    square: F,
    zero: W,
    scale: G,
    weigh: H,
    x: Seq<T>,
    w: Seq<T>,
    out: Seq<T>,
) -> bool {
    &&& out.len() == x.len()
    &&& exists|sum: W, s: T|
        #[trigger] chained(square, zero, x, x, sum) && #[trigger] scale.ensures((sum,), s) && weighed(
            weigh,
            x,
            s,
            w,
            out,
        )
}

/// Every number of a row, scaled and weighted.
pub open spec fn weighed<T, H: Fn(T, T, T) -> T>(
    weigh: H,
    x: Seq<T>,
    s: T,
    w: Seq<T>,
    out: Seq<T>,
) -> bool {
    forall|i: int| 0 <= i < x.len() ==> weigh.ensures((x[i], s, w[i]), #[trigger] out[i])
}

/// The norm of a row.
pub fn rmsnorm<T: Copy, W: Copy, F: Fn(W, T, T) -> W, G: Fn(W) -> T, H: Fn(T, T, T) -> T>(
    x: &[T],
    w: &[T],
    zero: W,
    square: &F,
    scale: &G,
    weigh: &H,
) -> (out: Vec<T>)
    requires
        total3(*square),
        total1(*scale),
        total3(*weigh),
        x@.len() == w@.len(),
    ensures
        x@.len() == 0 ==> out@.len() == 0,
        x@.len() > 0 ==> normed(*square, zero, *scale, *weigh, x@, w@, out@),
{
    let n: usize = x.len();
    let mut out: Vec<T> = Vec::with_capacity(n);
    if n == 0 {
        return out;
    }
    let sum = chain(x, x, zero, square);
    proof {
        assert(scale.requires((sum,)));
    }
    let s = scale(sum);
    let mut i: usize = 0;
    while i < n
        invariant
            total3(*weigh),
            n == x@.len(),
            x@.len() == w@.len(),
            i <= n,
            out@.len() == i,
            forall|j: int| 0 <= j < i ==> weigh.ensures((x@[j], s, w@[j]), #[trigger] out@[j]),
        decreases n - i,
    {
        proof {
            assert(weigh.requires((x@[i as int], s, w@[i as int])));
        }
        let v = weigh(x[i], s, w[i]);
        out.push(v);
        i += 1;
    }
    proof {
        assert(chained(*square, zero, x@, x@, sum));
        assert(weighed(*weigh, x@, s, w@, out@));
    }
    out
}

/// The norm of each stretch of `x` that is as wide as the weights. What is left over is `blank`.
pub fn rmsnorm_rows<T: Copy, W: Copy, F: Fn(W, T, T) -> W, G: Fn(W) -> T, H: Fn(T, T, T) -> T>(
    x: &[T],
    w: &[T],
    blank: T,
    zero: W,
    square: &F,
    scale: &G,
    weigh: &H,
) -> (out: Vec<T>)
    requires
        total3(*square),
        total1(*scale),
        total3(*weigh),
        w@.len() > 0,
    ensures
        out@.len() == x@.len(),
        forall|r: int|
            0 <= r < x@.len() / w@.len() ==> #[trigger] normed(
                *square,
                zero,
                *scale,
                *weigh,
                part(x@, w@.len() as int, r),
                w@,
                part(out@, w@.len() as int, r),
            ),
        forall|i: int|
            x@.len() / w@.len() * w@.len() <= i < x@.len() ==> #[trigger] out@[i] == blank,
{
    let width: usize = w.len();
    let rows: usize = x.len() / width;
    let mut out: Vec<T> = Vec::with_capacity(x.len());
    let mut r: usize = 0;
    proof {
        vstd::arithmetic::div_mod::lemma_fundamental_div_mod(x@.len() as int, width as int);
        vstd::arithmetic::div_mod::lemma_mod_bound(x@.len() as int, width as int);
        assert(rows * width <= x@.len()) by (nonlinear_arith)
            requires
                x@.len() == width * rows + (x@.len() as int % width as int),
                x@.len() as int % width as int >= 0,
        ;
        assert(0 * width == 0) by (nonlinear_arith);
    }
    while r < rows
        invariant
            total3(*square),
            total1(*scale),
            total3(*weigh),
            width > 0,
            width == w@.len(),
            rows == x@.len() / w@.len(),
            rows * width <= x@.len(),
            r <= rows,
            out@.len() == r * width,
            forall|i: int|
                0 <= i < r ==> #[trigger] normed(
                    *square,
                    zero,
                    *scale,
                    *weigh,
                    part(x@, width as int, i),
                    w@,
                    part(out@, width as int, i),
                ),
        decreases rows - r,
    {
        proof {
            lemma_cell(r as int, rows as int, width as int, 0);
        }
        let ghost before = out@;
        let mut made = rmsnorm(part_of(x, width, r), w, zero, square, scale, weigh);
        let ghost new = made@;
        out.append(&mut made);
        proof {
            assert((r + 1) * width == r * width + width) by (nonlinear_arith);
            assert forall|i: int| 0 <= i < r + 1 implies #[trigger] normed(
                *square,
                zero,
                *scale,
                *weigh,
                part(x@, width as int, i),
                w@,
                part(out@, width as int, i),
            ) by {
                if i < r {
                    lemma_cell(i, r as int, width as int, 0);
                    assert(part(out@, width as int, i) =~= part(before, width as int, i));
                } else {
                    assert(part(out@, width as int, i) =~= new);
                }
            }
        }
        r += 1;
    }
    let ghost done = out@;
    while out.len() < x.len()
        invariant
            done.len() == rows * width,
            done.len() <= out@.len() <= x@.len(),
            forall|i: int| 0 <= i < done.len() ==> #[trigger] out@[i] == done[i],
            forall|i: int| done.len() <= i < out@.len() ==> #[trigger] out@[i] == blank,
        decreases x@.len() - out@.len(),
    {
        out.push(blank);
    }
    proof {
        assert forall|i: int| 0 <= i < rows implies #[trigger] normed(
            *square,
            zero,
            *scale,
            *weigh,
            part(x@, width as int, i),
            w@,
            part(out@, width as int, i),
        ) by {
            lemma_cell(i, rows as int, width as int, 0);
            assert(part(out@, width as int, i) =~= part(done, width as int, i));
        }
    }
    out
}

/// A row brought to a common length: what its squares add up to sets a scale.
pub open spec fn unit<T, W, F: Fn(W, T, T) -> W, G: Fn(W) -> T, H: Fn(T, T) -> T>(
    square: F,
    zero: W,
    scale: G,
    times: H,
    x: Seq<T>,
    out: Seq<T>,
) -> bool {
    exists|sum: W, s: T|
        #[trigger] chained(square, zero, x, x, sum) && #[trigger] scale.ensures((sum,), s) && scaled(
            times,
            x,
            s,
            out,
        )
}

/// Every number of a row, scaled.
pub open spec fn scaled<T, H: Fn(T, T) -> T>(times: H, x: Seq<T>, s: T, out: Seq<T>) -> bool {
    forall|i: int| 0 <= i < x.len() ==> times.ensures((x[i], s), #[trigger] out[i])
}

/// Brings every row of `dim` numbers to a common length.
pub fn l2_norm_rows<T: Copy, W: Copy, F: Fn(W, T, T) -> W, G: Fn(W) -> T, H: Fn(T, T) -> T>(
    data: &[T],
    dim: usize,
    zero: W,
    square: &F,
    scale: &G,
    times: &H,
) -> (out: Vec<T>)
    requires
        total3(*square),
        total1(*scale),
        total(*times),
        dim > 0,
        data@.len() % dim as nat == 0,
    ensures
        out@.len() == data@.len(),
        forall|r: int|
            0 <= r < data@.len() / dim as nat ==> #[trigger] unit(
                *square,
                zero,
                *scale,
                *times,
                strided(data@, r * dim, 1, dim as nat),
                strided(out@, r * dim, 1, dim as nat),
            ),
{
    let rows: usize = data.len() / dim;
    let mut out: Vec<T> = Vec::with_capacity(data.len());
    let mut r: usize = 0;
    proof {
        vstd::arithmetic::div_mod::lemma_fundamental_div_mod(data@.len() as int, dim as int);
        assert(rows * dim == data@.len()) by (nonlinear_arith)
            requires
                data@.len() == dim * rows + 0,
        ;
        assert(0 * dim == 0) by (nonlinear_arith);
    }
    while r < rows
        invariant
            total3(*square),
            total1(*scale),
            total(*times),
            dim > 0,
            r <= rows,
            rows * dim == data@.len(),
            out@.len() == r * dim,
            forall|q: int|
                0 <= q < r ==> #[trigger] unit(
                    *square,
                    zero,
                    *scale,
                    *times,
                    strided(data@, q * dim, 1, dim as nat),
                    strided(out@, q * dim, 1, dim as nat),
                ),
        decreases rows - r,
    {
        proof {
            lemma_cell(r as int, rows as int, dim as int, 0);
            assert(data@.len() == data.len());
        }
        let at: usize = r * dim;
        let ghost row = strided(data@, at as int, 1, dim as nat);
        let ghost before = out@;
        let sum = chain_strided(data, at, 1, data, at, 1, dim, zero, square);
        proof {
            assert(scale.requires((sum,)));
        }
        let s = scale(sum);
        let mut i: usize = 0;
        while i < dim
            invariant
                total(*times),
                i <= dim,
                at + dim <= data@.len(),
                row == strided(data@, at as int, 1, dim as nat),
                out@.len() == at + i,
                before.len() == at,
                forall|p: int| 0 <= p < at ==> #[trigger] out@[p] == before[p],
                forall|j: int|
                    0 <= j < i ==> times.ensures((row[j], s), #[trigger] out@[at + j]),
            decreases dim - i,
        {
            let ghost prev = out@;
            proof {
                assert(data@.len() == data.len());
                assert(times.requires((row[i as int], s)));
            }
            let v = times(data[at + i], s);
            out.push(v);
            proof {
                assert forall|j: int| 0 <= j < i + 1 implies times.ensures(
                    (row[j], s),
                    #[trigger] out@[at + j],
                ) by {
                    if j < i {
                        assert(prev[at + j] == out@[at + j]);
                    }
                }
            }
            i += 1;
        }
        proof {
            assert((r + 1) * dim == at + dim) by (nonlinear_arith)
                requires
                    at == r * dim,
            ;
            let new = strided(out@, at as int, 1, dim as nat);
            assert forall|j: int| 0 <= j < row.len() implies times.ensures(
                (row[j], s),
                #[trigger] new[j],
            ) by {
                assert(new[j] == out@[at + j]);
            }
            assert(scaled(*times, row, s, new));
            assert(chained(*square, zero, row, row, sum));
            assert(unit(*square, zero, *scale, *times, row, new));
            assert forall|q: int| 0 <= q < r + 1 implies #[trigger] unit(
                *square,
                zero,
                *scale,
                *times,
                strided(data@, q * dim, 1, dim as nat),
                strided(out@, q * dim, 1, dim as nat),
            ) by {
                if q < r {
                    lemma_cell(q, r as int, dim as int, 0);
                    assert(strided(out@, q * dim, 1, dim as nat) =~= strided(
                        before,
                        q * dim,
                        1,
                        dim as nat,
                    ));
                }
            }
        }
        r += 1;
    }
    out
}

} // verus!
