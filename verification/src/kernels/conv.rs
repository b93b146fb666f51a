//! Convolution along rows.

use vstd::prelude::*;

use super::strides::{chain_strided, chained, lemma_cell, strided, total3};

verus! {

/// A convolution along the rows of `x`, channel by channel: `taps` rows of `x` from row `t` on
/// with the rows of `kernel`, taken in one after the other.
pub open spec fn convolved<T, F: Fn(T, T, T) -> T>(
    mac: F,
    zero: T,
    x: Seq<T>,
    kernel: Seq<T>,
    taps: nat,
    channels: int,
    t: int,
    c: int,
    r: T,
) -> bool {
    chained(
        mac,
        zero,
        strided(x, t * channels + c, channels, taps),
        strided(kernel, c, channels, taps),
        r,
    )
}

/// A convolution along the rows of `x`, channel by channel.
pub fn ssm_conv<T: Copy, F: Fn(T, T, T) -> T>(
    x: &[T],
    kernel: &[T],
    taps: usize,
    channels: usize,
    zero: T,
    mac: &F,
) -> (out: Vec<T>)
    requires
        total3(*mac),
        channels > 0,
        taps > 0,
        x@.len() % channels as nat == 0,
        taps <= x@.len() / channels as nat,
        kernel@.len() == taps * channels,
    ensures
        ({
            let rows = x@.len() / channels as nat - taps + 1;
            &&& out@.len() == rows * channels
            &&& forall|t: int, c: int|
                0 <= t < rows && 0 <= c < channels ==> convolved(
                    *mac,
                    zero,
                    x@,
                    kernel@,
                    taps as nat,
                    channels as int,
                    t,
                    c,
                    #[trigger] out@[t * channels + c],
                )
        }),
{
    let all: usize = x.len() / channels;
    let rows: usize = all - (taps - 1);
    let mut out: Vec<T> = Vec::new();
    let mut t: usize = 0;
    proof {
        vstd::arithmetic::div_mod::lemma_fundamental_div_mod(x@.len() as int, channels as int);
        assert(all * channels == x@.len()) by (nonlinear_arith)
            requires
                x@.len() == channels * all + 0,
        ;
        assert(0 * channels == 0) by (nonlinear_arith);
    }
    while t < rows
        invariant
            total3(*mac),
            channels > 0,
            taps > 0,
            all * channels == x@.len(),
            kernel@.len() == taps * channels,
            rows == all - (taps - 1),
            t <= rows,
            out@.len() == t * channels,
            forall|u: int, c: int|
                0 <= u < t && 0 <= c < channels ==> convolved(
                    *mac,
                    zero,
                    x@,
                    kernel@,
                    taps as nat,
                    channels as int,
                    u,
                    c,
                    #[trigger] out@[u * channels + c],
                ),
        decreases rows - t,
    {
        let mut c: usize = 0;
        while c < channels
            invariant
                total3(*mac),
                channels > 0,
                taps > 0,
                all * channels == x@.len(),
                kernel@.len() == taps * channels,
                rows == all - (taps - 1),
                t < rows,
                c <= channels,
                out@.len() == t * channels + c,
                forall|u: int, d: int|
                    (0 <= u < t && 0 <= d < channels) || (u == t && 0 <= d < c) ==> convolved(
                        *mac,
                        zero,
                        x@,
                        kernel@,
                        taps as nat,
                        channels as int,
                        u,
                        d,
                        #[trigger] out@[u * channels + d],
                    ),
            decreases channels - c,
        {
            proof {
                lemma_cell(t as int, all as int, channels as int, c as int);
                assert(t * channels + c + (taps - 1) * channels < all * channels)
                    by (nonlinear_arith)
                    requires
                        0 <= t < all - (taps - 1),
                        0 <= c < channels,
                ;
                assert(c + (taps - 1) * channels < taps * channels) by (nonlinear_arith)
                    requires
                        0 <= c < channels,
                        taps >= 1,
                ;
                assert(x@.len() == x.len());
            }
            let ghost before = out@;
            let at: usize = t * channels + c;
            let v = chain_strided(x, at, channels, kernel, c, channels, taps, zero, mac);
            out.push(v);
            proof {
                assert forall|u: int, d: int|
                    (0 <= u < t && 0 <= d < channels) || (u == t && 0 <= d < c + 1) implies convolved(
                    *mac,
                    zero,
                    x@,
                    kernel@,
                    taps as nat,
                    channels as int,
                    u,
                    d,
                    #[trigger] out@[u * channels + d],
                ) by {
                    if u < t {
                        lemma_cell(u, t as int, channels as int, d);
                        assert(out@[u * channels + d] == before[u * channels + d]);
                    } else if d < c {
                        assert(out@[u * channels + d] == before[u * channels + d]);
                    }
                }
            }
            c += 1;
        }
        proof {
            assert((t + 1) * channels == t * channels + channels) by (nonlinear_arith);
        }
        t += 1;
    }
    out
}

} // verus!
