//! Shares of numbers in their sum.

use vstd::prelude::*;

use super::rows::{combine_all, combined, map_all, mapped};
use super::strides::{chain, chained, total1, total3};
use super::sums::{pairwise_sum, sums_to, total};

verus! {

/// Shares of numbers in their sum: the greatest is found first, every number grows from its
/// distance to it, the sum is made by pairs of the widened numbers, and each number is divided by
/// it.
pub open spec fn shared<
    T,
    W,
    P: Fn(T, T, T) -> T,
    E: Fn(T, T) -> T,
    V: Fn(T) -> W,
    G: Fn(W, W) -> W,
    H: Fn(T, W) -> T,
>(
    peak: P,
    low: T,
    grow: E,
    widen: V,
    zero: W,
    plus: G,
    divide: H,
    x: Seq<T>,
    out: Seq<T>,
) -> bool {
    exists|max: T, e: Seq<T>, wide: Seq<W>, sum: W|
        #[trigger] chained(peak, low, x, x, max) && #[trigger] combined(grow, x, max, e)
            && #[trigger] mapped(widen, e, wide) && #[trigger] sums_to(plus, zero, wide, sum)
            && combined(divide, e, sum, out)
}

/// Shares of numbers in their sum.
pub fn softmax<
    T: Copy,
    W: Copy,
    P: Fn(T, T, T) -> T,
    E: Fn(T, T) -> T,
    V: Fn(T) -> W,
    G: Fn(W, W) -> W,
    H: Fn(T, W) -> T,
>(
    x: &[T],
    low: T,
    peak: &P,
    grow: &E,
    widen: &V,
    zero: W,
    plus: &G,
    divide: &H,
) -> (out: Vec<T>)
    requires
        total3(*peak),
        total(*grow),
        total1(*widen),
        total(*plus),
        total(*divide),
    ensures
        shared(*peak, low, *grow, *widen, zero, *plus, *divide, x@, out@),
        out@.len() == x@.len(),
{
    let max = chain(x, x, low, peak);
    let e = combine_all(x, max, grow);
    let wide = map_all(e.as_slice(), widen);
    let sum = pairwise_sum(wide.as_slice(), zero, plus);
    let out = combine_all(e.as_slice(), sum, divide);
    proof {
        assert(chained(*peak, low, x@, x@, max));
        assert(combined(*grow, x@, max, e@));
        assert(mapped(*widen, e@, wide@));
        assert(sums_to(*plus, zero, wide@, sum));
    }
    out
}

} // verus!
