//! Products of matrices.

use vstd::prelude::*;

use super::strides::{dot_strided, dots_to, lemma_cell, lemma_cells_differ, strided};
use super::sums::total;

verus! {

/// Element `j` of row `i` of a product of matrices, added onto what was there: row `i` of `a`,
/// `k` wide, with column `j` of `b`, `n` wide.
pub open spec fn multiplied<T, P, F: Fn(T, T) -> P, G: Fn(P, P) -> P, H: Fn(T, P) -> T>(
    times: F,
    zero: P,
    plus: G,
    onto: H,
    a: Seq<T>,
    b: Seq<T>,
    k: nat,
    n: int,
    i: int,
    j: int,
    before: Seq<T>,
    after: Seq<T>,
) -> bool {
    exists|sum: P|
        #[trigger] dots_to(times, plus, zero, strided(a, i * k, 1, k), strided(b, j, n, k), sum)
            && onto.ensures((before[i * n + j], sum), after[i * n + j])
}

/// Adds the product of two matrices to a third, element by element: row `i` of `a`, which is `m`
/// by `k`, with column `j` of `b`, which is `k` by `n`. Each element is a sum by pairs.
pub fn matmul_acc<T: Copy, P: Copy, F: Fn(T, T) -> P, G: Fn(P, P) -> P, H: Fn(T, P) -> T>(
    acc: &mut Vec<T>,
    a: &[T],
    b: &[T],
    m: usize,
    k: usize,
    n: usize,
    times: &F,
    zero: P,
    plus: &G,
    onto: &H,
)
    requires
        total(*times),
        total(*plus),
        total(*onto),
        a@.len() == m * k,
        b@.len() == k * n,
        old(acc)@.len() == m * n,
    ensures
        final(acc)@.len() == m * n,
        forall|i: int, j: int|
            0 <= i < m && 0 <= j < n ==> #[trigger] multiplied(
                *times,
                zero,
                *plus,
                *onto,
                a@,
                b@,
                k as nat,
                n as int,
                i,
                j,
                old(acc)@,
                final(acc)@,
            ),
{
    let mut i: usize = 0;
    while i < m
        invariant
            total(*times),
            total(*plus),
            total(*onto),
            i <= m,
            a@.len() == m * k,
            b@.len() == k * n,
            acc@.len() == m * n,
            old(acc)@.len() == m * n,
            forall|p: int| i * n <= p < m * n ==> #[trigger] acc@[p] == old(acc)@[p],
            forall|r: int, c: int|
                0 <= r < i && 0 <= c < n ==> #[trigger] multiplied(
                    *times,
                    zero,
                    *plus,
                    *onto,
                    a@,
                    b@,
                    k as nat,
                    n as int,
                    r,
                    c,
                    old(acc)@,
                    acc@,
                ),
        decreases m - i,
    {
        let mut j: usize = 0;
        while j < n
            invariant
                total(*times),
                total(*plus),
                total(*onto),
                i < m,
                j <= n,
                a@.len() == m * k,
                b@.len() == k * n,
                acc@.len() == m * n,
                old(acc)@.len() == m * n,
                forall|p: int| i * n + j <= p < m * n ==> #[trigger] acc@[p] == old(acc)@[p],
                forall|r: int, c: int|
                    (0 <= r < i && 0 <= c < n) || (r == i && 0 <= c < j) ==> #[trigger] multiplied(
                        *times,
                        zero,
                        *plus,
                        *onto,
                        a@,
                        b@,
                        k as nat,
                        n as int,
                        r,
                        c,
                        old(acc)@,
                        acc@,
                    ),
            decreases n - j,
        {
            proof {
                lemma_cell(i as int, m as int, k as int, 0);
                lemma_cell(i as int, m as int, n as int, j as int);
                assert(k > 0 ==> j + (k - 1) * n < k * n) by (nonlinear_arith)
                    requires
                        0 <= j < n,
                ;
                assert(a@.len() == a.len() && acc@.len() == acc.len());
            }
            let sum = dot_strided(a, i * k, 1, b, j, n, k, times, zero, plus);
            let at: usize = i * n + j;
            proof {
                assert(onto.requires((acc@[at as int], sum)));
            }
            let ghost before = acc@;
            let new = onto(acc[at], sum);
            acc.set(at, new);
            proof {
                assert forall|r: int, c: int|
                    (0 <= r < i && 0 <= c < n) || (r == i && 0 <= c < j + 1) implies #[trigger] multiplied(
                        *times,
                        zero,
                        *plus,
                        *onto,
                        a@,
                        b@,
                        k as nat,
                        n as int,
                        r,
                        c,
                        old(acc)@,
                        acc@,
                    ) by {
                    if r == i && c == j {
                        assert(dots_to(
                            *times,
                            *plus,
                            zero,
                            strided(a@, r * k, 1, k as nat),
                            strided(b@, c, n as int, k as nat),
                            sum,
                        ));
                    } else {
                        lemma_cells_differ(r, c, i as int, j as int, n as int);
                        lemma_cell(r, m as int, n as int, c);
                        assert(acc@[r * n + c] == before[r * n + c]);
                        assert(multiplied(
                            *times,
                            zero,
                            *plus,
                            *onto,
                            a@,
                            b@,
                            k as nat,
                            n as int,
                            r,
                            c,
                            old(acc)@,
                            before,
                        ));
                    }
                }
            }
            j += 1;
        }
        proof {
            assert((i + 1) * n == i * n + n) by (nonlinear_arith);
        }
        i += 1;
    }
}

} // verus!
