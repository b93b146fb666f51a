//! Rows and columns of numbers, their products, and sums taken in turn.

use vstd::prelude::*;

use super::sums::{pairwise_sum, sums_to, total};

verus! {

/// A change of one number that can always be made.
pub open spec fn total1<A, B, F: Fn(A) -> B>(f: F) -> bool {
    forall|a: A| #[trigger] f.requires((a,))
}

/// A combination of three numbers that can always be made.
pub open spec fn total3<A, B, C, D, F: Fn(A, B, C) -> D>(f: F) -> bool {
    forall|a: A, b: B, c: C| #[trigger] f.requires((a, b, c))
}

/// The `n` numbers from `from` on, `step` apart.
pub open spec fn strided<T>(s: Seq<T>, from: int, step: int, n: nat) -> Seq<T> {
    Seq::new(n, |i: int| s[from + i * step])
}

/// The `n` numbers from `from` on, `step` apart, are all there.
pub open spec fn reaches(len: int, from: int, step: int, n: int) -> bool {
    &&& 0 <= from
    &&& 0 < step
    &&& n > 0 ==> from + (n - 1) * step < len
}

proof fn lemma_reached(len: int, from: int, step: int, n: int, i: int)
    requires
        reaches(len, from, step, n),
        0 <= i < n,
    ensures
        0 <= i * step,
        from + i * step < len,
{
    assert(0 <= i * step && i * step <= (n - 1) * step) by (nonlinear_arith)
        requires
            0 <= i <= n - 1,
            0 < step,
    ;
}

/// Cell `c` of row `r` is inside a matrix of `rows` rows of `width` cells.
pub proof fn lemma_cell(r: int, rows: int, width: int, c: int)
    requires
        0 <= r < rows,
        0 <= c,
        0 <= width,
    ensures
        0 <= r * width,
        r * width + width <= rows * width,
        c < width ==> r * width + c < rows * width,
{
    assert(0 <= r * width && r * width + width <= rows * width) by (nonlinear_arith)
        requires
            0 <= r < rows,
            0 <= width,
    ;
}

/// Different cells have different places.
pub proof fn lemma_cells_differ(r: int, c: int, i: int, j: int, width: int)
    requires
        0 <= c < width,
        0 <= j < width,
        r != i || c != j,
    ensures
        r * width + c != i * width + j,
{
    if r * width + c == i * width + j {
        assert(r == i) by (nonlinear_arith)
            requires
                r * width + c == i * width + j,
                0 <= c < width,
                0 <= j < width,
        ;
    }
}

/// Part `i` of a row of parts of `size` numbers.
pub open spec fn part<T>(s: Seq<T>, size: int, i: int) -> Seq<T> {
    s.subrange(i * size, i * size + size)
}

pub(crate) fn part_of<T: Copy>(s: &[T], size: usize, i: usize) -> (res: &[T])
    requires
        i * size + size <= s@.len(),
    ensures
        res@ == part(s@, size as int, i as int),
        res@.len() == size,
{
    proof {
        assert(0 <= i * size) by (nonlinear_arith)
            requires
                i >= 0,
                size >= 0,
        ;
        assert(s@.len() == s.len());
    }
    let at: usize = i * size;
    vstd::slice::slice_subrange(s, at, at + size)
}

/// `prods` holds the products of the numbers of `a` and `b`, one by one.
pub open spec fn zipped<A, B, P, F: Fn(A, B) -> P>(
    times: F,
    a: Seq<A>,
    b: Seq<B>,
    prods: Seq<P>,
) -> bool {
    &&& prods.len() == a.len()
    &&& forall|i: int| 0 <= i < a.len() ==> times.ensures((a[i], b[i]), #[trigger] prods[i])
}

/// `r` is the sum by pairs of the products of `a` and `b`.
pub open spec fn dots_to<A, B, P, F: Fn(A, B) -> P, G: Fn(P, P) -> P>(
    times: F,
    plus: G,
    zero: P,
    a: Seq<A>,
    b: Seq<B>,
    r: P,
) -> bool {
    exists|prods: Seq<P>| #[trigger] zipped(times, a, b, prods) && sums_to(plus, zero, prods, r)
}

/// The sum by pairs of the products of `n` numbers of `a` and of `b`.
pub(crate) fn dot_strided<A: Copy, B: Copy, P: Copy, F: Fn(A, B) -> P, G: Fn(P, P) -> P>(
    a: &[A],
    a_from: usize,
    a_step: usize,
    b: &[B],
    b_from: usize,
    b_step: usize,
    n: usize,
    times: &F,
    zero: P,
    plus: &G,
) -> (res: P)
    requires
        total(*times),
        total(*plus),
        reaches(a@.len() as int, a_from as int, a_step as int, n as int),
        reaches(b@.len() as int, b_from as int, b_step as int, n as int),
    ensures
        dots_to(
            *times,
            *plus,
            zero,
            strided(a@, a_from as int, a_step as int, n as nat),
            strided(b@, b_from as int, b_step as int, n as nat),
            res,
        ),
{
    let ghost sa = strided(a@, a_from as int, a_step as int, n as nat);
    let ghost sb = strided(b@, b_from as int, b_step as int, n as nat);
    let mut prods: Vec<P> = Vec::with_capacity(n);
    let mut i: usize = 0;
    while i < n
        invariant
            total(*times),
            i <= n,
            reaches(a@.len() as int, a_from as int, a_step as int, n as int),
            reaches(b@.len() as int, b_from as int, b_step as int, n as int),
            sa == strided(a@, a_from as int, a_step as int, n as nat),
            sb == strided(b@, b_from as int, b_step as int, n as nat),
            prods@.len() == i,
            forall|j: int| 0 <= j < i ==> times.ensures((sa[j], sb[j]), #[trigger] prods@[j]),
        decreases n - i,
    {
        proof {
            lemma_reached(a@.len() as int, a_from as int, a_step as int, n as int, i as int);
            lemma_reached(b@.len() as int, b_from as int, b_step as int, n as int, i as int);
            assert(a@.len() == a.len() && b@.len() == b.len());
            assert(times.requires((sa[i as int], sb[i as int])));
        }
        let p = times(a[a_from + i * a_step], b[b_from + i * b_step]);
        prods.push(p);
        i += 1;
    }
    proof {
        assert(zipped(*times, sa, sb, prods@));
    }
    pairwise_sum(prods.as_slice(), zero, plus)
}

/// The sum by pairs of the products of two rows.
pub fn dot<A: Copy, B: Copy, P: Copy, F: Fn(A, B) -> P, G: Fn(P, P) -> P>(
    x: &[A],
    w: &[B],
    times: &F,
    zero: P,
    plus: &G,
) -> (res: P)
    requires
        total(*times),
        total(*plus),
        x@.len() == w@.len(),
    ensures
        dots_to(*times, *plus, zero, x@, w@, res),
{
    let res = dot_strided(x, 0, 1, w, 0, 1, x.len(), times, zero, plus);
    proof {
        assert(strided(x@, 0, 1, x@.len()) =~= x@);
        assert(strided(w@, 0, 1, x@.len()) =~= w@);
    }
    res
}

/// `r` is what comes of `p` when `x` and `y` are taken in.
pub open spec fn taken_in<W, A, B, F: Fn(W, A, B) -> W>(step: F, p: W, x: A, y: B, r: W) -> bool {
    step.ensures((p, x, y), r)
}

/// `r` is what comes of `start` when the numbers of `a` and `b` are taken in, one pair after the
/// other.
pub open spec fn chained<W, A, B, F: Fn(W, A, B) -> W>(
    step: F,
    start: W,
    a: Seq<A>,
    b: Seq<B>,
    r: W,
) -> bool
    decreases a.len(),
{
    if a.len() == 0 {
        r == start
    } else {
        exists|p: W|
            #[trigger] taken_in(step, p, a.last(), b.last(), r) && chained(
                step,
                start,
                a.drop_last(),
                b.drop_last(),
                p,
            )
    }
}

pub(crate) fn chain_strided<W: Copy, A: Copy, B: Copy, F: Fn(W, A, B) -> W>(
    a: &[A],
    a_from: usize,
    a_step: usize,
    b: &[B],
    b_from: usize,
    b_step: usize,
    n: usize,
    start: W,
    step: &F,
) -> (res: W)
    requires
        total3(*step),
        reaches(a@.len() as int, a_from as int, a_step as int, n as int),
        reaches(b@.len() as int, b_from as int, b_step as int, n as int),
    ensures
        chained(
            *step,
            start,
            strided(a@, a_from as int, a_step as int, n as nat),
            strided(b@, b_from as int, b_step as int, n as nat),
            res,
        ),
{
    let mut acc = start;
    let mut i: usize = 0;
    while i < n
        invariant
            total3(*step),
            i <= n,
            reaches(a@.len() as int, a_from as int, a_step as int, n as int),
            reaches(b@.len() as int, b_from as int, b_step as int, n as int),
            chained(
                *step,
                start,
                strided(a@, a_from as int, a_step as int, i as nat),
                strided(b@, b_from as int, b_step as int, i as nat),
                acc,
            ),
        decreases n - i,
    {
        let ghost before = acc;
        let ghost sa = strided(a@, a_from as int, a_step as int, (i + 1) as nat);
        let ghost sb = strided(b@, b_from as int, b_step as int, (i + 1) as nat);
        proof {
            lemma_reached(a@.len() as int, a_from as int, a_step as int, n as int, i as int);
            lemma_reached(b@.len() as int, b_from as int, b_step as int, n as int, i as int);
            assert(a@.len() == a.len() && b@.len() == b.len());
            assert(sa.drop_last() =~= strided(a@, a_from as int, a_step as int, i as nat));
            assert(sb.drop_last() =~= strided(b@, b_from as int, b_step as int, i as nat));
            assert(step.requires((acc, sa.last(), sb.last())));
        }
        acc = step(acc, a[a_from + i * a_step], b[b_from + i * b_step]);
        proof {
            assert(taken_in(*step, before, sa.last(), sb.last(), acc));
            assert(chained(*step, start, sa, sb, acc));
        }
        i += 1;
    }
    acc
}

/// Takes in the numbers of two rows, one pair after the other.
pub fn chain<W: Copy, A: Copy, B: Copy, F: Fn(W, A, B) -> W>(
    a: &[A],
    b: &[B],
    start: W,
    step: &F,
) -> (res: W)
    requires
        total3(*step),
        a@.len() == b@.len(),
    ensures
        chained(*step, start, a@, b@, res),
{
    let res = chain_strided(a, 0, 1, b, 0, 1, a.len(), start, step);
    proof {
        assert(strided(a@, 0, 1, a@.len()) =~= a@);
        assert(strided(b@, 0, 1, a@.len()) =~= b@);
    }
    res
}

} // verus!
