//! What the kernels compute, where the arithmetic that is handed to them is exact.
//!
//! Numbers are taken by their values. A law here asks that each operation is exact on values, and
//! says which sum of products then comes out.

use vstd::prelude::*;

use super::attention::{all_attended, all_scored, attended, head_attends, kv_head, scored};
use super::conv::convolved;
use super::delta::{
    column, delta_step, head_step, lack_of, lacking, read_at, read_out, updated,
};
use super::matmul::multiplied;
use super::norms::{normed, scaled, unit, weighed};
use super::rows::{combined, mapped};
use super::softmax::shared;
use super::strides::{chained, dots_to, part, strided, taken_in, zipped};
use super::sums::{paired, sums_to};

verus! {

/// The sum of the first `n` values of a function.
pub open spec fn sum_of(f: spec_fn(int) -> int, n: nat) -> int
    decreases n,
{
    if n == 0 {
        0
    } else {
        sum_of(f, (n - 1) as nat) + f(n - 1)
    }
}

/// Sums of equal values are equal.
pub proof fn lemma_sums_agree(f: spec_fn(int) -> int, g: spec_fn(int) -> int, n: nat)
    requires
        forall|i: int| 0 <= i < n ==> #[trigger] f(i) == g(i),
    ensures
        sum_of(f, n) == sum_of(g, n),
    decreases n,
{
    if n > 0 {
        lemma_sums_agree(f, g, (n - 1) as nat);
    }
}

/// Two numbers are added exactly.
pub open spec fn adds<W, G: Fn(W, W) -> W>(plus: G, vw: spec_fn(W) -> int) -> bool {
    forall|a: W, b: W, c: W| #[trigger] plus.ensures((a, b), c) ==> vw(c) == vw(a) + vw(b)
}

/// Two numbers are multiplied exactly.
pub open spec fn multiplies<A, B, P, F: Fn(A, B) -> P>(
    times: F,
    va: spec_fn(A) -> int,
    vb: spec_fn(B) -> int,
    vp: spec_fn(P) -> int,
) -> bool {
    forall|a: A, b: B, c: P| #[trigger] times.ensures((a, b), c) ==> vp(c) == va(a) * vb(b)
}

/// A product is added onto a sum exactly.
pub open spec fn takes_in<W, A, B, F: Fn(W, A, B) -> W>(
    mac: F,
    vw: spec_fn(W) -> int,
    va: spec_fn(A) -> int,
    vb: spec_fn(B) -> int,
) -> bool {
    forall|s: W, a: A, b: B, r: W| #[trigger]
        mac.ensures((s, a, b), r) ==> vw(r) == vw(s) + va(a) * vb(b)
}

/// A number goes over to another form with its value.
pub open spec fn keeps<A, B, F: Fn(A) -> B>(
    f: F,
    va: spec_fn(A) -> int,
    vb: spec_fn(B) -> int,
) -> bool {
    forall|a: A, b: B| #[trigger] f.ensures((a,), b) ==> vb(b) == va(a)
}

/// Taking in pairs one after the other adds up all their products.
pub proof fn law_chain_is_sum_of_products<W, A, B, F: Fn(W, A, B) -> W>(
    mac: F,
    vw: spec_fn(W) -> int,
    va: spec_fn(A) -> int,
    vb: spec_fn(B) -> int,
    start: W,
    a: Seq<A>,
    b: Seq<B>,
    r: W,
)
    requires
        takes_in(mac, vw, va, vb),
        a.len() == b.len(),
        chained(mac, start, a, b, r),
    ensures
        vw(r) == vw(start) + sum_of(|i: int| va(a[i]) * vb(b[i]), a.len()),
    decreases a.len(),
{
    let f = |i: int| va(a[i]) * vb(b[i]);
    if a.len() > 0 {
        let p = choose|p: W|
            #[trigger] taken_in(mac, p, a.last(), b.last(), r) && chained(
                mac,
                start,
                a.drop_last(),
                b.drop_last(),
                p,
            );
        law_chain_is_sum_of_products(mac, vw, va, vb, start, a.drop_last(), b.drop_last(), p);
        let g = |i: int| va(a.drop_last()[i]) * vb(b.drop_last()[i]);
        lemma_sums_agree(f, g, (a.len() - 1) as nat);
        assert(mac.ensures((p, a.last(), b.last()), r));
        assert(f(a.len() - 1) == va(a.last()) * vb(b.last()));
    }
}

proof fn lemma_pairs_keep_sum<T, F: Fn(T, T) -> T>(
    plus: F,
    v: spec_fn(T) -> int,
    level: Seq<T>,
    next: Seq<T>,
    k: nat,
)
    requires
        adds(plus, v),
        paired(plus, level, next),
        k <= level.len() / 2,
    ensures
        sum_of(|i: int| v(next[i]), k) == sum_of(|i: int| v(level[i]), 2 * k),
    decreases k,
{
    let f = |i: int| v(next[i]);
    let g = |i: int| v(level[i]);
    if k > 0 {
        lemma_pairs_keep_sum(plus, v, level, next, (k - 1) as nat);
        let j = k - 1;
        assert(plus.ensures((level[2 * j], level[2 * j + 1]), next[j]));
        assert(sum_of(g, (2 * k) as nat) == sum_of(g, (2 * k - 1) as nat) + g(2 * k - 1));
        assert(sum_of(g, (2 * k - 1) as nat) == sum_of(g, (2 * k - 2) as nat) + g(2 * k - 2));
        assert(sum_of(f, k) == sum_of(f, (k - 1) as nat) + f(k - 1));
    }
}

/// A sum by pairs is the sum.
pub proof fn law_sum_by_pairs_is_the_sum<T, F: Fn(T, T) -> T>(
    plus: F,
    v: spec_fn(T) -> int,
    zero: T,
    vals: Seq<T>,
    r: T,
)
    requires
        adds(plus, v),
        v(zero) == 0,
        sums_to(plus, zero, vals, r),
    ensures
        v(r) == sum_of(|i: int| v(vals[i]), vals.len()),
    decreases vals.len(),
{
    let g = |i: int| v(vals[i]);
    reveal_with_fuel(sum_of, 2);
    if vals.len() > 1 {
        let next = choose|next: Seq<T>|
            #[trigger] paired(plus, vals, next) && next.len() < vals.len() && sums_to(
                plus,
                zero,
                next,
                r,
            );
        law_sum_by_pairs_is_the_sum(plus, v, zero, next, r);
        let k = (vals.len() / 2) as nat;
        lemma_pairs_keep_sum(plus, v, vals, next, k);
        let f = |i: int| v(next[i]);
        if vals.len() % 2 == 1 {
            assert(next.len() == k + 1);
            assert(vals.len() == 2 * k + 1);
            assert(sum_of(f, next.len()) == sum_of(f, k) + f(k as int));
            assert(sum_of(g, vals.len()) == sum_of(g, (2 * k) as nat) + g(2 * k as int));
        } else {
            assert(next.len() == k);
            assert(vals.len() == 2 * k);
        }
    }
}

/// A product of rows is the sum of the products of their numbers.
pub proof fn law_dot_is_sum_of_products<A, B, P, F: Fn(A, B) -> P, G: Fn(P, P) -> P>(
    times: F,
    plus: G,
    va: spec_fn(A) -> int,
    vb: spec_fn(B) -> int,
    vp: spec_fn(P) -> int,
    zero: P,
    a: Seq<A>,
    b: Seq<B>,
    r: P,
)
    requires
        multiplies(times, va, vb, vp),
        adds(plus, vp),
        vp(zero) == 0,
        dots_to(times, plus, zero, a, b, r),
    ensures
        vp(r) == sum_of(|i: int| va(a[i]) * vb(b[i]), a.len()),
{
    let prods = choose|prods: Seq<P>|
        #[trigger] zipped(times, a, b, prods) && sums_to(plus, zero, prods, r);
    law_sum_by_pairs_is_the_sum(plus, vp, zero, prods, r);
    lemma_sums_agree(
        |i: int| vp(prods[i]),
        |i: int| va(a[i]) * vb(b[i]),
        a.len(),
    );
}

/// A product of matrices: row `i` of the first with column `j` of the second, added onto what was
/// there.
pub proof fn law_matrix_product<T, P, F: Fn(T, T) -> P, G: Fn(P, P) -> P, H: Fn(T, P) -> T>(
    times: F,
    zero: P,
    plus: G,
    onto: H,
    v: spec_fn(T) -> int,
    vp: spec_fn(P) -> int,
    a: Seq<T>,
    b: Seq<T>,
    k: nat,
    n: int,
    i: int,
    j: int,
    before: Seq<T>,
    after: Seq<T>,
)
    requires
        multiplies(times, v, v, vp),
        adds(plus, vp),
        vp(zero) == 0,
        forall|x: T, s: P, r: T| #[trigger] onto.ensures((x, s), r) ==> v(r) == v(x) + vp(s),
        multiplied(times, zero, plus, onto, a, b, k, n, i, j, before, after),
    ensures
        v(after[i * n + j]) == v(before[i * n + j]) + sum_of(
            |p: int| v(a[i * k + p]) * v(b[p * n + j]),
            k,
        ),
{
    let ra = strided(a, i * k, 1, k);
    let cb = strided(b, j, n, k);
    let sum = choose|sum: P|
        #[trigger] dots_to(times, plus, zero, ra, cb, sum) && onto.ensures(
            (before[i * n + j], sum),
            after[i * n + j],
        );
    law_dot_is_sum_of_products(times, plus, v, v, vp, zero, ra, cb, sum);
    let f = |p: int| v(ra[p]) * v(cb[p]);
    let g = |p: int| v(a[i * k + p]) * v(b[p * n + j]);
    assert forall|p: int| 0 <= p < k implies #[trigger] f(p) == g(p) by {
        assert(i * k + p * 1 == i * k + p);
        assert(j + p * n == p * n + j);
    }
    lemma_sums_agree(f, g, k);
}

/// A convolution: in channel `c`, row `t + p` of the window with row `p` of the kernel.
pub proof fn law_convolution<T, F: Fn(T, T, T) -> T>(
    mac: F,
    v: spec_fn(T) -> int,
    zero: T,
    x: Seq<T>,
    kernel: Seq<T>,
    taps: nat,
    channels: int,
    t: int,
    c: int,
    r: T,
)
    requires
        takes_in(mac, v, v, v),
        v(zero) == 0,
        convolved(mac, zero, x, kernel, taps, channels, t, c, r),
    ensures
        v(r) == sum_of(
            |p: int| v(x[(t + p) * channels + c]) * v(kernel[p * channels + c]),
            taps,
        ),
{
    let a = strided(x, t * channels + c, channels, taps);
    let b = strided(kernel, c, channels, taps);
    law_chain_is_sum_of_products(mac, v, v, v, zero, a, b, r);
    let f = |p: int| v(a[p]) * v(b[p]);
    let g = |p: int| v(x[(t + p) * channels + c]) * v(kernel[p * channels + c]);
    assert forall|p: int| 0 <= p < taps implies #[trigger] f(p) == g(p) by {
        assert(t * channels + c + p * channels == (t + p) * channels + c) by (nonlinear_arith);
        assert(c + p * channels == p * channels + c);
    }
    lemma_sums_agree(f, g, taps);
}

/// The score of a token: the query with the head's stretch of that token's row of keys.
pub proof fn law_score<T, W, F: Fn(T, T) -> W, G: Fn(W, W) -> W, N: Fn(W) -> T>(
    times: F,
    plus: G,
    zero: W,
    narrow: N,
    v: spec_fn(T) -> int,
    vw: spec_fn(W) -> int,
    q: Seq<T>,
    keys: Seq<T>,
    row: int,
    from: int,
    p: int,
    score: T,
)
    requires
        multiplies(times, v, v, vw),
        adds(plus, vw),
        vw(zero) == 0,
        keeps(narrow, vw, v),
        scored(times, plus, zero, narrow, q, keys, row, from, p, score),
    ensures
        v(score) == sum_of(|i: int| v(q[i]) * v(keys[p * row + from + i]), q.len()),
{
    let k = strided(keys, p * row + from, 1, q.len());
    let sum = choose|sum: W|
        #[trigger] dots_to(times, plus, zero, q, k, sum) && narrow.ensures((sum,), score);
    law_dot_is_sum_of_products(times, plus, v, v, vw, zero, q, k, sum);
    let f = |i: int| v(q[i]) * v(k[i]);
    let g = |i: int| v(q[i]) * v(keys[p * row + from + i]);
    assert forall|i: int| 0 <= i < q.len() implies #[trigger] f(i) == g(i) by {
        assert(p * row + from + i * 1 == p * row + from + i);
    }
    lemma_sums_agree(f, g, q.len());
}

/// Number `i` of what is attended to: over the tokens, the share of each with that number of its
/// values.
pub proof fn law_weighing<T, W, M: Fn(W, T, T) -> W, N: Fn(W) -> T>(
    mac: M,
    zero: W,
    narrow: N,
    v: spec_fn(T) -> int,
    vw: spec_fn(W) -> int,
    shares: Seq<T>,
    values: Seq<T>,
    row: int,
    from: int,
    i: int,
    r: T,
)
    requires
        takes_in(mac, vw, v, v),
        vw(zero) == 0,
        keeps(narrow, vw, v),
        attended(mac, zero, narrow, shares, values, row, from, i, r),
    ensures
        v(r) == sum_of(|p: int| v(shares[p]) * v(values[p * row + from + i]), shares.len()),
{
    let col = strided(values, from + i, row, shares.len());
    let sum = choose|sum: W|
        #[trigger] chained(mac, zero, shares, col, sum) && narrow.ensures((sum,), r);
    law_chain_is_sum_of_products(mac, vw, v, v, zero, shares, col, sum);
    let f = |p: int| v(shares[p]) * v(col[p]);
    let g = |p: int| v(shares[p]) * v(values[p * row + from + i]);
    assert forall|p: int| 0 <= p < shares.len() implies #[trigger] f(p) == g(p) by {
        assert(from + i + p * row == p * row + from + i);
    }
    lemma_sums_agree(f, g, shares.len());
}

proof fn lemma_column_sum<T, W, M: Fn(W, T, T) -> W>(
    mac: M,
    zero: W,
    v: spec_fn(T) -> int,
    vw: spec_fn(W) -> int,
    m: Seq<T>,
    k: Seq<T>,
    j: int,
    sum: W,
)
    requires
        takes_in(mac, vw, v, v),
        vw(zero) == 0,
        chained(mac, zero, column(m, k.len(), j), k, sum),
    ensures
        vw(sum) == sum_of(|p: int| v(m[p * k.len() + j]) * v(k[p]), k.len()),
{
    let col = column(m, k.len(), j);
    law_chain_is_sum_of_products(mac, vw, v, v, zero, col, k, sum);
    let f = |p: int| v(col[p]) * v(k[p]);
    let g = |p: int| v(m[p * k.len() + j]) * v(k[p]);
    assert forall|p: int| 0 <= p < k.len() implies #[trigger] f(p) == g(p) by {
        assert(j + p * k.len() == p * k.len() + j);
    }
    lemma_sums_agree(f, g, k.len());
}

/// The delta rule: a faded state gives, by the key, a guess at each value; the share of what the
/// guess lacks is written back by the key; and the new state is read out by the query.
pub proof fn law_delta_rule<
    T,
    W,
    C,
    D: Fn(T, C) -> T,
    M: Fn(W, T, T) -> W,
    E: Fn(C, T, W) -> T,
    U: Fn(T, T, T) -> T,
    O: Fn(W) -> T,
>(
    fade: D,
    mac: M,
    zero: W,
    lack: E,
    add_share: U,
    finish: O,
    v: spec_fn(T) -> int,
    vw: spec_fn(W) -> int,
    rate: spec_fn(C) -> int,
    share: spec_fn(C) -> int,
    c: C,
    state: Seq<T>,
    q: Seq<T>,
    k: Seq<T>,
    val: Seq<T>,
    next: Seq<T>,
    out: Seq<T>,
    i: int,
    j: int,
)
    requires
        forall|s: T, c: C, r: T| #[trigger] fade.ensures((s, c), r) ==> v(r) == v(s) * rate(c),
        takes_in(mac, vw, v, v),
        vw(zero) == 0,
        forall|c: C, x: T, s: W, r: T| #[trigger]
            lack.ensures((c, x, s), r) ==> v(r) == (v(x) - vw(s)) * share(c),
        takes_in(add_share, v, v, v),
        keeps(finish, vw, v),
        q.len() == k.len(),
        state.len() == k.len() * k.len(),
        0 <= i < k.len(),
        0 <= j < k.len(),
        delta_step(fade, mac, zero, lack, add_share, finish, c, state, q, k, val, next, out),
    ensures
        ({
            let dim = k.len() as int;
            let guess = sum_of(|p: int| v(state[p * dim + j]) * rate(c) * v(k[p]), k.len());
            &&& v(next[i * dim + j]) == v(state[i * dim + j]) * rate(c) + v(k[i]) * ((v(val[j])
                - guess) * share(c))
            &&& v(out[j]) == sum_of(|p: int| v(next[p * dim + j]) * v(q[p]), k.len())
        }),
{
    let dim = k.len() as int;
    let (mid, d) = choose|mid: Seq<T>, d: Seq<T>|
        #[trigger] combined(fade, state, c, mid) && #[trigger] lacking(
            mac,
            zero,
            lack,
            c,
            mid,
            k,
            val,
            d,
        ) && updated(add_share, mid, k, d, next) && read_out(mac, zero, finish, next, q, out);
    assert forall|a: int| 0 <= a < dim implies 0 <= #[trigger] (a * dim + j) < state.len() by {
        assert(0 <= a * dim + j < dim * dim) by (nonlinear_arith)
            requires
                0 <= a < dim,
                0 <= j < dim,
        ;
    }
    assert(lack_of(mac, zero, lack, c, mid, k, j, val[j], d[j]));
    let sum = choose|sum: W|
        #[trigger] chained(mac, zero, column(mid, k.len(), j), k, sum) && lack.ensures(
            (c, val[j], sum),
            d[j],
        );
    lemma_column_sum(mac, zero, v, vw, mid, k, j, sum);
    let f = |p: int| v(mid[p * k.len() + j]) * v(k[p]);
    let g = |p: int| v(state[p * dim + j]) * rate(c) * v(k[p]);
    assert forall|p: int| 0 <= p < k.len() implies #[trigger] f(p) == g(p) by {
        let at = p * dim + j;
        assert(0 <= at < state.len());
        assert(fade.ensures((state[at], c), mid[at]));
    }
    lemma_sums_agree(f, g, k.len());
    let at = i * dim + j;
    assert(0 <= at < state.len());
    assert(fade.ensures((state[at], c), mid[at]));
    assert(add_share.ensures((mid[at], k[i], d[j]), next[i * dim + j]));
    assert(read_at(mac, zero, finish, next, q, j, out[j]));
    let read = choose|sum: W|
        #[trigger] chained(mac, zero, column(next, q.len(), j), q, sum) && finish.ensures(
            (sum,),
            out[j],
        );
    lemma_column_sum(mac, zero, v, vw, next, q, j, read);
}

/// A head of several makes the step that it would make alone, with its own state, values, decay
/// and share, and with the queries and keys of head `m`, where `h` is `m` and a multiple of the
/// number of query heads. So value heads that lie that number apart share queries and keys, and
/// the first ones take their own.
pub proof fn law_value_heads_take_query_heads_in_turn<
    T,
    W,
    C,
    R: Fn(T, T) -> C,
    D: Fn(T, C) -> T,
    M: Fn(W, T, T) -> W,
    E: Fn(C, T, W) -> T,
    U: Fn(T, T, T) -> T,
    O: Fn(W) -> T,
>(
    ready: R,
    fade: D,
    mac: M,
    zero: W,
    lack: E,
    add_share: U,
    finish: O,
    width: int,
    qk_heads: int,
    m: int,
    round: int,
    state: Seq<T>,
    q: Seq<T>,
    k: Seq<T>,
    v: Seq<T>,
    decay: Seq<T>,
    beta: Seq<T>,
    next: Seq<T>,
    out: Seq<T>,
)
    requires
        0 < width,
        0 <= m < qk_heads,
        0 <= round,
        ({
            let h = m + round * qk_heads;
            &&& h < decay.len()
            &&& decay.len() == beta.len()
            &&& state.len() == decay.len() * (width * width)
            &&& next.len() == state.len()
            &&& v.len() == decay.len() * width
            &&& out.len() == v.len()
            &&& q.len() == qk_heads * width
            &&& k.len() == q.len()
        }),
    ensures
        ({
            let h = m + round * qk_heads;
            let square = width * width;
            head_step(
                ready,
                fade,
                mac,
                zero,
                lack,
                add_share,
                finish,
                width,
                qk_heads,
                h,
                state,
                q,
                k,
                v,
                decay,
                beta,
                next,
                out,
            ) == head_step(
                ready,
                fade,
                mac,
                zero,
                lack,
                add_share,
                finish,
                width,
                1,
                0,
                state.subrange(h * square, (h + 1) * square),
                q.subrange(m * width, (m + 1) * width),
                k.subrange(m * width, (m + 1) * width),
                v.subrange(h * width, (h + 1) * width),
                seq![decay[h]],
                seq![beta[h]],
                next.subrange(h * square, (h + 1) * square),
                out.subrange(h * width, (h + 1) * width),
            )
        }),
{
    let h = m + round * qk_heads;
    let square = width * width;
    assert(0 <= round * qk_heads) by (nonlinear_arith)
        requires
            0 <= round,
            0 < qk_heads,
    ;
    assert(h % qk_heads == m) by {
        vstd::arithmetic::div_mod::lemma_mod_multiples_vanish(round, m, qk_heads);
        vstd::arithmetic::div_mod::lemma_small_mod(m as nat, qk_heads as nat);
        assert(round * qk_heads + m == qk_heads * round + m) by (nonlinear_arith);
    }
    assert(0 < square) by (nonlinear_arith)
        requires
            square == width * width,
            0 < width,
    ;
    lemma_parts_alone(state, square, h, decay.len() as int);
    lemma_parts_alone(next, square, h, decay.len() as int);
    lemma_parts_alone(v, width, h, decay.len() as int);
    lemma_parts_alone(out, width, h, decay.len() as int);
    lemma_parts_alone(q, width, m, qk_heads);
    lemma_parts_alone(k, width, m, qk_heads);
    let one = seq![decay[h]];
    let two = seq![beta[h]];
    assert(one[0] == decay[h] && two[0] == beta[h]);
    assert(0int % 1 == 0);
}

proof fn lemma_parts_alone<T>(s: Seq<T>, size: int, i: int, n: int)
    requires
        0 < size,
        0 <= i < n,
        s.len() == n * size,
    ensures
        part(s.subrange(i * size, (i + 1) * size), size, 0) == part(s, size, i),
{
    assert(0 <= i * size && (i + 1) * size <= n * size && i * size + size == (i + 1) * size)
        by (nonlinear_arith)
        requires
            0 < size,
            0 <= i < n,
    ;
    assert(0 * size == 0);
    assert(part(s.subrange(i * size, (i + 1) * size), size, 0) =~= part(s, size, i));
}

/// What the numbers of a stretch are to a head of keys or values: of every token's row, the
/// stretch of the head that serves it.
pub open spec fn stretch<T>(all: Seq<T>, tokens: int, width: int, kv_heads: int, kv: int) -> Seq<T> {
    Seq::new(
        (tokens * width) as nat,
        |i: int| all[(i / width) * (kv_heads * width) + kv * width + i % width],
    )
}

proof fn lemma_stretch<T>(all: Seq<T>, tokens: int, width: int, kv_heads: int, kv: int, p: int, i: int)
    requires
        0 <= p < tokens,
        0 <= i < width,
    ensures
        0 <= p * width + i < tokens * width,
        stretch(all, tokens, width, kv_heads, kv)[p * width + i] == all[p * (kv_heads * width) + kv
            * width + i],
{
    assert(0 <= p * width + i < tokens * width) by (nonlinear_arith)
        requires
            0 <= p < tokens,
            0 <= i < width,
    ;
    vstd::arithmetic::div_mod::lemma_fundamental_div_mod_converse(p * width + i, width, p, i);
}

/// A query head attends as it would alone, to the stretch of keys and values of head `kv`, which
/// serves it: of as many equal groups of neighbouring query heads as there are heads of keys and
/// values, the group that it lies in.
pub proof fn law_query_head_attends_by_its_group<
    T,
    W,
    F: Fn(T, T) -> W,
    G: Fn(W, W) -> W,
    N: Fn(W) -> T,
    P: Fn(T, T, T) -> T,
    E: Fn(T, T) -> T,
    V: Fn(T) -> W,
    H: Fn(T, W) -> T,
    M: Fn(W, T, T) -> W,
>(
    times: F,
    plus: G,
    zero: W,
    narrow: N,
    peak: P,
    low: T,
    grow: E,
    widen: V,
    divide: H,
    mac: M,
    tokens: int,
    width: int,
    kv_heads: int,
    group: int,
    kv: int,
    h: int,
    q: Seq<T>,
    keys: Seq<T>,
    values: Seq<T>,
    out: Seq<T>,
)
    requires
        0 < width,
        0 < group,
        0 <= kv < kv_heads,
        kv * group <= h < (kv + 1) * group,
        0 <= tokens,
        q.len() == kv_heads * group * width,
        out.len() == q.len(),
    ensures
        head_attends(
            times,
            plus,
            zero,
            narrow,
            peak,
            low,
            grow,
            widen,
            divide,
            mac,
            tokens,
            width,
            kv_heads * group,
            kv_heads,
            h,
            q,
            keys,
            values,
            out,
        ) == head_attends(
            times,
            plus,
            zero,
            narrow,
            peak,
            low,
            grow,
            widen,
            divide,
            mac,
            tokens,
            width,
            1,
            1,
            0,
            q.subrange(h * width, (h + 1) * width),
            stretch(keys, tokens, width, kv_heads, kv),
            stretch(values, tokens, width, kv_heads, kv),
            out.subrange(h * width, (h + 1) * width),
        ),
{
    let heads = kv_heads * group;
    let row = kv_heads * width;
    let from = kv * width;
    let q1 = q.subrange(h * width, (h + 1) * width);
    let out1 = out.subrange(h * width, (h + 1) * width);
    let keys1 = stretch(keys, tokens, width, kv_heads, kv);
    let values1 = stretch(values, tokens, width, kv_heads, kv);
    assert(0 <= h < heads) by (nonlinear_arith)
        requires
            heads == kv_heads * group,
            0 <= kv < kv_heads,
            0 < group,
            kv * group <= h < (kv + 1) * group,
    ;
    assert(heads / kv_heads == group) by {
        vstd::arithmetic::div_mod::lemma_div_multiples_vanish(group, kv_heads);
    }
    assert(kv_head(h, heads, kv_heads) == kv) by {
        let r = h - kv * group;
        assert(0 <= r < group && h == kv * group + r) by (nonlinear_arith)
            requires
                r == h - kv * group,
                kv * group <= h < (kv + 1) * group,
        ;
        vstd::arithmetic::div_mod::lemma_fundamental_div_mod_converse(h, group, kv, r);
    }
    assert(kv_head(0, 1, 1) == 0);
    assert(1 * width == width);
    assert(0 * width == 0);
    lemma_parts_alone(q, width, h, heads);
    lemma_parts_alone(out, width, h, heads);
    let qp = part(q, width, h);
    let op = part(out, width, h);
    assert(0 <= h * width && (h + 1) * width <= heads * width && h * width + width == (h + 1)
        * width) by (nonlinear_arith)
        requires
            0 <= h < heads,
            0 < width,
    ;
    assert(qp.len() == width && op.len() == width);
    assert forall|scores: Seq<T>| #[trigger]
        all_scored(times, plus, zero, narrow, qp, keys, tokens, row, from, scores) == all_scored(
            times,
            plus,
            zero,
            narrow,
            qp,
            keys1,
            tokens,
            width,
            0,
            scores,
        ) by {
        assert forall|p: int| 0 <= p < tokens implies strided(keys, p * row + from, 1, qp.len())
            == #[trigger] strided(keys1, p * width + 0, 1, qp.len()) by {
            assert forall|i: int| 0 <= i < qp.len() implies keys[p * row + from + i * 1]
                == #[trigger] keys1[p * width + 0 + i * 1] by {
                lemma_stretch(keys, tokens, width, kv_heads, kv, p, i);
            }
            assert(strided(keys, p * row + from, 1, qp.len()) =~= strided(
                keys1,
                p * width + 0,
                1,
                qp.len(),
            ));
        }
        assert forall|p: int, score: T| 0 <= p < tokens implies scored(
            times,
            plus,
            zero,
            narrow,
            qp,
            keys,
            row,
            from,
            p,
            score,
        ) == #[trigger] scored(times, plus, zero, narrow, qp, keys1, width, 0, p, score) by {
            assert(strided(keys, p * row + from, 1, qp.len()) == strided(
                keys1,
                p * width + 0,
                1,
                qp.len(),
            ));
        }
        if all_scored(times, plus, zero, narrow, qp, keys, tokens, row, from, scores) {
            assert forall|p: int| 0 <= p < tokens implies scored(
                times,
                plus,
                zero,
                narrow,
                qp,
                keys1,
                width,
                0,
                p,
                #[trigger] scores[p],
            ) by {
                assert(scored(times, plus, zero, narrow, qp, keys, row, from, p, scores[p]));
            }
        }
        if all_scored(times, plus, zero, narrow, qp, keys1, tokens, width, 0, scores) {
            assert forall|p: int| 0 <= p < tokens implies scored(
                times,
                plus,
                zero,
                narrow,
                qp,
                keys,
                row,
                from,
                p,
                #[trigger] scores[p],
            ) by {
                assert(scored(times, plus, zero, narrow, qp, keys1, width, 0, p, scores[p]));
            }
        }
    }
    assert forall|shares: Seq<T>| shares.len() == tokens implies #[trigger]
        all_attended(mac, zero, narrow, shares, values, row, from, width, op) == all_attended(
            mac,
            zero,
            narrow,
            shares,
            values1,
            width,
            0,
            width,
            op,
        ) by {
        assert forall|i: int| 0 <= i < width implies strided(values, from + i, row, shares.len())
            == #[trigger] strided(values1, 0 + i, width, shares.len()) by {
            assert forall|p: int| 0 <= p < shares.len() implies values[from + i + p * row]
                == #[trigger] values1[0 + i + p * width] by {
                lemma_stretch(values, tokens, width, kv_heads, kv, p, i);
                assert(from + i + p * row == p * row + from + i);
                assert(0 + i + p * width == p * width + i);
            }
            assert(strided(values, from + i, row, shares.len()) =~= strided(
                values1,
                0 + i,
                width,
                shares.len(),
            ));
        }
        assert forall|i: int, r: T| 0 <= i < width implies attended(
            mac,
            zero,
            narrow,
            shares,
            values,
            row,
            from,
            i,
            r,
        ) == #[trigger] attended(mac, zero, narrow, shares, values1, width, 0, i, r) by {
            assert(strided(values, from + i, row, shares.len()) == strided(
                values1,
                0 + i,
                width,
                shares.len(),
            ));
        }
        if all_attended(mac, zero, narrow, shares, values, row, from, width, op) {
            assert forall|i: int| 0 <= i < width implies attended(
                mac,
                zero,
                narrow,
                shares,
                values1,
                width,
                0,
                i,
                #[trigger] op[i],
            ) by {
                assert(attended(mac, zero, narrow, shares, values, row, from, i, op[i]));
            }
        }
        if all_attended(mac, zero, narrow, shares, values1, width, 0, width, op) {
            assert forall|i: int| 0 <= i < width implies attended(
                mac,
                zero,
                narrow,
                shares,
                values,
                row,
                from,
                i,
                #[trigger] op[i],
            ) by {
                assert(attended(mac, zero, narrow, shares, values1, width, 0, i, op[i]));
            }
        }
    }
    if head_attends(
        times, plus, zero, narrow, peak, low, grow, widen, divide, mac, tokens, width, heads, kv_heads, h, q, keys, values, out,
    ) {
        let (scores, shares) = choose|scores: Seq<T>, shares: Seq<T>|
            {
                &&& #[trigger] all_scored(
                    times, plus, zero, narrow, qp, keys, tokens, row, from, scores,
                )
                &&& #[trigger] shared(peak, low, grow, widen, zero, plus, divide, scores, shares)
                &&& all_attended(mac, zero, narrow, shares, values, row, from, width, op)
            };
        lemma_shares_len(peak, low, grow, widen, zero, plus, divide, scores, shares);
        assert(all_scored(times, plus, zero, narrow, qp, keys1, tokens, width, 0, scores));
        assert(all_attended(mac, zero, narrow, shares, values1, width, 0, width, op));
    }
    if head_attends(
        times, plus, zero, narrow, peak, low, grow, widen, divide, mac, tokens, width, 1, 1, 0, q1, keys1, values1, out1,
    ) {
        let (scores, shares) = choose|scores: Seq<T>, shares: Seq<T>|
            {
                &&& #[trigger] all_scored(
                    times, plus, zero, narrow, qp, keys1, tokens, width, 0, scores,
                )
                &&& #[trigger] shared(peak, low, grow, widen, zero, plus, divide, scores, shares)
                &&& all_attended(mac, zero, narrow, shares, values1, width, 0, width, op)
            };
        lemma_shares_len(peak, low, grow, widen, zero, plus, divide, scores, shares);
        assert(all_scored(times, plus, zero, narrow, qp, keys, tokens, row, from, scores));
        assert(all_attended(mac, zero, narrow, shares, values, row, from, width, op));
    }
}

proof fn lemma_shares_len<
    T,
    W,
    P: Fn(T, T, T) -> T,
    E: Fn(T, T) -> T,
    V: Fn(T) -> W,
    G: Fn(W, W) -> W,
    H: Fn(T, W) -> T,
>(
    peak: P,
    low: T,
    grow: E,
    widen: V,
    zero: W,
    plus: G,
    divide: H,
    x: Seq<T>,
    out: Seq<T>,
)
    requires
        shared(peak, low, grow, widen, zero, plus, divide, x, out),
    ensures
        out.len() == x.len(),
{
}

/// Pairs are taken in from the front to the back: a chain over joined rows goes on where the chain
/// over the first of them ended.
pub proof fn law_chain_goes_on<W, A, B, F: Fn(W, A, B) -> W>(
    step: F,
    start: W,
    a: Seq<A>,
    b: Seq<B>,
    c: Seq<A>,
    d: Seq<B>,
    r: W,
)
    requires
        a.len() == b.len(),
        c.len() == d.len(),
    ensures
        chained(step, start, a + c, b + d, r) <==> exists|p: W| #[trigger]
            chained(step, start, a, b, p) && chained(step, p, c, d, r),
        a.len() == 1 ==> (chained(step, start, a, b, r) <==> step.ensures((start, a[0], b[0]), r)),
    decreases c.len(),
{
    if a.len() == 1 {
        assert(a.last() == a[0] && b.last() == b[0]);
        assert(a.drop_last().len() == 0);
        if chained(step, start, a, b, r) {
            let p = choose|p: W|
                #[trigger] taken_in(step, p, a.last(), b.last(), r) && chained(
                    step,
                    start,
                    a.drop_last(),
                    b.drop_last(),
                    p,
                );
            assert(chained(step, start, a.drop_last(), b.drop_last(), p));
            assert(p == start);
        }
        if step.ensures((start, a[0], b[0]), r) {
            assert(taken_in(step, start, a.last(), b.last(), r));
            assert(chained(step, start, a.drop_last(), b.drop_last(), start));
        }
    }
    if c.len() == 0 {
        assert(a + c =~= a);
        assert(b + d =~= b);
        if chained(step, start, a, b, r) {
            assert(chained(step, r, c, d, r));
        }
    } else {
        assert((a + c).drop_last() =~= a + c.drop_last());
        assert((b + d).drop_last() =~= b + d.drop_last());
        assert((a + c).last() == c.last());
        assert((b + d).last() == d.last());
        if chained(step, start, a + c, b + d, r) {
            let m = choose|m: W|
                #[trigger] taken_in(step, m, (a + c).last(), (b + d).last(), r) && chained(
                    step,
                    start,
                    (a + c).drop_last(),
                    (b + d).drop_last(),
                    m,
                );
            law_chain_goes_on(step, start, a, b, c.drop_last(), d.drop_last(), m);
            let p = choose|p: W| #[trigger]
                chained(step, start, a, b, p) && chained(
                    step,
                    p,
                    c.drop_last(),
                    d.drop_last(),
                    m,
                );
            assert(taken_in(step, m, c.last(), d.last(), r));
            assert(chained(step, p, c, d, r));
        }
        if exists|p: W| #[trigger] chained(step, start, a, b, p) && chained(step, p, c, d, r) {
            let p = choose|p: W| #[trigger]
                chained(step, start, a, b, p) && chained(step, p, c, d, r);
            let m = choose|m: W|
                #[trigger] taken_in(step, m, c.last(), d.last(), r) && chained(
                    step,
                    p,
                    c.drop_last(),
                    d.drop_last(),
                    m,
                );
            law_chain_goes_on(step, start, a, b, c.drop_last(), d.drop_last(), m);
            assert(taken_in(step, m, (a + c).last(), (b + d).last(), r));
        }
    }
}

/// The greatest of numbers and `low`.
pub open spec fn is_greatest<T>(v: spec_fn(T) -> int, low: T, x: Seq<T>, max: T) -> bool {
    &&& v(max) >= v(low)
    &&& forall|i: int| 0 <= i < x.len() ==> v(max) >= v(#[trigger] x[i])
    &&& v(max) == v(low) || exists|i: int| 0 <= i < x.len() && v(#[trigger] x[i]) == v(max)
}

proof fn lemma_peak<T, P: Fn(T, T, T) -> T>(
    peak: P,
    v: spec_fn(T) -> int,
    low: T,
    x: Seq<T>,
    max: T,
)
    requires
        forall|m: T, a: T, b: T, r: T| #[trigger]
            peak.ensures((m, a, b), r) ==> v(r) == if v(a) > v(m) {
                v(a)
            } else {
                v(m)
            },
        chained(peak, low, x, x, max),
    ensures
        is_greatest(v, low, x, max),
    decreases x.len(),
{
    if x.len() > 0 {
        let p = choose|p: T|
            #[trigger] taken_in(peak, p, x.last(), x.last(), max) && chained(
                peak,
                low,
                x.drop_last(),
                x.drop_last(),
                p,
            );
        lemma_peak(peak, v, low, x.drop_last(), p);
        assert(peak.ensures((p, x.last(), x.last()), max));
        assert forall|i: int| 0 <= i < x.len() implies v(max) >= v(#[trigger] x[i]) by {
            if i < x.len() - 1 {
                assert(x.drop_last()[i] == x[i]);
            }
        }
        if v(x.last()) > v(p) {
            assert(v(x[x.len() - 1]) == v(max));
        } else if v(p) != v(low) {
            let i = choose|i: int| 0 <= i < x.drop_last().len() && v(#[trigger] x.drop_last()[i]) == v(p);
            assert(v(x[i]) == v(max));
        }
    }
}

/// Shares: every number grows from its distance to the greatest, and is divided by the sum of all
/// that have grown.
pub proof fn law_shares<
    T,
    W,
    P: Fn(T, T, T) -> T,
    E: Fn(T, T) -> T,
    V: Fn(T) -> W,
    G: Fn(W, W) -> W,
    H: Fn(T, W) -> T,
>(
    peak: P,
    low: T,
    grow: E,
    widen: V,
    zero: W,
    plus: G,
    divide: H,
    v: spec_fn(T) -> int,
    vw: spec_fn(W) -> int,
    x: Seq<T>,
    out: Seq<T>,
)
    requires
        forall|m: T, a: T, b: T, r: T| #[trigger]
            peak.ensures((m, a, b), r) ==> v(r) == if v(a) > v(m) {
                v(a)
            } else {
                v(m)
            },
        keeps(widen, v, vw),
        adds(plus, vw),
        vw(zero) == 0,
        shared(peak, low, grow, widen, zero, plus, divide, x, out),
    ensures
        out.len() == x.len(),
        exists|max: T, e: Seq<T>, sum: W|
            {
                &&& #[trigger] is_greatest(v, low, x, max)
                &&& #[trigger] combined(grow, x, max, e)
                &&& vw(sum) == sum_of(|i: int| v(e[i]), x.len())
                &&& #[trigger] combined(divide, e, sum, out)
            },
{
    let (max, e, wide, sum) = choose|max: T, e: Seq<T>, wide: Seq<W>, sum: W|
        #[trigger] chained(peak, low, x, x, max) && #[trigger] combined(grow, x, max, e)
            && #[trigger] mapped(widen, e, wide) && #[trigger] sums_to(plus, zero, wide, sum)
            && combined(divide, e, sum, out);
    lemma_peak(peak, v, low, x, max);
    law_sum_by_pairs_is_the_sum(plus, vw, zero, wide, sum);
    lemma_sums_agree(|i: int| vw(wide[i]), |i: int| v(e[i]), x.len());
    assert(combined(divide, e, sum, out));
}

/// A norm: the sum of the squares of a row sets the scale of each of its numbers, and each is
/// weighted by the weight of its place.
pub proof fn law_norm<T, W, F: Fn(W, T, T) -> W, G: Fn(W) -> T, H: Fn(T, T, T) -> T>(
    square: F,
    zero: W,
    scale: G,
    weigh: H,
    v: spec_fn(T) -> int,
    vw: spec_fn(W) -> int,
    x: Seq<T>,
    w: Seq<T>,
    out: Seq<T>,
)
    requires
        takes_in(square, vw, v, v),
        vw(zero) == 0,
        normed(square, zero, scale, weigh, x, w, out),
    ensures
        out.len() == x.len(),
        exists|sum: W, s: T|
            {
                &&& vw(sum) == sum_of(|i: int| v(x[i]) * v(x[i]), x.len())
                &&& #[trigger] scale.ensures((sum,), s)
                &&& forall|i: int|
                    0 <= i < x.len() ==> weigh.ensures((x[i], s, w[i]), #[trigger] out[i])
            },
{
    let (sum, s) = choose|sum: W, s: T|
        #[trigger] chained(square, zero, x, x, sum) && #[trigger] scale.ensures((sum,), s)
            && weighed(weigh, x, s, w, out);
    law_chain_is_sum_of_products(square, vw, v, v, zero, x, x, sum);
    assert(scale.ensures((sum,), s));
}

/// A row brought to a common length: the sum of its squares sets the scale of all its numbers.
pub proof fn law_unit<T, W, F: Fn(W, T, T) -> W, G: Fn(W) -> T, H: Fn(T, T) -> T>(
    square: F,
    zero: W,
    scale: G,
    times: H,
    v: spec_fn(T) -> int,
    vw: spec_fn(W) -> int,
    x: Seq<T>,
    out: Seq<T>,
)
    requires
        takes_in(square, vw, v, v),
        vw(zero) == 0,
        unit(square, zero, scale, times, x, out),
    ensures
        exists|sum: W, s: T|
            {
                &&& vw(sum) == sum_of(|i: int| v(x[i]) * v(x[i]), x.len())
                &&& #[trigger] scale.ensures((sum,), s)
                &&& forall|i: int|
                    0 <= i < x.len() ==> times.ensures((x[i], s), #[trigger] out[i])
            },
{
    let (sum, s) = choose|sum: W, s: T|
        #[trigger] chained(square, zero, x, x, sum) && #[trigger] scale.ensures((sum,), s)
            && scaled(times, x, s, out);
    law_chain_is_sum_of_products(square, vw, v, v, zero, x, x, sum);
    assert(scale.ensures((sum,), s));
}

/// What a head of attention computes: the score of every token is the head's query with that
/// token's key, the scores become shares, and each number that goes out is the sum over the tokens
/// of its share with that number of its value. Keys and values are those of head `kv`.
pub proof fn law_attention_head<
    T,
    W,
    F: Fn(T, T) -> W,
    G: Fn(W, W) -> W,
    N: Fn(W) -> T,
    P: Fn(T, T, T) -> T,
    E: Fn(T, T) -> T,
    V: Fn(T) -> W,
    H: Fn(T, W) -> T,
    M: Fn(W, T, T) -> W,
>(
    times: F,
    plus: G,
    zero: W,
    narrow: N,
    peak: P,
    low: T,
    grow: E,
    widen: V,
    divide: H,
    mac: M,
    v: spec_fn(T) -> int,
    vw: spec_fn(W) -> int,
    tokens: int,
    width: int,
    heads: int,
    kv_heads: int,
    h: int,
    q: Seq<T>,
    keys: Seq<T>,
    values: Seq<T>,
    out: Seq<T>,
)
    requires
        multiplies(times, v, v, vw),
        adds(plus, vw),
        vw(zero) == 0,
        keeps(narrow, vw, v),
        takes_in(mac, vw, v, v),
        0 < width,
        0 <= h < heads,
        0 <= tokens,
        q.len() == heads * width,
        out.len() == q.len(),
        head_attends(
            times,
            plus,
            zero,
            narrow,
            peak,
            low,
            grow,
            widen,
            divide,
            mac,
            tokens,
            width,
            heads,
            kv_heads,
            h,
            q,
            keys,
            values,
            out,
        ),
    ensures
        exists|scores: Seq<T>, shares: Seq<T>|
            {
                let from = kv_head(h, heads, kv_heads) * width;
                let row = kv_heads * width;
                &&& scores.len() == tokens
                &&& forall|p: int|
                    0 <= p < tokens ==> v(#[trigger] scores[p]) == sum_of(
                        |i: int| v(q[h * width + i]) * v(keys[p * row + from + i]),
                        width as nat,
                    )
                &&& #[trigger] shared(peak, low, grow, widen, zero, plus, divide, scores, shares)
                &&& forall|i: int|
                    0 <= i < width ==> v(#[trigger] out[h * width + i]) == sum_of(
                        |p: int| v(shares[p]) * v(values[p * row + from + i]),
                        tokens as nat,
                    )
            },
{
    let from = kv_head(h, heads, kv_heads) * width;
    let row = kv_heads * width;
    let qp = part(q, width, h);
    let op = part(out, width, h);
    assert(0 <= h * width && h * width + width <= heads * width) by (nonlinear_arith)
        requires
            0 <= h < heads,
            0 < width,
    ;
    assert(qp.len() == width && op.len() == width);
    let (scores, shares) = choose|scores: Seq<T>, shares: Seq<T>|
        {
            &&& #[trigger] all_scored(
                times,
                plus,
                zero,
                narrow,
                qp,
                keys,
                tokens,
                row,
                from,
                scores,
            )
            &&& #[trigger] shared(peak, low, grow, widen, zero, plus, divide, scores, shares)
            &&& all_attended(mac, zero, narrow, shares, values, row, from, width, op)
        };
    lemma_shares_len(peak, low, grow, widen, zero, plus, divide, scores, shares);
    assert forall|p: int| 0 <= p < tokens implies v(#[trigger] scores[p]) == sum_of(
        |i: int| v(q[h * width + i]) * v(keys[p * row + from + i]),
        width as nat,
    ) by {
        law_score(times, plus, zero, narrow, v, vw, qp, keys, row, from, p, scores[p]);
        lemma_sums_agree(
            |i: int| v(qp[i]) * v(keys[p * row + from + i]),
            |i: int| v(q[h * width + i]) * v(keys[p * row + from + i]),
            width as nat,
        );
    }
    assert forall|i: int| 0 <= i < width implies v(#[trigger] out[h * width + i]) == sum_of(
        |p: int| v(shares[p]) * v(values[p * row + from + i]),
        tokens as nat,
    ) by {
        assert(op[i] == out[h * width + i]);
        law_weighing(mac, zero, narrow, v, vw, shares, values, row, from, i, op[i]);
    }
    assert(shared(peak, low, grow, widen, zero, plus, divide, scores, shares));
}

/// `s` holds what is there before the first pair and after each: the pairs are taken in one after
/// the other, the first one first.
pub open spec fn in_turn<W, A, B, F: Fn(W, A, B) -> W>(
    step: F,
    start: W,
    a: Seq<A>,
    b: Seq<B>,
    s: Seq<W>,
    r: W,
) -> bool {
    &&& s.len() == a.len() + 1
    &&& s[0] == start
    &&& s[a.len() as int] == r
    &&& forall|i: int|
        0 <= i < a.len() ==> step.ensures((#[trigger] s[i], a[i], b[i]), s[i + 1])
}

/// A chain takes its pairs in one after the other, from the front to the back.
pub proof fn law_chain_takes_pairs_in_turn<W, A, B, F: Fn(W, A, B) -> W>(
    step: F,
    start: W,
    a: Seq<A>,
    b: Seq<B>,
    r: W,
)
    requires
        a.len() == b.len(),
        chained(step, start, a, b, r),
    ensures
        exists|s: Seq<W>| #[trigger] in_turn(step, start, a, b, s, r),
    decreases a.len(),
{
    if a.len() == 0 {
        assert(in_turn(step, start, a, b, seq![start], r));
    } else {
        let p = choose|p: W|
            #[trigger] taken_in(step, p, a.last(), b.last(), r) && chained(
                step,
                start,
                a.drop_last(),
                b.drop_last(),
                p,
            );
        law_chain_takes_pairs_in_turn(step, start, a.drop_last(), b.drop_last(), p);
        let front = choose|s: Seq<W>| #[trigger]
            in_turn(step, start, a.drop_last(), b.drop_last(), s, p);
        let s = front.push(r);
        let n = a.len() - 1;
        assert forall|i: int| 0 <= i < a.len() implies step.ensures(
            (#[trigger] s[i], a[i], b[i]),
            s[i + 1],
        ) by {
            if i < n {
                assert(step.ensures((front[i], a.drop_last()[i], b.drop_last()[i]), front[i + 1]));
            } else {
                assert(s[i] == p);
            }
        }
        assert(in_turn(step, start, a, b, s, r));
    }
}

} // verus!
