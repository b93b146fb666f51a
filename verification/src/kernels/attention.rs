//! Attention over the tokens so far.

use vstd::prelude::*;

use super::softmax::{shared, softmax};
use super::strides::{
    chain_strided, chained, dot_strided, dots_to, lemma_cell, part, part_of, strided, total1,
    total3,
};
use super::sums::total;

verus! {

/// The score of token `p`: the query with that token's key, summed by pairs. A token's row is
/// `row` wide, and the head begins at `from` in it.
pub open spec fn scored<T, W, F: Fn(T, T) -> W, G: Fn(W, W) -> W, N: Fn(W) -> T>(
    times: F,
    plus: G,
    zero: W,
    narrow: N,
    q: Seq<T>,
    keys: Seq<T>,
    row: int,
    from: int,
    p: int,
    score: T,
) -> bool {
    exists|sum: W|
        #[trigger] dots_to(
            times,
            plus,
            zero,
            q,
            strided(keys, p * row + from, 1, q.len()),
            sum,
        ) && narrow.ensures((sum,), score)
}

/// Number `i` of what a head attends to: the shares of all tokens with that number of their
/// values, taken in token by token.
pub open spec fn attended<T, W, M: Fn(W, T, T) -> W, N: Fn(W) -> T>(
    mac: M,
    zero: W,
    narrow: N,
    shares: Seq<T>,
    values: Seq<T>,
    row: int,
    from: int,
    i: int,
    r: T,
) -> bool {
    exists|sum: W|
        #[trigger] chained(
            mac,
            zero,
            shares,
            strided(values, from + i, row, shares.len()),
            sum,
        ) && narrow.ensures((sum,), r)
}

/// The tokens so far have rows of keys, and the head is inside each.
proof fn lemma_token_row(tokens: int, row: int, from: int, width: int, p: int)
    requires
        0 <= p < tokens,
        0 <= from,
        0 < width,
        from + width <= row,
    ensures
        0 <= p * row,
        p * row + from + width <= tokens * row,
{
    lemma_cell(p, tokens, row, 0);
}

/// The scores of the tokens so far for one head.
pub fn score_tokens<T: Copy, W: Copy, F: Fn(T, T) -> W, G: Fn(W, W) -> W, N: Fn(W) -> T>(
    q: &[T],
    keys: &[T],
    tokens: usize,
    row: usize,
    from: usize,
    times: &F,
    zero: W,
    plus: &G,
    narrow: &N,
) -> (scores: Vec<T>)
    requires
        total(*times),
        total(*plus),
        total1(*narrow),
        q@.len() > 0,
        from + q@.len() <= row,
        tokens * row <= keys@.len(),
    ensures
        scores@.len() == tokens,
        forall|p: int|
            0 <= p < tokens ==> scored(
                *times,
                *plus,
                zero,
                *narrow,
                q@,
                keys@,
                row as int,
                from as int,
                p,
                #[trigger] scores@[p],
            ),
{
    let mut scores: Vec<T> = Vec::with_capacity(tokens);
    let mut p: usize = 0;
    while p < tokens
        invariant
            total(*times),
            total(*plus),
            total1(*narrow),
            q@.len() > 0,
            from + q@.len() <= row,
            tokens * row <= keys@.len(),
            p <= tokens,
            scores@.len() == p,
            forall|t: int|
                0 <= t < p ==> scored(
                    *times,
                    *plus,
                    zero,
                    *narrow,
                    q@,
                    keys@,
                    row as int,
                    from as int,
                    t,
                    #[trigger] scores@[t],
                ),
        decreases tokens - p,
    {
        proof {
            lemma_token_row(
                tokens as int,
                row as int,
                from as int,
                q@.len() as int,
                p as int,
            );
            assert(keys@.len() == keys.len());
        }
        let sum = dot_strided(q, 0, 1, keys, p * row + from, 1, q.len(), times, zero, plus);
        proof {
            assert(strided(q@, 0, 1, q@.len()) =~= q@);
            assert(dots_to(
                *times,
                *plus,
                zero,
                q@,
                strided(keys@, p * row + from, 1, q@.len()),
                sum,
            ));
            assert(narrow.requires((sum,)));
        }
        let s = narrow(sum);
        scores.push(s);
        p += 1;
    }
    scores
}

/// What a head attends to, given the shares of the tokens so far.
pub fn attend<T: Copy, W: Copy, M: Fn(W, T, T) -> W, N: Fn(W) -> T>(
    shares: &[T],
    values: &[T],
    row: usize,
    from: usize,
    width: usize,
    zero: W,
    mac: &M,
    narrow: &N,
) -> (out: Vec<T>)
    requires
        total3(*mac),
        total1(*narrow),
        from + width <= row,
        shares@.len() * row <= values@.len(),
    ensures
        out@.len() == width,
        forall|i: int|
            0 <= i < width ==> attended(
                *mac,
                zero,
                *narrow,
                shares@,
                values@,
                row as int,
                from as int,
                i,
                #[trigger] out@[i],
            ),
{
    let tokens: usize = shares.len();
    let mut out: Vec<T> = Vec::with_capacity(width);
    let mut i: usize = 0;
    while i < width
        invariant
            total3(*mac),
            total1(*narrow),
            from + width <= row,
            tokens == shares@.len(),
            shares@.len() * row <= values@.len(),
            i <= width,
            out@.len() == i,
            forall|j: int|
                0 <= j < i ==> attended(
                    *mac,
                    zero,
                    *narrow,
                    shares@,
                    values@,
                    row as int,
                    from as int,
                    j,
                    #[trigger] out@[j],
                ),
        decreases width - i,
    {
        proof {
            if tokens > 0 {
                lemma_token_row(tokens as int, row as int, from as int, width as int, tokens - 1);
            }
        }
        let sum = chain_strided(shares, 0, 1, values, from + i, row, tokens, zero, mac);
        proof {
            assert(strided(shares@, 0, 1, shares@.len()) =~= shares@);
            assert(chained(
                *mac,
                zero,
                shares@,
                strided(values@, from + i, row as int, shares@.len()),
                sum,
            ));
            assert(narrow.requires((sum,)));
        }
        let v = narrow(sum);
        out.push(v);
        i += 1;
    }
    out
}

/// The key and value head that serves query head `h`: neighbouring query heads share one.
pub open spec fn kv_head(h: int, heads: int, kv_heads: int) -> int {
    h / (heads / kv_heads)
}

/// The key and value head that serves query head `h`.
pub fn kv_head_of(h: usize, heads: usize, kv_heads: usize) -> (res: usize)
    requires
        0 < kv_heads <= heads,
    ensures
        res == kv_head(h as int, heads as int, kv_heads as int),
{
    proof {
        assert(heads as int / kv_heads as int >= 1) by (nonlinear_arith)
            requires
                0 < kv_heads <= heads,
        ;
    }
    h / (heads / kv_heads)
}

/// Where the query heads are a multiple of the key and value heads, every query head is served by
/// one that there is, and each serves equally many.
pub proof fn law_kv_heads_shared_evenly(h: int, heads: int, kv_heads: int)
    requires
        0 <= h < heads,
        1 <= kv_heads,
        heads % kv_heads == 0,
    ensures
        0 <= kv_head(h, heads, kv_heads) < kv_heads,
        ({
            let share = heads / kv_heads;
            kv_head(h, heads, kv_heads) * share <= h < (kv_head(h, heads, kv_heads) + 1) * share
        }),
{
    let share = heads / kv_heads;
    vstd::arithmetic::div_mod::lemma_fundamental_div_mod(heads, kv_heads);
    assert(share >= 1) by (nonlinear_arith)
        requires
            kv_heads * share == heads,
            heads >= 1,
            kv_heads >= 1,
    ;
    vstd::arithmetic::div_mod::lemma_fundamental_div_mod(h, share);
    vstd::arithmetic::div_mod::lemma_mod_bound(h, share);
    let k = h / share;
    let r = h % share;
    assert(0 <= k < kv_heads && k * share <= h < (k + 1) * share) by (nonlinear_arith)
        requires
            h == share * k + r,
            0 <= r < share,
            0 <= h < kv_heads * share,
    ;
}

/// The scores of all tokens so far.
pub open spec fn all_scored<T, W, F: Fn(T, T) -> W, G: Fn(W, W) -> W, N: Fn(W) -> T>(
    times: F,
    plus: G,
    zero: W,
    narrow: N,
    q: Seq<T>,
    keys: Seq<T>,
    tokens: int,
    row: int,
    from: int,
    scores: Seq<T>,
) -> bool {
    &&& scores.len() == tokens
    &&& forall|p: int|
        0 <= p < tokens ==> scored(
            times,
            plus,
            zero,
            narrow,
            q,
            keys,
            row,
            from,
            p,
            #[trigger] scores[p],
        )
}

/// All numbers of what a head attends to.
pub open spec fn all_attended<T, W, M: Fn(W, T, T) -> W, N: Fn(W) -> T>(
    mac: M,
    zero: W,
    narrow: N,
    shares: Seq<T>,
    values: Seq<T>,
    row: int,
    from: int,
    width: int,
    out: Seq<T>,
) -> bool {
    &&& out.len() == width
    &&& forall|i: int|
        0 <= i < width ==> attended(
            mac,
            zero,
            narrow,
            shares,
            values,
            row,
            from,
            i,
            #[trigger] out[i],
        )
}

/// What head `h` attends to: its query is scored against the tokens so far, the scores become
/// shares, and the values are weighed by them. Keys and values are those of the head that serves
/// it.
pub open spec fn head_attends<
    T,
    W,
    F: Fn(T, T) -> W,
    G: Fn(W, W) -> W,
    N: Fn(W) -> T,
    P: Fn(T, T, T) -> T,
    E: Fn(T, T) -> T,
    V: Fn(T) -> W,
    H: Fn(T, W) -> T,
    M: Fn(W, T, T) -> W,
>(
    times: F,
    plus: G,
    zero: W,
    narrow: N,
    peak: P,
    low: T,
    grow: E,
    widen: V,
    divide: H,
    mac: M,
    tokens: int,
    width: int,
    heads: int,
    kv_heads: int,
    h: int,
    q: Seq<T>,
    keys: Seq<T>,
    values: Seq<T>,
    out: Seq<T>,
) -> bool {
    let row = kv_heads * width;
    let from = kv_head(h, heads, kv_heads) * width;
    exists|scores: Seq<T>, shares: Seq<T>|
        {
            &&& #[trigger] all_scored(
                times,
                plus,
                zero,
                narrow,
                part(q, width, h),
                keys,
                tokens,
                row,
                from,
                scores,
            )
            &&& #[trigger] shared(peak, low, grow, widen, zero, plus, divide, scores, shares)
            &&& all_attended(
                mac,
                zero,
                narrow,
                shares,
                values,
                row,
                from,
                width,
                part(out, width, h),
            )
        }
}

/// Attention of all heads over the tokens so far.
pub fn attend_heads<
    T: Copy,
    W: Copy,
    F: Fn(T, T) -> W,
    G: Fn(W, W) -> W,
    N: Fn(W) -> T,
    P: Fn(T, T, T) -> T,
    E: Fn(T, T) -> T,
    V: Fn(T) -> W,
    H: Fn(T, W) -> T,
    M: Fn(W, T, T) -> W,
>(
    q: &[T],
    keys: &[T],
    values: &[T],
    tokens: usize,
    width: usize,
    heads: usize,
    kv_heads: usize,
    times: &F,
    zero: W,
    plus: &G,
    narrow: &N,
    low: T,
    peak: &P,
    grow: &E,
    widen: &V,
    divide: &H,
    mac: &M,
) -> (out: Vec<T>)
    requires
        total(*times),
        total(*plus),
        total1(*narrow),
        total3(*peak),
        total(*grow),
        total1(*widen),
        total(*divide),
        total3(*mac),
        width > 0,
        0 < kv_heads <= heads,
        heads as int % kv_heads as int == 0,
        kv_heads * width <= usize::MAX,
        q@.len() == heads * width,
        tokens * (kv_heads * width) <= keys@.len(),
        tokens * (kv_heads * width) <= values@.len(),
    ensures
        out@.len() == q@.len(),
        forall|h: int|
            0 <= h < heads ==> #[trigger] head_attends(
                *times,
                *plus,
                zero,
                *narrow,
                *peak,
                low,
                *grow,
                *widen,
                *divide,
                *mac,
                tokens as int,
                width as int,
                heads as int,
                kv_heads as int,
                h,
                q@,
                keys@,
                values@,
                out@,
            ),
{
    let row: usize = kv_heads * width;
    let mut out: Vec<T> = Vec::with_capacity(q.len());
    let mut h: usize = 0;
    proof {
        assert(0 * width == 0) by (nonlinear_arith);
    }
    while h < heads
        invariant
            total(*times),
            total(*plus),
            total1(*narrow),
            total3(*peak),
            total(*grow),
            total1(*widen),
            total(*divide),
            total3(*mac),
            width > 0,
            0 < kv_heads <= heads,
            heads as int % kv_heads as int == 0,
            row == kv_heads * width,
            q@.len() == heads * width,
            tokens * row <= keys@.len(),
            tokens * row <= values@.len(),
            h <= heads,
            out@.len() == h * width,
            forall|i: int|
                0 <= i < h ==> #[trigger] head_attends(
                    *times,
                    *plus,
                    zero,
                    *narrow,
                    *peak,
                    low,
                    *grow,
                    *widen,
                    *divide,
                    *mac,
                    tokens as int,
                    width as int,
                    heads as int,
                    kv_heads as int,
                    i,
                    q@,
                    keys@,
                    values@,
                    out@,
                ),
        decreases heads - h,
    {
        let kv: usize = kv_head_of(h, heads, kv_heads);
        proof {
            law_kv_heads_shared_evenly(h as int, heads as int, kv_heads as int);
            lemma_cell(h as int, heads as int, width as int, 0);
            lemma_cell(kv as int, kv_heads as int, width as int, 0);
        }
        let from: usize = kv * width;
        let head = part_of(q, width, h);
        let scores = score_tokens(
            head,
            keys,
            tokens,
            row,
            from,
            times,
            zero,
            plus,
            narrow,
        );
        let shares = softmax(scores.as_slice(), low, peak, grow, widen, zero, plus, divide);
        let ghost before = out@;
        let mut made = attend(shares.as_slice(), values, row, from, width, zero, mac, narrow);
        let ghost new = made@;
        out.append(&mut made);
        proof {
            assert((h + 1) * width == h * width + width) by (nonlinear_arith);
            assert forall|i: int| 0 <= i < h + 1 implies #[trigger] head_attends(
                *times,
                *plus,
                zero,
                *narrow,
                *peak,
                low,
                *grow,
                *widen,
                *divide,
                *mac,
                tokens as int,
                width as int,
                heads as int,
                kv_heads as int,
                i,
                q@,
                keys@,
                values@,
                out@,
            ) by {
                if i < h {
                    lemma_cell(i, h as int, width as int, 0);
                    assert(part(out@, width as int, i) =~= part(before, width as int, i));
                    assert(head_attends(
                        *times,
                        *plus,
                        zero,
                        *narrow,
                        *peak,
                        low,
                        *grow,
                        *widen,
                        *divide,
                        *mac,
                        tokens as int,
                        width as int,
                        heads as int,
                        kv_heads as int,
                        i,
                        q@,
                        keys@,
                        values@,
                        before,
                    ));
                } else {
                    assert(part(out@, width as int, i) =~= new);
                    assert(all_scored(
                        *times,
                        *plus,
                        zero,
                        *narrow,
                        part(q@, width as int, i),
                        keys@,
                        tokens as int,
                        row as int,
                        from as int,
                        scores@,
                    ));
                    assert(shared(
                        *peak,
                        low,
                        *grow,
                        *widen,
                        zero,
                        *plus,
                        *divide,
                        scores@,
                        shares@,
                    ));
                    assert(all_attended(
                        *mac,
                        zero,
                        *narrow,
                        shares@,
                        values@,
                        row as int,
                        from as int,
                        width as int,
                        new,
                    ));
                }
            }
        }
        h += 1;
    }
    out
}

} // verus!
