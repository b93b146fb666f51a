//! Steps of a recurrent state.

use vstd::prelude::*;

use super::rows::{combine_all, combined};
use super::strides::{
    chain_strided, chained, lemma_cell, part, part_of, reaches, strided, total1, total3,
};
use super::sums::total;

verus! {

/// Column `j` of a square matrix.
pub open spec fn column<T>(m: Seq<T>, dim: nat, j: int) -> Seq<T> {
    strided(m, j, dim as int, dim)
}

/// What one value lacks: the value against the sum of its column with the key.
pub open spec fn lack_of<T, W, C, M: Fn(W, T, T) -> W, E: Fn(C, T, W) -> T>(
    mac: M,
    zero: W,
    lack: E,
    c: C,
    state: Seq<T>,
    k: Seq<T>,
    j: int,
    v: T,
    d: T,
) -> bool {
    exists|sum: W|
        #[trigger] chained(mac, zero, column(state, k.len(), j), k, sum) && lack.ensures(
            (c, v, sum),
            d,
        )
}

/// What each value lacks.
pub open spec fn lacking<T, W, C, M: Fn(W, T, T) -> W, E: Fn(C, T, W) -> T>(
    mac: M,
    zero: W,
    lack: E,
    c: C,
    state: Seq<T>,
    k: Seq<T>,
    v: Seq<T>,
    d: Seq<T>,
) -> bool {
    &&& d.len() == k.len()
    &&& forall|j: int|
        0 <= j < k.len() ==> lack_of(mac, zero, lack, c, state, k, j, v[j], #[trigger] d[j])
}

/// Every number of the state with its key's share of what its column lacks.
pub open spec fn updated<T, U: Fn(T, T, T) -> T>(
    add_share: U,
    state: Seq<T>,
    k: Seq<T>,
    d: Seq<T>,
    next: Seq<T>,
) -> bool {
    let dim = k.len() as int;
    &&& next.len() == state.len()
    &&& forall|i: int, j: int|
        0 <= i < dim && 0 <= j < dim ==> add_share.ensures(
            (state[i * dim + j], k[i], d[j]),
            #[trigger] next[i * dim + j],
        )
}

/// One number that goes out: the sum of its column with the query.
pub open spec fn read_at<T, W, M: Fn(W, T, T) -> W, O: Fn(W) -> T>(
    mac: M,
    zero: W,
    finish: O,
    state: Seq<T>,
    q: Seq<T>,
    j: int,
    r: T,
) -> bool {
    exists|sum: W|
        #[trigger] chained(mac, zero, column(state, q.len(), j), q, sum) && finish.ensures(
            (sum,),
            r,
        )
}

/// What goes out.
pub open spec fn read_out<T, W, M: Fn(W, T, T) -> W, O: Fn(W) -> T>(
    mac: M,
    zero: W,
    finish: O,
    state: Seq<T>,
    q: Seq<T>,
    out: Seq<T>,
) -> bool {
    &&& out.len() == q.len()
    &&& forall|j: int|
        0 <= j < q.len() ==> read_at(mac, zero, finish, state, q, j, #[trigger] out[j])
}

/// One step of a square state: it fades, takes in what each value lacks by the key, and is read
/// out by the query. The state is read out after it has been updated. How much it fades and how
/// much of what lacks it takes in goes by `c`.
pub open spec fn delta_step<
    T,
    W,
    C,
    D: Fn(T, C) -> T,
    M: Fn(W, T, T) -> W,
    E: Fn(C, T, W) -> T,
    U: Fn(T, T, T) -> T,
    O: Fn(W) -> T,
>(
    fade: D,
    mac: M,
    zero: W,
    lack: E,
    add_share: U,
    finish: O,
    c: C,
    state: Seq<T>,
    q: Seq<T>,
    k: Seq<T>,
    v: Seq<T>,
    next: Seq<T>,
    out: Seq<T>,
) -> bool {
    exists|mid: Seq<T>, d: Seq<T>|
        #[trigger] combined(fade, state, c, mid) && #[trigger] lacking(
            mac,
            zero,
            lack,
            c,
            mid,
            k,
            v,
            d,
        ) && updated(add_share, mid, k, d, next) && read_out(mac, zero, finish, next, q, out)
}

/// A square matrix reaches to the end of each of its columns.
proof fn lemma_column(dim: int, j: int)
    requires
        0 <= j < dim,
    ensures
        reaches(dim * dim, j, dim, dim),
{
    assert(j + (dim - 1) * dim < dim * dim) by (nonlinear_arith)
        requires
            0 <= j < dim,
    ;
}

fn lack_all<T: Copy, W: Copy, C: Copy, M: Fn(W, T, T) -> W, E: Fn(C, T, W) -> T>(
    state: &Vec<T>,
    k: &[T],
    v: &[T],
    c: C,
    zero: W,
    mac: &M,
    lack: &E,
) -> (d: Vec<T>)
    requires
        total3(*mac),
        total3(*lack),
        k@.len() == v@.len(),
        state@.len() == k@.len() * k@.len(),
    ensures
        lacking(*mac, zero, *lack, c, state@, k@, v@, d@),
{
    let dim: usize = k.len();
    let mut d: Vec<T> = Vec::with_capacity(dim);
    let mut j: usize = 0;
    while j < dim
        invariant
            total3(*mac),
            total3(*lack),
            dim == k@.len(),
            k@.len() == v@.len(),
            state@.len() == k@.len() * k@.len(),
            j <= dim,
            d@.len() == j,
            forall|i: int|
                0 <= i < j ==> lack_of(
                    *mac,
                    zero,
                    *lack,
                    c,
                    state@,
                    k@,
                    i,
                    v@[i],
                    #[trigger] d@[i],
                ),
        decreases dim - j,
    {
        proof {
            lemma_column(dim as int, j as int);
        }
        let sum = chain_strided(state.as_slice(), j, dim, k, 0, 1, dim, zero, mac);
        proof {
            assert(strided(k@, 0, 1, dim as nat) =~= k@);
            assert(chained(*mac, zero, column(state@, k@.len(), j as int), k@, sum));
            assert(lack.requires((c, v@[j as int], sum)));
        }
        let x = lack(c, v[j], sum);
        d.push(x);
        j += 1;
    }
    d
}

fn update_all<T: Copy, U: Fn(T, T, T) -> T>(
    state: &Vec<T>,
    k: &[T],
    d: &Vec<T>,
    add_share: &U,
) -> (next: Vec<T>)
    requires
        total3(*add_share),
        k@.len() == d@.len(),
        state@.len() == k@.len() * k@.len(),
    ensures
        updated(*add_share, state@, k@, d@, next@),
{
    let dim: usize = k.len();
    let mut next: Vec<T> = Vec::with_capacity(state.len());
    let mut i: usize = 0;
    proof {
        assert(0 * dim == 0) by (nonlinear_arith);
    }
    while i < dim
        invariant
            total3(*add_share),
            dim == k@.len(),
            k@.len() == d@.len(),
            state@.len() == dim * dim,
            i <= dim,
            next@.len() == i * dim,
            forall|r: int, c: int|
                0 <= r < i && 0 <= c < dim ==> add_share.ensures(
                    (state@[r * dim + c], k@[r], d@[c]),
                    #[trigger] next@[r * dim + c],
                ),
        decreases dim - i,
    {
        let mut j: usize = 0;
        while j < dim
            invariant
                total3(*add_share),
                dim == k@.len(),
                k@.len() == d@.len(),
                state@.len() == dim * dim,
                i < dim,
                j <= dim,
                next@.len() == i * dim + j,
                forall|r: int, c: int|
                    (0 <= r < i && 0 <= c < dim) || (r == i && 0 <= c < j) ==> add_share.ensures(
                        (state@[r * dim + c], k@[r], d@[c]),
                        #[trigger] next@[r * dim + c],
                    ),
            decreases dim - j,
        {
            proof {
                lemma_cell(i as int, dim as int, dim as int, j as int);
                assert(state@.len() == state.len());
                assert(add_share.requires((state@[i * dim + j], k@[i as int], d@[j as int])));
            }
            let ghost before = next@;
            let x = add_share(state[i * dim + j], k[i], d[j]);
            next.push(x);
            proof {
                assert forall|r: int, c: int|
                    (0 <= r < i && 0 <= c < dim) || (r == i && 0 <= c < j + 1) implies
                    add_share.ensures(
                    (state@[r * dim + c], k@[r], d@[c]),
                    #[trigger] next@[r * dim + c],
                ) by {
                    if r < i {
                        lemma_cell(r, i as int, dim as int, c);
                        assert(next@[r * dim + c] == before[r * dim + c]);
                    } else if c < j {
                        assert(next@[r * dim + c] == before[r * dim + c]);
                    }
                }
            }
            j += 1;
        }
        proof {
            assert((i + 1) * dim == i * dim + dim) by (nonlinear_arith);
        }
        i += 1;
    }
    next
}

fn read_all<T: Copy, W: Copy, M: Fn(W, T, T) -> W, O: Fn(W) -> T>(
    state: &Vec<T>,
    q: &[T],
    zero: W,
    mac: &M,
    finish: &O,
) -> (out: Vec<T>)
    requires
        total3(*mac),
        total1(*finish),
        state@.len() == q@.len() * q@.len(),
    ensures
        read_out(*mac, zero, *finish, state@, q@, out@),
{
    let dim: usize = q.len();
    let mut out: Vec<T> = Vec::with_capacity(dim);
    let mut j: usize = 0;
    while j < dim
        invariant
            total3(*mac),
            total1(*finish),
            dim == q@.len(),
            state@.len() == q@.len() * q@.len(),
            j <= dim,
            out@.len() == j,
            forall|i: int|
                0 <= i < j ==> read_at(*mac, zero, *finish, state@, q@, i, #[trigger] out@[i]),
        decreases dim - j,
    {
        proof {
            lemma_column(dim as int, j as int);
        }
        let sum = chain_strided(state.as_slice(), j, dim, q, 0, 1, dim, zero, mac);
        proof {
            assert(strided(q@, 0, 1, dim as nat) =~= q@);
            assert(chained(*mac, zero, column(state@, q@.len(), j as int), q@, sum));
            assert(finish.requires((sum,)));
        }
        let x = finish(sum);
        out.push(x);
        j += 1;
    }
    out
}

/// One step of a square state. The result is the state after it and what is read out.
pub fn gdn_fused_step<
    T: Copy,
    W: Copy,
    C: Copy,
    D: Fn(T, C) -> T,
    M: Fn(W, T, T) -> W,
    E: Fn(C, T, W) -> T,
    U: Fn(T, T, T) -> T,
    O: Fn(W) -> T,
>(
    state: &[T],
    q: &[T],
    k: &[T],
    v: &[T],
    c: C,
    fade: &D,
    zero: W,
    mac: &M,
    lack: &E,
    add_share: &U,
    finish: &O,
) -> (res: (Vec<T>, Vec<T>))
    requires
        total(*fade),
        total3(*mac),
        total3(*lack),
        total3(*add_share),
        total1(*finish),
        k@.len() == q@.len(),
        v@.len() == q@.len(),
        state@.len() == q@.len() * q@.len(),
    ensures
        delta_step(
            *fade,
            *mac,
            zero,
            *lack,
            *add_share,
            *finish,
            c,
            state@,
            q@,
            k@,
            v@,
            res.0@,
            res.1@,
        ),
        res.0@.len() == state@.len(),
        res.1@.len() == q@.len(),
{
    let mid = combine_all(state, c, fade);
    let d = lack_all(&mid, k, v, c, zero, mac, lack);
    let next = update_all(&mid, k, &d, add_share);
    let out = read_all(&next, q, zero, mac, finish);
    proof {
        assert(combined(*fade, state@, c, mid@));
        assert(lacking(*mac, zero, *lack, c, mid@, k@, v@, d@));
    }
    (next, out)
}

/// The step of head `h` of a state with several heads. Its values are its own; queries and keys
/// are shared, and come round in turn.
pub open spec fn head_step<
    T,
    W,
    C,
    R: Fn(T, T) -> C,
    D: Fn(T, C) -> T,
    M: Fn(W, T, T) -> W,
    E: Fn(C, T, W) -> T,
    U: Fn(T, T, T) -> T,
    O: Fn(W) -> T,
>(
    ready: R,
    fade: D,
    mac: M,
    zero: W,
    lack: E,
    add_share: U,
    finish: O,
    width: int,
    qk_heads: int,
    h: int,
    state: Seq<T>,
    q: Seq<T>,
    k: Seq<T>,
    v: Seq<T>,
    decay: Seq<T>,
    beta: Seq<T>,
    next: Seq<T>,
    out: Seq<T>,
) -> bool {
    exists|c: C|
        #[trigger] ready.ensures((decay[h], beta[h]), c) && delta_step(
            fade,
            mac,
            zero,
            lack,
            add_share,
            finish,
            c,
            part(state, width * width, h),
            part(q, width, h % qk_heads),
            part(k, width, h % qk_heads),
            part(v, width, h),
            part(next, width * width, h),
            part(out, width, h),
        )
}

/// One step of every head of a state. The result is the state after it and what is read out.
pub fn delta_heads<
    T: Copy,
    W: Copy,
    C: Copy,
    R: Fn(T, T) -> C,
    D: Fn(T, C) -> T,
    M: Fn(W, T, T) -> W,
    E: Fn(C, T, W) -> T,
    U: Fn(T, T, T) -> T,
    O: Fn(W) -> T,
>(
    state: &[T],
    q: &[T],
    k: &[T],
    v: &[T],
    decay: &[T],
    beta: &[T],
    width: usize,
    qk_heads: usize,
    ready: &R,
    fade: &D,
    zero: W,
    mac: &M,
    lack: &E,
    add_share: &U,
    finish: &O,
) -> (res: (Vec<T>, Vec<T>))
    requires
        total(*ready),
        total(*fade),
        total3(*mac),
        total3(*lack),
        total3(*add_share),
        total1(*finish),
        width > 0,
        qk_heads > 0,
        beta@.len() == decay@.len(),
        state@.len() == decay@.len() * (width * width),
        v@.len() == decay@.len() * width,
        q@.len() == qk_heads * width,
        k@.len() == qk_heads * width,
    ensures
        res.0@.len() == state@.len(),
        res.1@.len() == v@.len(),
        forall|h: int|
            0 <= h < decay@.len() ==> #[trigger] head_step(
                *ready,
                *fade,
                *mac,
                zero,
                *lack,
                *add_share,
                *finish,
                width as int,
                qk_heads as int,
                h,
                state@,
                q@,
                k@,
                v@,
                decay@,
                beta@,
                res.0@,
                res.1@,
            ),
{
    let heads: usize = decay.len();
    let mut next: Vec<T> = Vec::with_capacity(state.len());
    let mut out: Vec<T> = Vec::with_capacity(v.len());
    let ghost area = width * width;
    let mut h: usize = 0;
    proof {
        assert(0 * area == 0 && 0 * width == 0) by (nonlinear_arith);
    }
    while h < heads
        invariant
            total(*ready),
            total(*fade),
            total3(*mac),
            total3(*lack),
            total3(*add_share),
            total1(*finish),
            width > 0,
            qk_heads > 0,
            area == width * width,
            heads == decay@.len(),
            beta@.len() == decay@.len(),
            state@.len() == heads * area,
            v@.len() == heads * width,
            q@.len() == qk_heads * width,
            k@.len() == qk_heads * width,
            h <= heads,
            next@.len() == h * area,
            out@.len() == h * width,
            forall|i: int|
                0 <= i < h ==> #[trigger] head_step(
                    *ready,
                    *fade,
                    *mac,
                    zero,
                    *lack,
                    *add_share,
                    *finish,
                    width as int,
                    qk_heads as int,
                    i,
                    state@,
                    q@,
                    k@,
                    v@,
                    decay@,
                    beta@,
                    next@,
                    out@,
                ),
        decreases heads - h,
    {
        let shared: usize = h % qk_heads;
        proof {
            lemma_cell(h as int, heads as int, area, 0);
            lemma_cell(h as int, heads as int, width as int, 0);
            lemma_cell(shared as int, qk_heads as int, width as int, 0);
            assert(area <= heads * area) by (nonlinear_arith)
                requires
                    heads >= 1,
                    area >= 0,
            ;
            assert(state@.len() == state.len());
            assert(ready.requires((decay@[h as int], beta@[h as int])));
        }
        let c = ready(decay[h], beta[h]);
        let ghost next_before = next@;
        let ghost out_before = out@;
        let (mut a, mut b) = gdn_fused_step(
            part_of(state, width * width, h),
            part_of(q, width, shared),
            part_of(k, width, shared),
            part_of(v, width, h),
            c,
            fade,
            zero,
            mac,
            lack,
            add_share,
            finish,
        );
        let ghost new_state = a@;
        let ghost new_out = b@;
        next.append(&mut a);
        out.append(&mut b);
        proof {
            assert((h + 1) * area == h * area + area) by (nonlinear_arith);
            assert((h + 1) * width == h * width + width) by (nonlinear_arith);
            assert forall|i: int| 0 <= i < h + 1 implies #[trigger] head_step(
                *ready,
                *fade,
                *mac,
                zero,
                *lack,
                *add_share,
                *finish,
                width as int,
                qk_heads as int,
                i,
                state@,
                q@,
                k@,
                v@,
                decay@,
                beta@,
                next@,
                out@,
            ) by {
                if i < h {
                    lemma_cell(i, h as int, area, 0);
                    lemma_cell(i, h as int, width as int, 0);
                    assert(part(next@, area, i) =~= part(next_before, area, i));
                    assert(part(out@, width as int, i) =~= part(out_before, width as int, i));
                    assert(head_step(
                        *ready,
                        *fade,
                        *mac,
                        zero,
                        *lack,
                        *add_share,
                        *finish,
                        width as int,
                        qk_heads as int,
                        i,
                        state@,
                        q@,
                        k@,
                        v@,
                        decay@,
                        beta@,
                        next_before,
                        out_before,
                    ));
                } else {
                    assert(part(next@, area, i) =~= new_state);
                    assert(part(out@, width as int, i) =~= new_out);
                    assert(ready.ensures((decay@[i], beta@[i]), c));
                }
            }
        }
        h += 1;
    }
    (next, out)
}

} // verus!
