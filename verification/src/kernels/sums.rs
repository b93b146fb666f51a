//! Sums by pairs, level by level.

use vstd::prelude::*;

verus! {

/// A combination of two numbers that can always be made.
pub open spec fn total<A, B, C, F: Fn(A, B) -> C>(f: F) -> bool {
    forall|a: A, b: B| #[trigger] f.requires((a, b))
}

/// `next` holds the sums of neighbouring pairs of `level`; a last number without a partner goes
/// over as it is.
pub open spec fn paired<T, F: Fn(T, T) -> T>(plus: F, level: Seq<T>, next: Seq<T>) -> bool {
    &&& next.len() == (level.len() + 1) / 2
    &&& forall|i: int|
        0 <= i < level.len() / 2 ==> plus.ensures((level[2 * i], level[2 * i + 1]), #[trigger] next[i])
    &&& level.len() % 2 == 1 ==> next.last() == level.last()
}

/// `r` is a sum of `vals` by pairs, level by level. The sum of nothing is `zero`.
pub open spec fn sums_to<T, F: Fn(T, T) -> T>(plus: F, zero: T, vals: Seq<T>, r: T) -> bool
    decreases vals.len(),
{
    if vals.len() == 0 {
        r == zero
    } else if vals.len() == 1 {
        r == vals[0]
    } else {
        exists|next: Seq<T>|
            #[trigger] paired(plus, vals, next) && next.len() < vals.len() && sums_to(
                plus,
                zero,
                next,
                r,
            )
    }
}

fn pair_up<T: Copy, F: Fn(T, T) -> T>(level: &Vec<T>, plus: &F) -> (next: Vec<T>)
    requires
        total(*plus),
    ensures
        paired(*plus, level@, next@),
{
    let mut next: Vec<T> = Vec::new();
    let mut i: usize = 0;
    while i + 1 < level.len()
        invariant
            total(*plus),
            i <= level@.len(),
            i % 2 == 0,
            next@.len() == i / 2,
            forall|j: int|
                0 <= j < i / 2 ==> plus.ensures(
                    (level@[2 * j], level@[2 * j + 1]),
                    #[trigger] next@[j],
                ),
        decreases level@.len() - i,
    {
        proof {
            assert(plus.requires((level@[i as int], level@[i + 1])));
        }
        let s = plus(level[i], level[i + 1]);
        next.push(s);
        i += 2;
    }
    if i < level.len() {
        next.push(level[i]);
    }
    next
}

/// The sum of numbers by pairs: `((a0+a1)+(a2+a3))...`, level by level.
pub fn pairwise_sum<T: Copy, F: Fn(T, T) -> T>(vals: &[T], zero: T, plus: &F) -> (res: T)
    requires
        total(*plus),
    ensures
        sums_to(*plus, zero, vals@, res),
{
    let mut level = vstd::slice::slice_to_vec(vals);
    while level.len() > 1
        invariant
            total(*plus),
            forall|r: T| sums_to(*plus, zero, level@, r) ==> sums_to(*plus, zero, vals@, r),
        decreases level@.len(),
    {
        let next = pair_up(&level, plus);
        proof {
            assert forall|r: T| sums_to(*plus, zero, next@, r) implies sums_to(
                *plus,
                zero,
                vals@,
                r,
            ) by {
                assert(paired(*plus, level@, next@));
                assert(sums_to(*plus, zero, level@, r));
            }
        }
        level = next;
    }
    if level.len() == 1 {
        level[0]
    } else {
        zero
    }
}

/// The sum of numbers by pairs, where two numbers have one sum.
pub open spec fn tree<T>(f: spec_fn(T, T) -> T, zero: T, vals: Seq<T>) -> T
    decreases vals.len(),
{
    if vals.len() == 0 {
        zero
    } else if vals.len() == 1 {
        vals[0]
    } else {
        tree(
            f,
            zero,
            Seq::new(
                (vals.len() + 1) / 2,
                |i: int|
                    if 2 * i + 1 < vals.len() {
                        f(vals[2 * i], vals[2 * i + 1])
                    } else {
                        vals[2 * i]
                    },
            ),
        )
    }
}

/// Where two numbers have one sum, so do many: the order of a sum by pairs leaves nothing open.
pub proof fn law_pairwise_sum_is_one_tree<T, F: Fn(T, T) -> T>(
    plus: F,
    f: spec_fn(T, T) -> T,
    zero: T,
    vals: Seq<T>,
    r: T,
)
    requires
        forall|a: T, b: T, c: T| #[trigger] plus.ensures((a, b), c) ==> c == f(a, b),
        sums_to(plus, zero, vals, r),
    ensures
        r == tree(f, zero, vals),
    decreases vals.len(),
{
    if vals.len() > 1 {
        let next = choose|next: Seq<T>|
            #[trigger] paired(plus, vals, next) && next.len() < vals.len() && sums_to(
                plus,
                zero,
                next,
                r,
            );
        law_pairwise_sum_is_one_tree(plus, f, zero, next, r);
        let want = Seq::new(
            (vals.len() + 1) / 2,
            |i: int|
                if 2 * i + 1 < vals.len() {
                    f(vals[2 * i], vals[2 * i + 1])
                } else {
                    vals[2 * i]
                },
        );
        assert(next =~= want);
    }
}

} // verus!
