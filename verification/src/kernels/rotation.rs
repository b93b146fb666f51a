//! Rotations of pairs of numbers.

use vstd::prelude::*;

use super::strides::{lemma_cell, part, part_of, total3};

verus! {

/// The numbers at `a` and `b` are turned as pair `i`.
pub open spec fn turned<T, F: Fn(usize, T, T) -> (T, T)>(
    turn: F,
    before: Seq<T>,
    after: Seq<T>,
    i: int,
    a: int,
    b: int,
) -> bool {
    turn.ensures((i as usize, before[a], before[b]), (after[a], after[b]))
}

/// Numbers `2i` and `2i + 1` are turned as pair `i`.
pub open spec fn neighbours_turned<T, F: Fn(usize, T, T) -> (T, T)>(
    turn: F,
    before: Seq<T>,
    after: Seq<T>,
) -> bool {
    &&& after.len() == before.len()
    &&& forall|i: int|
        0 <= i < before.len() / 2 ==> #[trigger] turned(turn, before, after, i, 2 * i, 2 * i + 1)
}

/// Turns every pair of neighbours: numbers `2i` and `2i + 1` as pair `i`.
pub fn turn_neighbours<T: Copy, F: Fn(usize, T, T) -> (T, T)>(x: &mut Vec<T>, turn: &F)
    requires
        total3(*turn),
        old(x)@.len() % 2 == 0,
    ensures
        neighbours_turned(*turn, old(x)@, final(x)@),
{
    let pairs: usize = x.len() / 2;
    let mut i: usize = 0;
    while i < pairs
        invariant
            total3(*turn),
            pairs == old(x)@.len() / 2,
            old(x)@.len() % 2 == 0,
            i <= pairs,
            x@.len() == old(x)@.len(),
            forall|j: int| 2 * i <= j < x@.len() ==> #[trigger] x@[j] == old(x)@[j],
            forall|j: int|
                0 <= j < i ==> #[trigger] turned(*turn, old(x)@, x@, j, 2 * j, 2 * j + 1),
        decreases pairs - i,
    {
        let ghost before = x@;
        proof {
            assert(x@.len() == x.len());
        }
        let x0 = x[2 * i];
        let x1 = x[2 * i + 1];
        proof {
            assert(turn.requires((i, x0, x1)));
        }
        let (y0, y1) = turn(i, x0, x1);
        x.set(2 * i, y0);
        x.set(2 * i + 1, y1);
        proof {
            assert forall|j: int| 0 <= j < i + 1 implies #[trigger] turned(
                *turn,
                old(x)@,
                x@,
                j,
                2 * j,
                2 * j + 1,
            ) by {
                if j < i {
                    assert(turned(*turn, old(x)@, before, j, 2 * j, 2 * j + 1));
                    assert(x@[2 * j] == before[2 * j] && x@[2 * j + 1] == before[2 * j + 1]);
                }
            }
        }
        i += 1;
    }
}

/// Numbers `i` and `i + half` are turned as pair `i`, for every `every`th `i` below `half`. All
/// other numbers stay.
pub open spec fn halves_turned<T, F: Fn(usize, T, T) -> (T, T)>(
    turn: F,
    half: int,
    every: int,
    before: Seq<T>,
    after: Seq<T>,
) -> bool {
    &&& after.len() == before.len()
    &&& forall|i: int|
        0 <= i < half && i % every == 0 ==> #[trigger] turned(
            turn,
            before,
            after,
            i,
            i,
            i + half,
        )
    &&& forall|i: int|
        0 <= i < half && i % every != 0 ==> (#[trigger] after[i]) == before[i] && after[i + half]
            == before[i + half]
    &&& forall|j: int| 2 * half <= j < before.len() ==> #[trigger] after[j] == before[j]
}

/// Turns numbers `i` and `i + half` as pair `i`, for every `every`th `i` below `half`. All other
/// numbers stay.
pub fn turn_halves<T: Copy, F: Fn(usize, T, T) -> (T, T)>(
    x: &mut Vec<T>,
    half: usize,
    every: usize,
    turn: &F,
)
    requires
        total3(*turn),
        every > 0,
        2 * half <= old(x)@.len(),
    ensures
        halves_turned(*turn, half as int, every as int, old(x)@, final(x)@),
{
    let mut i: usize = 0;
    while i < half
        invariant
            total3(*turn),
            every > 0,
            2 * half <= old(x)@.len(),
            i <= half,
            x@.len() == old(x)@.len(),
            forall|j: int| i <= j < half ==> #[trigger] x@[j] == old(x)@[j],
            forall|j: int| half + i <= j < x@.len() ==> #[trigger] x@[j] == old(x)@[j],
            forall|j: int|
                0 <= j < i && j % every as int == 0 ==> #[trigger] turned(
                    *turn,
                    old(x)@,
                    x@,
                    j,
                    j,
                    j + half,
                ),
            forall|j: int|
                0 <= j < i && j % every as int != 0 ==> (#[trigger] x@[j]) == old(x)@[j] && x@[j
                    + half] == old(x)@[j + half],
        decreases half - i,
    {
        let ghost before = x@;
        proof {
            assert(x@.len() == x.len());
        }
        if i % every == 0 {
            let x0 = x[i];
            let x1 = x[i + half];
            proof {
                assert(turn.requires((i, x0, x1)));
            }
            let (y0, y1) = turn(i, x0, x1);
            x.set(i, y0);
            x.set(i + half, y1);
            proof {
                assert(turned(*turn, old(x)@, x@, i as int, i as int, i + half));
            }
        }
        proof {
            assert forall|j: int| 0 <= j < i + 1 && j % every as int == 0 implies #[trigger] turned(
                *turn,
                old(x)@,
                x@,
                j,
                j,
                j + half,
            ) by {
                if j < i {
                    assert(turned(*turn, old(x)@, before, j, j, j + half));
                    assert(x@[j] == before[j] && x@[j + half] == before[j + half]);
                }
            }
            assert forall|j: int| 0 <= j < i + 1 && j % every as int != 0 implies (
            #[trigger] x@[j]) == old(x)@[j] && x@[j + half] == old(x)@[j + half] by {
                if j < i {
                    assert(before[j] == old(x)@[j]);
                    assert(x@[j] == before[j] && x@[j + half] == before[j + half]);
                } else {
                    assert(before[j] == old(x)@[j]);
                    assert(before[j + half] == old(x)@[j + half]);
                }
            }
        }
        i += 1;
    }
}

/// Turns the halves of every head of a row, each head alike.
pub fn turn_heads<T: Copy, F: Fn(usize, T, T) -> (T, T)>(
    x: &[T],
    width: usize,
    half: usize,
    every: usize,
    turn: &F,
) -> (out: Vec<T>)
    requires
        total3(*turn),
        every > 0,
        width > 0,
        2 * half <= width,
        x@.len() % width as nat == 0,
    ensures
        out@.len() == x@.len(),
        forall|h: int|
            0 <= h < x@.len() / width as nat ==> #[trigger] halves_turned(
                *turn,
                half as int,
                every as int,
                part(x@, width as int, h),
                part(out@, width as int, h),
            ),
{
    let heads: usize = x.len() / width;
    let mut out: Vec<T> = Vec::with_capacity(x.len());
    let mut h: usize = 0;
    proof {
        vstd::arithmetic::div_mod::lemma_fundamental_div_mod(x@.len() as int, width as int);
        assert(heads * width == x@.len()) by (nonlinear_arith)
            requires
                x@.len() == width * heads + 0,
        ;
        assert(0 * width == 0) by (nonlinear_arith);
    }
    while h < heads
        invariant
            total3(*turn),
            every > 0,
            width > 0,
            2 * half <= width,
            heads * width == x@.len(),
            h <= heads,
            out@.len() == h * width,
            forall|i: int|
                0 <= i < h ==> #[trigger] halves_turned(
                    *turn,
                    half as int,
                    every as int,
                    part(x@, width as int, i),
                    part(out@, width as int, i),
                ),
        decreases heads - h,
    {
        proof {
            lemma_cell(h as int, heads as int, width as int, 0);
        }
        let ghost before = out@;
        let mut head = vstd::slice::slice_to_vec(part_of(x, width, h));
        turn_halves(&mut head, half, every, turn);
        let ghost new = head@;
        out.append(&mut head);
        proof {
            assert((h + 1) * width == h * width + width) by (nonlinear_arith);
            assert forall|i: int| 0 <= i < h + 1 implies #[trigger] halves_turned(
                *turn,
                half as int,
                every as int,
                part(x@, width as int, i),
                part(out@, width as int, i),
            ) by {
                if i < h {
                    lemma_cell(i, h as int, width as int, 0);
                    assert(part(out@, width as int, i) =~= part(before, width as int, i));
                } else {
                    assert(part(out@, width as int, i) =~= new);
                }
            }
        }
        h += 1;
    }
    out
}

/// Neighbours are turned with each other and with no other number: the pair behind the first `2i`
/// numbers is turned as pair `i`, whatever stands before and behind it.
pub proof fn law_neighbours_turn_together<T, F: Fn(usize, T, T) -> (T, T)>(
    turn: F,
    front: Seq<T>,
    a: T,
    b: T,
    back: Seq<T>,
    after: Seq<T>,
)
    requires
        front.len() % 2 == 0,
        neighbours_turned(turn, front.push(a).push(b) + back, after),
    ensures
        after.len() == front.len() + 2 + back.len(),
        turn.ensures(
            ((front.len() / 2) as usize, a, b),
            (after[front.len() as int], after[front.len() as int + 1]),
        ),
{
    let before = front.push(a).push(b) + back;
    let i = (front.len() / 2) as int;
    assert(2 * i == front.len());
    assert(turned(turn, before, after, i, 2 * i, 2 * i + 1));
    assert(before[2 * i] == a && before[2 * i + 1] == b);
}

/// Numbers that lie half a stretch apart are turned with each other, every so many of them, and
/// all other numbers stay.
pub proof fn law_halves_turn_together<T, F: Fn(usize, T, T) -> (T, T)>(
    turn: F,
    half: int,
    every: int,
    before: Seq<T>,
    after: Seq<T>,
    round: int,
    rest: int,
)
    requires
        0 < every,
        0 <= round,
        0 <= rest < every,
        0 <= half,
        round * every + rest < half,
        2 * half <= before.len(),
        halves_turned(turn, half, every, before, after),
    ensures
        after.len() == before.len(),
        ({
            let i = round * every + rest;
            if rest == 0 {
                turn.ensures(
                    (i as usize, before[i], before[half + i]),
                    (after[i], after[half + i]),
                )
            } else {
                after[i] == before[i] && after[half + i] == before[half + i]
            }
        }),
        forall|j: int| 2 * half <= j < before.len() ==> #[trigger] after[j] == before[j],
{
    let i = round * every + rest;
    assert(0 <= round * every) by (nonlinear_arith)
        requires
            0 <= round,
            0 < every,
    ;
    vstd::arithmetic::div_mod::lemma_fundamental_div_mod_converse(i, every, round, rest);
    if rest == 0 {
        assert(turned(turn, before, after, i, i, i + half));
    }
}

} // verus!
