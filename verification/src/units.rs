//! Sizes for people: a number with two digits behind the point, and a unit.
//!
//! Sizes are divided as 64-bit floats divide, so that what is shown is what float arithmetic
//! shows. Such a float is carried here as a whole number `m` of 53 bits and a place `x`, and
//! stands for `m` times two to the power `x - 64`.

use vstd::arithmetic::power2::{
    lemma2_to64, lemma2_to64_rest, lemma_pow2_strictly_increases, lemma_pow2_unfold, pow2,
};
use vstd::prelude::*;

use crate::text::{dec, push_dec};

verus! {

/// Two to the power 53: below it every whole number is a float.
pub const FULL: u64 = 0x20_0000_0000_0000;

/// Two to the power 52: from it on a number has all its bits.
pub const HALF: u64 = 0x10_0000_0000_0000;

/// The whole number nearest to `num / den`; of two equally near ones, the even one.
pub open spec fn nearest(num: int, den: int) -> int {
    let q = num / den;
    let r = num % den;
    if 2 * r > den || (2 * r == den && q % 2 == 1) {
        q + 1
    } else {
        q
    }
}

/// A whole number below [`FULL`] with all its bits: doubled, and its place lowered, until it has
/// them.
pub open spec fn lifted(m: int, x: int) -> (int, int)
    decreases FULL - m,
{
    if 0 < m < HALF {
        lifted(2 * m, x - 1)
    } else {
        (m, x)
    }
}

/// How many bits a whole number has too many.
pub open spec fn excess(n: int) -> nat
    decreases n,
{
    if n < FULL {
        0
    } else {
        excess(n / 2) + 1
    }
}

/// The float nearest to a whole number.
pub open spec fn as_float(n: u64) -> (int, int) {
    if n == 0 {
        (0, 12)
    } else if n < FULL {
        lifted(n as int, 64)
    } else {
        let s = excess(n as int);
        (nearest(n as int, pow2(s) as int), 64 + s as int)
    }
}

/// Whether a float is at least 1000.
pub open spec fn is_large(m: int, x: int) -> bool {
    x >= 64 || m >= 1000 * pow2((64 - x) as nat)
}

/// The float nearest to the thousandth of a float.
pub open spec fn thousandth(m: int, x: int) -> (int, int) {
    if m * 1024 >= 1000 * FULL {
        (nearest(m * 512, 1000), x - 9)
    } else {
        (nearest(m * 1024, 1000), x - 10)
    }
}

/// A float divided by 1000 as long as it is large and there is a greater unit, with the unit.
pub open spec fn reduced(m: int, x: int, unit: nat) -> (int, int, nat)
    decreases 4 - unit,
{
    if unit < 4 && is_large(m, x) {
        let (n, y) = thousandth(m, x);
        reduced(n, y, unit + 1)
    } else {
        (m, x, unit)
    }
}

/// The units, each a thousand times the one before.
pub open spec fn unit_label(unit: nat) -> Seq<char> {
    if unit == 0 {
        "B"@
    } else if unit == 1 {
        "KB"@
    } else if unit == 2 {
        "MB"@
    } else if unit == 3 {
        "GB"@
    } else {
        "TB"@
    }
}

/// A number of hundredths, with the point.
pub open spec fn with_point(h: nat) -> Seq<char> {
    dec(h / 100) + "."@ + dec(h / 10 % 10) + dec(h % 10)
}

/// A size for people.
pub open spec fn shown(bytes: u64) -> Seq<char> {
    let (m, x) = as_float(bytes);
    let (n, y, unit) = reduced(m, x, 0);
    with_point(nearest(n * 100, pow2((64 - y) as nat) as int) as nat) + " "@ + unit_label(unit)
}

fn nearest_to(num: u64, den: u64) -> (res: u64)
    requires
        0 < den < 0x4000_0000_0000_0000,
        num < 0x4000_0000_0000_0000 || den > 1,
    ensures
        res == nearest(num as int, den as int),
{
    let q: u64 = num / den;
    let r: u64 = num % den;
    proof {
        assert(q < 0x8000_0000_0000_0000) by (nonlinear_arith)
            requires
                q == num / den,
                num < 0x4000_0000_0000_0000 || den > 1,
                den > 0,
                num <= 0xFFFF_FFFF_FFFF_FFFF,
        ;
    }
    if 2 * r > den || (2 * r == den && q % 2 == 1) {
        q + 1
    } else {
        q
    }
}

fn two_to(k: u64) -> (res: u64)
    requires
        k <= 61,
    ensures
        res == pow2(k as nat),
        0 < res < 0x4000_0000_0000_0000,
{
    let mut p: u64 = 1;
    let mut i: u64 = 0;
    proof {
        lemma2_to64();
    }
    while i < k
        invariant
            i <= k <= 61,
            p == pow2(i as nat),
            0 < p < 0x4000_0000_0000_0000,
        decreases k - i,
    {
        proof {
            lemma_pow2_unfold((i + 1) as nat);
            lemma_pow2_strictly_increases((i + 1) as nat, 62);
            lemma2_to64_rest();
        }
        p = p * 2;
        i += 1;
    }
    p
}

/// A number with all its bits, and a place from which it can still be lowered.
spec fn placed(m: int, x: int) -> bool {
    (m == 0 && x == 12) || (HALF <= m <= FULL && 11 <= x <= 75)
}

proof fn lemma_lifted(m: int, x: int)
    requires
        0 < m < FULL,
        12 <= x <= 64,
        m >= pow2((64 - x) as nat),
    ensures
        HALF <= lifted(m, x).0 < FULL,
        12 <= lifted(m, x).1 <= 64,
    decreases FULL - m,
{
    lemma2_to64();
    if m < HALF {
        if x == 12 {
            lemma2_to64_rest();
        }
        lemma_pow2_unfold((64 - (x - 1)) as nat);
        lemma_lifted(2 * m, x - 1);
    }
}

proof fn lemma_excess(n: int)
    requires
        FULL <= n <= u64::MAX,
    ensures
        1 <= excess(n) <= 11,
        HALF * pow2(excess(n)) <= n < FULL * pow2(excess(n)),
{
    lemma2_to64();
    reveal_with_fuel(excess, 13);
}

fn float_of(n: u64) -> (res: (u64, u64))
    ensures
        (res.0 as int, res.1 as int) == as_float(n),
        placed(res.0 as int, res.1 as int),
{
    if n == 0 {
        return (0, 12);
    }
    proof {
        lemma2_to64();
    }
    if n < FULL {
        let mut m: u64 = n;
        let mut x: u64 = 64;
        proof {
            lemma_lifted(n as int, 64);
        }
        while m < HALF
            invariant
                0 < m < FULL,
                12 <= x <= 64,
                m >= pow2((64 - x) as nat),
                lifted(n as int, 64) == lifted(m as int, x as int),
                HALF <= lifted(n as int, 64).0 < FULL,
                12 <= lifted(n as int, 64).1 <= 64,
            decreases FULL - m,
        {
            proof {
                if x == 12 {
                    lemma2_to64_rest();
                }
                lemma_pow2_unfold((64 - (x - 1)) as nat);
            }
            m = m * 2;
            x = x - 1;
        }
        (m, x)
    } else {
        let mut k: u64 = n;
        let mut s: u64 = 0;
        proof {
            lemma_excess(n as int);
        }
        while k >= FULL
            invariant
                excess(n as int) == excess(k as int) + s,
                excess(n as int) <= 11,
            decreases k,
        {
            k = k / 2;
            s += 1;
        }
        let p: u64 = two_to(s);
        let m: u64 = nearest_to(n, p);
        proof {
            let q = n as int / p as int;
            assert(HALF <= q < FULL) by (nonlinear_arith)
                requires
                    q == n as int / p as int,
                    p > 0,
                    HALF * p <= n < FULL * p,
            ;
        }
        (m, 64 + s)
    }
}

fn large(m: u64, x: u64) -> (res: bool)
    requires
        placed(m as int, x as int),
    ensures
        res == is_large(m as int, x as int),
        res ==> m > 0 && x >= 21,
        !res ==> x <= 21,
{
    if x >= 64 {
        return true;
    }
    proof {
        lemma2_to64();
        lemma2_to64_rest();
        if x <= 20 {
            lemma_pow2_strictly_increases(43, (64 - x) as nat);
        }
        if x >= 22 {
            if x > 22 {
                lemma_pow2_strictly_increases((64 - x) as nat, 42);
            }
        }
        lemma_pow2_strictly_increases((64 - x) as nat, 54);
    }
    m >= 1000 * two_to(64 - x)
}

fn divide(m: u64, x: u64) -> (res: (u64, u64))
    requires
        HALF <= m <= FULL,
        21 <= x <= 75,
    ensures
        (res.0 as int, res.1 as int) == thousandth(m as int, x as int),
        placed(res.0 as int, res.1 as int),
        res.1 <= x - 9,
{
    if m * 1024 >= 1000 * FULL {
        (nearest_to(m * 512, 1000), x - 9)
    } else {
        (nearest_to(m * 1024, 1000), x - 10)
    }
}

fn push_unit(s: &mut String, unit: u64)
    ensures
        final(s)@ == old(s)@ + unit_label(unit as nat),
{
    if unit == 0 {
        s.append("B");
    } else if unit == 1 {
        s.append("KB");
    } else if unit == 2 {
        s.append("MB");
    } else if unit == 3 {
        s.append("GB");
    } else {
        s.append("TB");
    }
}

/// A size for people, such as `8.24 GB`.
pub fn human(bytes: u64) -> (res: String)
    ensures
        res@ == shown(bytes),
{
    let (m, x) = float_of(bytes);
    let mut n: u64 = m;
    let mut y: u64 = x;
    let mut unit: u64 = 0;
    while unit < 4 && large(n, y)
        invariant
            unit <= 4,
            placed(n as int, y as int),
            reduced(m as int, x as int, 0) == reduced(n as int, y as int, unit as nat),
            y + 9 * unit <= 75,
        ensures
            placed(n as int, y as int),
            reduced(m as int, x as int, 0) == (n as int, y as int, unit as nat),
            y <= 63,
        decreases 4 - unit,
    {
        let (a, b) = divide(n, y);
        n = a;
        y = b;
        unit += 1;
    }
    let h: u64 = nearest_to(n * 100, two_to(64 - y));
    let mut s = String::new();
    push_dec(&mut s, h / 100);
    s.append(".");
    push_dec(&mut s, h / 10 % 10);
    push_dec(&mut s, h % 10);
    s.append(" ");
    push_unit(&mut s, unit);
    proof {
        assert(s@ =~= shown(bytes));
    }
    s
}

} // verus!
