//! Rows changed number by number.

use vstd::prelude::*;

use super::strides::{total1, zipped};
use super::sums::total;

verus! {

/// `out` holds the numbers of `x`, changed one by one.
pub open spec fn mapped<A, B, F: Fn(A) -> B>(f: F, x: Seq<A>, out: Seq<B>) -> bool {
    &&& out.len() == x.len()
    &&& forall|i: int| 0 <= i < x.len() ==> f.ensures((x[i],), #[trigger] out[i])
}

/// Changes numbers one by one.
pub fn map_all<A: Copy, B: Copy, F: Fn(A) -> B>(x: &[A], f: &F) -> (out: Vec<B>)
    requires
        total1(*f),
    ensures
        mapped(*f, x@, out@),
{
    let mut out: Vec<B> = Vec::with_capacity(x.len());
    let mut i: usize = 0;
    while i < x.len()
        invariant
            total1(*f),
            i <= x@.len(),
            out@.len() == i,
            forall|j: int| 0 <= j < i ==> f.ensures((x@[j],), #[trigger] out@[j]),
        decreases x@.len() - i,
    {
        proof {
            assert(f.requires((x@[i as int],)));
        }
        let v = f(x[i]);
        out.push(v);
        i += 1;
    }
    out
}

/// Combines the numbers of two rows, one by one.
pub fn zip_all<A: Copy, B: Copy, C: Copy, F: Fn(A, B) -> C>(x: &[A], y: &[B], f: &F) -> (out: Vec<C>)
    requires
        total(*f),
        x@.len() == y@.len(),
    ensures
        zipped(*f, x@, y@, out@),
{
    let mut out: Vec<C> = Vec::with_capacity(x.len());
    let mut i: usize = 0;
    while i < x.len()
        invariant
            total(*f),
            x@.len() == y@.len(),
            i <= x@.len(),
            out@.len() == i,
            forall|j: int| 0 <= j < i ==> f.ensures((x@[j], y@[j]), #[trigger] out@[j]),
        decreases x@.len() - i,
    {
        proof {
            assert(f.requires((x@[i as int], y@[i as int])));
        }
        let v = f(x[i], y[i]);
        out.push(v);
        i += 1;
    }
    out
}

/// `out` holds the numbers of `x`, each combined with `s`.
pub open spec fn combined<A, B, C, F: Fn(A, B) -> C>(f: F, x: Seq<A>, s: B, out: Seq<C>) -> bool {
    &&& out.len() == x.len()
    &&& forall|i: int| 0 <= i < x.len() ==> f.ensures((x[i], s), #[trigger] out[i])
}

pub(crate) fn combine_all<A: Copy, B: Copy, C: Copy, F: Fn(A, B) -> C>(x: &[A], s: B, f: &F) -> (out: Vec<C>)
    requires
        total(*f),
    ensures
        combined(*f, x@, s, out@),
{
    let mut out: Vec<C> = Vec::with_capacity(x.len());
    let mut i: usize = 0;
    while i < x.len()
        invariant
            total(*f),
            i <= x@.len(),
            out@.len() == i,
            forall|j: int| 0 <= j < i ==> f.ensures((x@[j], s), #[trigger] out@[j]),
        decreases x@.len() - i,
    {
        proof {
            assert(f.requires((x@[i as int], s)));
        }
        let v = f(x[i], s);
        out.push(v);
        i += 1;
    }
    out
}

} // verus!
