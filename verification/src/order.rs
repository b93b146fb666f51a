//! Stable sorting: the places of keys in ascending order, where equal keys keep their order.

use vstd::prelude::*;
use vstd::set_lib::{lemma_int_range, lemma_subset_equality, set_int_range};

verus! {

/// Place `i` comes before place `j`: by key, and among equal keys by place.
pub open spec fn comes_before(keys: Seq<u64>, i: int, j: int) -> bool {
    keys[i] < keys[j] || (keys[i] == keys[j] && i < j)
}

/// `order` lists all places, each before the next.
pub open spec fn in_order(keys: Seq<u64>, order: Seq<usize>) -> bool {
    &&& order.len() == keys.len()
    &&& forall|a: int| 0 <= a < order.len() ==> 0 <= #[trigger] order[a] < keys.len()
    &&& forall|a: int, b: int|
        0 <= a < b < order.len() ==> comes_before(
            keys,
            #[trigger] order[a] as int,
            #[trigger] order[b] as int,
        )
}

/// `v` lists the places from `lo` to `hi`, each before the next.
spec fn run(keys: Seq<u64>, v: Seq<usize>, lo: int, hi: int) -> bool {
    &&& v.len() == hi - lo
    &&& forall|a: int| 0 <= a < v.len() ==> lo <= #[trigger] v[a] < hi
    &&& forall|a: int, b: int|
        0 <= a < b < v.len() ==> comes_before(keys, #[trigger] v[a] as int, #[trigger] v[b] as int)
}

/// Merges the runs of two neighbouring stretches.
fn merge_runs(
    keys: &Vec<u64>,
    left: &Vec<usize>,
    right: &Vec<usize>,
    Ghost(lo): Ghost<int>,
    Ghost(mid): Ghost<int>,
    Ghost(hi): Ghost<int>,
) -> (out: Vec<usize>)
    requires
        0 <= lo <= mid <= hi <= keys@.len(),
        run(keys@, left@, lo, mid),
        run(keys@, right@, mid, hi),
    ensures
        run(keys@, out@, lo, hi),
{
    let mut out: Vec<usize> = Vec::new();
    let mut i: usize = 0;
    let mut j: usize = 0;
    while i < left.len() || j < right.len()
        invariant
            0 <= lo <= mid <= hi <= keys@.len(),
            i <= left@.len(),
            j <= right@.len(),
            run(keys@, left@, lo, mid),
            run(keys@, right@, mid, hi),
            out@.len() == i + j,
            forall|a: int| 0 <= a < out@.len() ==> lo <= #[trigger] out@[a] < hi,
            forall|a: int, b: int|
                0 <= a < b < out@.len() ==> comes_before(
                    keys@,
                    #[trigger] out@[a] as int,
                    #[trigger] out@[b] as int,
                ),
            forall|a: int|
                0 <= a < out@.len() && i < left@.len() ==> comes_before(
                    keys@,
                    #[trigger] out@[a] as int,
                    left@[i as int] as int,
                ),
            forall|a: int|
                0 <= a < out@.len() && j < right@.len() ==> comes_before(
                    keys@,
                    #[trigger] out@[a] as int,
                    right@[j as int] as int,
                ),
        decreases (left@.len() - i) + (right@.len() - j),
    {
        let take_left = if i == left.len() {
            false
        } else if j == right.len() {
            true
        } else {
            keys[left[i]] <= keys[right[j]]
        };
        if take_left {
            out.push(left[i]);
            i += 1;
        } else {
            out.push(right[j]);
            j += 1;
        }
    }
    out
}

fn sort_run(keys: &Vec<u64>, lo: usize, hi: usize) -> (out: Vec<usize>)
    requires
        lo <= hi <= keys@.len(),
    ensures
        run(keys@, out@, lo as int, hi as int),
    decreases hi - lo,
{
    let mut out: Vec<usize> = Vec::new();
    if hi - lo == 0 {
        return out;
    }
    if hi - lo == 1 {
        out.push(lo);
        return out;
    }
    let mid: usize = lo + (hi - lo) / 2;
    let left = sort_run(keys, lo, mid);
    let right = sort_run(keys, mid, hi);
    merge_runs(keys, &left, &right, Ghost(lo as int), Ghost(mid as int), Ghost(hi as int))
}

/// The places of the keys in ascending order.
pub fn stable_order(keys: &Vec<u64>) -> (order: Vec<usize>)
    ensures
        in_order(keys@, order@),
{
    sort_run(keys, 0, keys.len())
}

/// An order lists every place.
pub proof fn lemma_order_complete(keys: Seq<u64>, order: Seq<usize>, m: int)
    requires
        in_order(keys, order),
        0 <= m < keys.len(),
    ensures
        exists|a: int| 0 <= a < order.len() && #[trigger] order[a] == m,
{
    let places = order.map_values(|p: usize| p as int);
    assert(places.no_duplicates()) by {
        assert forall|a: int, b: int| 0 <= a < places.len() && 0 <= b < places.len() && a != b implies
            places[a] != places[b] by {
            if a < b {
                assert(comes_before(keys, order[a] as int, order[b] as int));
            } else {
                assert(comes_before(keys, order[b] as int, order[a] as int));
            }
        }
    }
    places.unique_seq_to_set();
    let all = set_int_range(0, keys.len() as int);
    lemma_int_range(0, keys.len() as int);
    assert(places.to_set().subset_of(all)) by {
        assert forall|x: int| places.to_set().contains(x) implies all.contains(x) by {
            let a = choose|a: int| 0 <= a < places.len() && places[a] == x;
            assert(0 <= order[a] < keys.len());
        }
    }
    lemma_subset_equality(places.to_set(), all);
    assert(all.contains(m));
    assert(places.contains(m));
    let a = choose|a: int| 0 <= a < places.len() && places[a] == m;
    assert(order[a] == m);
}

/// There is only one order of given keys.
pub proof fn law_order_is_unique(keys: Seq<u64>, a: Seq<usize>, b: Seq<usize>)
    requires
        in_order(keys, a),
        in_order(keys, b),
    ensures
        a == b,
{
    if a != b {
        assert(!(a =~= b));
        let k = lemma_first_difference(a, b, 0);
        let x = a[k] as int;
        let y = b[k] as int;
        lemma_order_complete(keys, b, x);
        lemma_order_complete(keys, a, y);
        let p = choose|p: int| 0 <= p < b.len() && #[trigger] b[p] == x;
        let q = choose|q: int| 0 <= q < a.len() && #[trigger] a[q] == y;
        if p < k {
            assert(a[p] == b[p]);
            assert(comes_before(keys, a[p] as int, a[k] as int));
        } else if q < k {
            assert(b[q] == a[q]);
            assert(comes_before(keys, b[q] as int, b[k] as int));
        } else {
            assert(p > k);
            assert(q > k);
            assert(comes_before(keys, b[k] as int, b[p] as int));
            assert(comes_before(keys, a[k] as int, a[q] as int));
        }
    }
}

proof fn lemma_first_difference(a: Seq<usize>, b: Seq<usize>, i: int) -> (k: int)
    requires
        a.len() == b.len(),
        a != b,
        0 <= i <= a.len(),
        forall|j: int| 0 <= j < i ==> a[j] == b[j],
    ensures
        0 <= k < a.len(),
        a[k] != b[k],
        forall|j: int| 0 <= j < k ==> a[j] == b[j],
    decreases a.len() - i,
{
    if i == a.len() {
        assert(a =~= b);
        0
    } else if a[i] != b[i] {
        i
    } else {
        lemma_first_difference(a, b, i + 1)
    }
}

} // verus!
