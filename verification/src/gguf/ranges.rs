//! Where the tensors' data lies: alignment, the end of the file, and overlap.
//!
//! The tensors are taken in the order of their offsets, and those with one offset in the order
//! of the table. The first in that order that fails a check decides the refusal.

use vstd::prelude::*;

use super::metadata::views;
use super::tensor_info::{Tensor, TensorMeta};
use crate::error::{LoadError, Refusal};
use crate::order::{comes_before, in_order, lemma_order_complete, stable_order};

verus! {

/// The alignment of the data section and of every tensor in it.
pub const GGUF_ALIGN: u64 = 32;

/// Tensor `i` comes before tensor `j`: by offset, and at one offset by place in the table.
pub open spec fn before(ts: Seq<Tensor>, i: int, j: int) -> bool {
    ts[i].offset < ts[j].offset || (ts[i].offset == ts[j].offset && i < j)
}

/// Where the data of a tensor of known size ends.
pub open spec fn end_of(t: Tensor) -> int {
    t.offset + t.nbytes->0
}

/// Tensor `i`, of known size, comes before `j` and reaches into it.
pub open spec fn reaches_into(ts: Seq<Tensor>, i: int, j: int) -> bool {
    0 <= i < ts.len() && before(ts, i, j) && ts[i].nbytes is Some && end_of(ts[i]) > ts[j].offset
}

/// Tensor `i` is the last of those that reach into `j`.
pub open spec fn last_into(ts: Seq<Tensor>, i: int, j: int) -> bool {
    &&& reaches_into(ts, i, j)
    &&& forall|m: int| #[trigger] reaches_into(ts, m, j) ==> m == i || before(ts, m, i)
}

/// What is wrong with the place of tensor `j`, if anything: an offset that is not aligned; data
/// that ends behind the file; data into which a tensor before it reaches, of which the last is
/// named. Of a tensor whose size is not known only the alignment is asked.
pub open spec fn fault(ts: Seq<Tensor>, fs: int, j: int) -> Option<Refusal> {
    let t = ts[j];
    if t.offset % GGUF_ALIGN != 0 {
        Some(
            Refusal::MisalignedTensor {
                name: t.name,
                offset: t.offset as int,
                align: GGUF_ALIGN as int,
            },
        )
    } else if t.nbytes is None {
        None
    } else if end_of(t) > fs {
        Some(
            Refusal::TensorOutOfBounds {
                name: t.name,
                offset: t.offset as int,
                nbytes: t.nbytes->0 as int,
                file_size: fs,
            },
        )
    } else if exists|i: int| reaches_into(ts, i, j) {
        let i = choose|i: int| last_into(ts, i, j);
        Some(
            Refusal::TensorOverlap {
                a: ts[i].name,
                b: t.name,
                a_end: end_of(ts[i]),
                b_start: t.offset as int,
            },
        )
    } else {
        None
    }
}

/// Tensor `j` is the first, in the order of the offsets, with a fault.
pub open spec fn first_fault(ts: Seq<Tensor>, fs: int, j: int) -> bool {
    &&& 0 <= j < ts.len()
    &&& fault(ts, fs, j) is Some
    &&& forall|m: int| 0 <= m < ts.len() && #[trigger] before(ts, m, j) ==> fault(ts, fs, m) is None
}

/// The refusal of a table of tensors, if one is due: the fault of the first that has one.
pub open spec fn table_fault(ts: Seq<Tensor>, fs: int) -> Option<Refusal> {
    if exists|j: int| first_fault(ts, fs, j) {
        fault(ts, fs, choose|j: int| first_fault(ts, fs, j))
    } else {
        None
    }
}

/// The offsets of a table.
pub open spec fn offsets(ts: Seq<Tensor>) -> Seq<u64> {
    ts.map_values(|t: Tensor| t.offset)
}

/// The places of the tensors in the table, in the order of their offsets.
pub fn offset_order(tensors: &Vec<TensorMeta>) -> (order: Vec<usize>)
    ensures
        in_order(offsets(views(tensors@)), order@),
{
    let mut keys: Vec<u64> = Vec::new();
    let mut i: usize = 0;
    while i < tensors.len()
        invariant
            i <= tensors@.len(),
            keys@.len() == i,
            forall|j: int| 0 <= j < i ==> keys@[j] == (#[trigger] tensors@[j]).offset,
        decreases tensors@.len() - i,
    {
        keys.push(tensors[i].offset);
        i += 1;
    }
    proof {
        assert(keys@ =~= offsets(views(tensors@)));
    }
    stable_order(&keys)
}

/// Before a place in an order stand all tensors that come before the one at that place, and no
/// others.
proof fn lemma_order_before(ts: Seq<Tensor>, order: Seq<usize>, a: int)
    requires
        in_order(offsets(ts), order),
        0 <= a < ts.len(),
    ensures
        forall|b: int| 0 <= b < a ==> before(ts, #[trigger] order[b] as int, order[a] as int),
        forall|m: int|
            0 <= m < ts.len() && #[trigger] before(ts, m, order[a] as int) ==> exists|b: int|
                0 <= b < a && #[trigger] order[b] == m,
{
    let keys = offsets(ts);
    assert(forall|i: int, j: int|
        0 <= i < ts.len() && 0 <= j < ts.len() ==> #[trigger] before(ts, i, j) == comes_before(keys, i, j));
    assert forall|m: int| 0 <= m < ts.len() && #[trigger] before(ts, m, order[a] as int) implies exists|
        b: int,
    | 0 <= b < a && #[trigger] order[b] == m by {
        lemma_order_complete(offsets(ts), order, m);
        let b = choose|b: int| 0 <= b < order.len() && #[trigger] order[b] == m;
        if b > a {
            assert(comes_before(offsets(ts), order[a] as int, order[b] as int));
        }
        assert(0 <= b < a);
    }
}

/// Where no tensor before `j` has a fault and `i` is the last of known size among them, no other
/// than `i` can reach into `j`.
proof fn lemma_only_last_reaches(ts: Seq<Tensor>, fs: int, i: int, j: int, c: int)
    requires
        0 <= i < ts.len(),
        before(ts, i, j),
        ts[i].nbytes is Some,
        fault(ts, fs, i) is None,
        forall|m: int|
            0 <= m < ts.len() && #[trigger] before(ts, m, j) && ts[m].nbytes is Some ==> m == i
                || before(ts, m, i),
        reaches_into(ts, c, j),
    ensures
        c == i,
{
    if c != i {
        assert(before(ts, c, i));
        assert(!reaches_into(ts, c, i));
    }
}

/// At most one tensor is the first with a fault.
proof fn lemma_first_fault_unique(ts: Seq<Tensor>, fs: int, j1: int, j2: int)
    requires
        first_fault(ts, fs, j1),
        first_fault(ts, fs, j2),
    ensures
        j1 == j2,
{
    if j1 != j2 {
        assert(before(ts, j1, j2) || before(ts, j2, j1));
    }
}

/// Checks the places of all tensors of a table against a file of `file_size` bytes.
pub fn check_ranges(tensors: &Vec<TensorMeta>, file_size: u64) -> (res: Result<(), LoadError>)
    ensures
        match table_fault(views(tensors@), file_size as int) {
            None => res is Ok,
            Some(e) => res is Err && res->Err_0@ == e,
        },
{
    let ghost ts = views(tensors@);
    let ghost fs = file_size as int;
    let order = offset_order(tensors);
    let mut last: Option<usize> = None;
    let mut a: usize = 0;
    while a < order.len()
        invariant
            ts == views(tensors@),
            fs == file_size,
            in_order(offsets(ts), order@),
            a <= order@.len(),
            forall|b: int| 0 <= b < a ==> fault(ts, fs, #[trigger] order@[b] as int) is None,
            match last {
                None => forall|b: int| 0 <= b < a ==> ts[#[trigger] order@[b] as int].nbytes is None,
                Some(p) => {
                    &&& p < a
                    &&& ts[order@[p as int] as int].nbytes is Some
                    &&& forall|b: int|
                        p < b < a ==> ts[#[trigger] order@[b] as int].nbytes is None
                },
            },
        decreases order@.len() - a,
    {
        let ghost j = order@[a as int] as int;
        let t = &tensors[order[a]];
        proof {
            lemma_order_before(ts, order@, a as int);
            assert(fault(ts, fs, j) is Some ==> first_fault(ts, fs, j));
            if fault(ts, fs, j) is Some {
                let c = choose|c: int| first_fault(ts, fs, c);
                lemma_first_fault_unique(ts, fs, j, c);
                assert(table_fault(ts, fs) == fault(ts, fs, j));
            }
            assert(ts[j] == t@);
        }
        if t.offset % GGUF_ALIGN != 0 {
            return Err(
                LoadError::MisalignedTensor {
                    name: t.name.clone(),
                    offset: t.offset,
                    align: GGUF_ALIGN,
                },
            );
        }
        if let Some(nb) = t.nbytes {
            let inside = match t.offset.checked_add(nb) {
                Some(end) => end <= file_size,
                None => false,
            };
            if !inside {
                return Err(
                    LoadError::TensorOutOfBounds {
                        name: t.name.clone(),
                        offset: t.offset,
                        nbytes: nb,
                        file_size,
                    },
                );
            }
            if let Some(p) = last {
                let pr = &tensors[order[p]];
                let ghost i = order@[p as int] as int;
                proof {
                    assert(ts[i] == pr@);
                    assert(fault(ts, fs, i) is None);
                    assert(before(ts, i, j));
                    lemma_order_before(ts, order@, p as int);
                    assert forall|m: int|
                        0 <= m < ts.len() && #[trigger] before(ts, m, j) && ts[m].nbytes is Some implies m
                        == i || before(ts, m, i) by {
                        let b = choose|b: int| 0 <= b < a && #[trigger] order@[b] == m;
                        assert(b <= p);
                    }
                    assert forall|c: int| #[trigger] reaches_into(ts, c, j) implies c == i by {
                        lemma_only_last_reaches(ts, fs, i, j, c);
                    }
                }
                if let Some(pr_nb) = pr.nbytes {
                    let pr_end: u64 = pr.offset + pr_nb;
                    if pr_end > t.offset {
                        proof {
                            assert(reaches_into(ts, i, j));
                            assert(last_into(ts, i, j));
                        }
                        return Err(
                            LoadError::TensorOverlap {
                                a: pr.name.clone(),
                                b: t.name.clone(),
                                a_end: pr_end,
                                b_start: t.offset,
                            },
                        );
                    }
                }
            }
            last = Some(a);
        }
        proof {
            assert(fault(ts, fs, j) is None);
        }
        a += 1;
    }
    proof {
        if exists|c: int| first_fault(ts, fs, c) {
            let c = choose|c: int| first_fault(ts, fs, c);
            lemma_order_complete(offsets(ts), order@, c);
        }
    }
    Ok(())
}

} // verus!
