//! The table of tensors as `inspect` shows it.

use vstd::prelude::*;

use crate::gguf::metadata::views;
use crate::gguf::tensor_info::{Tensor, TensorMeta};
use crate::order::{in_order, stable_order};
use crate::text::{dec, push_dec};

verus! {

/// Dimensions with an `x` between two.
pub open spec fn dims_listed(shape: Seq<u64>) -> Seq<char>
    decreases shape.len(),
{
    if shape.len() == 0 {
        Seq::empty()
    } else if shape.len() == 1 {
        dec(shape[0] as nat)
    } else {
        dims_listed(shape.drop_last()) + "x"@ + dec(shape.last() as nat)
    }
}

/// Dimensions with an `x` between two.
pub fn dims_text(shape: &[u64]) -> (res: String)
    ensures
        res@ == dims_listed(shape@),
{
    let mut s = String::new();
    let mut i: usize = 0;
    proof {
        assert(shape@.take(0) =~= Seq::<u64>::empty());
        assert(s@ =~= Seq::<char>::empty());
    }
    while i < shape.len()
        invariant
            i <= shape@.len(),
            s@ == dims_listed(shape@.take(i as int)),
        decreases shape@.len() - i,
    {
        proof {
            assert(shape@.take(i + 1).drop_last() =~= shape@.take(i as int));
            assert(shape@.take(i + 1).last() == shape@[i as int]);
        }
        if i > 0 {
            s.append("x");
        }
        push_dec(&mut s, shape[i]);
        proof {
            if i == 0 {
                assert(shape@.take(1)[0] == shape@[0]);
                assert(s@ =~= dims_listed(shape@.take(1)));
            }
        }
        i += 1;
    }
    proof {
        assert(shape@.take(i as int) =~= shape@);
    }
    s
}

/// The exact size of a tensor in words; a question mark where it is not known.
pub open spec fn size_shown(nbytes: Option<u64>) -> Seq<char> {
    match nbytes {
        Some(b) => dec(b as nat),
        None => "?"@,
    }
}

/// The exact size of a tensor in words; a question mark where it is not known.
pub fn size_text(nbytes: Option<u64>) -> (res: String)
    ensures
        res@ == size_shown(nbytes),
{
    match nbytes {
        Some(b) => {
            let mut s = String::new();
            push_dec(&mut s, b);
            proof {
                assert(s@ =~= dec(b as nat));
            }
            s
        },
        None => String::from_str("?"),
    }
}

/// Keys by which greater tensors come first; one of unknown size counts as empty.
pub open spec fn by_falling_size(tensors: Seq<Tensor>) -> Seq<u64> {
    tensors.map_values(
        |t: Tensor|
            (u64::MAX - match t.nbytes {
                Some(b) => b,
                None => 0,
            }) as u64,
    )
}

/// The places of the `n` greatest tensors, the greatest first and equal ones in their order.
pub fn greatest(tensors: &[TensorMeta], n: usize) -> (res: Vec<usize>)
    ensures
        exists|order: Seq<usize>| #[trigger]
            in_order(by_falling_size(views(tensors@)), order) && res@ == if n < order.len() {
                order.take(n as int)
            } else {
                order
            },
{
    let ghost ts = views(tensors@);
    let mut keys: Vec<u64> = Vec::new();
    let mut i: usize = 0;
    while i < tensors.len()
        invariant
            ts == views(tensors@),
            i <= tensors@.len(),
            keys@ == by_falling_size(ts).take(i as int),
        decreases tensors@.len() - i,
    {
        let size: u64 = match tensors[i].nbytes {
            Some(b) => b,
            None => 0,
        };
        proof {
            assert(ts[i as int] == tensors@[i as int]@);
            assert(by_falling_size(ts)[i as int] == u64::MAX - size);
            assert(by_falling_size(ts).take(i + 1) =~= by_falling_size(ts).take(i as int).push(
                (u64::MAX - size) as u64,
            ));
        }
        keys.push(u64::MAX - size);
        i += 1;
    }
    proof {
        assert(by_falling_size(ts).take(i as int) =~= by_falling_size(ts));
    }
    let mut order = stable_order(&keys);
    let ghost all = order@;
    order.truncate(n);
    proof {
        assert(in_order(by_falling_size(ts), all));
        if n >= all.len() {
            assert(order@ =~= all);
        } else {
            assert(order@ =~= all.take(n as int));
        }
    }
    order
}

/// Tensors by size come in falling order, and equal ones in the order of the table; one of unknown
/// size counts as empty.
pub proof fn law_greater_tensors_come_first(ts: Seq<Tensor>, order: Seq<usize>, a: int, b: int)
    requires
        in_order(by_falling_size(ts), order),
        0 <= a < b < ts.len(),
    ensures
        order.len() == ts.len(),
        0 <= order[a] < ts.len(),
        0 <= order[b] < ts.len(),
        ({
            let size = |i: int| if ts[i].nbytes is Some {
                ts[i].nbytes->0 as int
            } else {
                0
            };
            size(order[a] as int) > size(order[b] as int) || (size(order[a] as int) == size(
                order[b] as int,
            ) && order[a] < order[b])
        }),
{
    let keys = by_falling_size(ts);
    assert(crate::order::comes_before(keys, order[a] as int, order[b] as int));
}

} // verus!
