//! Element types, views of tensor data, and looking rows up.

use vstd::prelude::*;

verus! {

/// The element types that the runtime knows. The packed ones are views of blocks.
#[derive(Debug, Clone, Copy, PartialEq, Eq, Structural)]
pub enum DType {
    F32,
    F16,
    BF16,
    I8,
    U8,
    /// Blocks of 256 weights of 4 bits.
    Q4K,
    /// Blocks of 256 weights of 6 bits.
    Q6K,
    /// Blocks of 32 weights of 8 bits.
    Q8_0,
}

impl DType {
    /// The bytes of one element; `None` for a packed type.
    pub open spec fn bytes(self) -> Option<usize> {
        match self {
            DType::F32 => Some(4),
            DType::F16 | DType::BF16 => Some(2),
            DType::I8 | DType::U8 => Some(1),
            DType::Q4K | DType::Q6K | DType::Q8_0 => None,
        }
    }

    /// The type's name in messages.
    pub open spec fn label(self) -> Seq<char> {
        match self {
            DType::F32 => "F32"@,
            DType::F16 => "F16"@,
            DType::BF16 => "BF16"@,
            DType::I8 => "I8"@,
            DType::U8 => "U8"@,
            DType::Q4K => "Q4K"@,
            DType::Q6K => "Q6K"@,
            DType::Q8_0 => "Q8_0"@,
        }
    }

    /// The bytes of one element; `None` for a packed type.
    pub fn elem_bytes(self) -> (res: Option<usize>)
        ensures
            res == self.bytes(),
    {
        match self {
            DType::F32 => Some(4),
            DType::F16 | DType::BF16 => Some(2),
            DType::I8 | DType::U8 => Some(1),
            DType::Q4K | DType::Q6K | DType::Q8_0 => None,
        }
    }

    /// The type's name in messages.
    pub fn name(self) -> (res: &'static str)
        ensures
            res@ == self.label(),
    {
        match self {
            DType::F32 => "F32",
            DType::F16 => "F16",
            DType::BF16 => "BF16",
            DType::I8 => "I8",
            DType::U8 => "U8",
            DType::Q4K => "Q4K",
            DType::Q6K => "Q6K",
            DType::Q8_0 => "Q8_0",
        }
    }
}

/// Bytes that belong to someone else, with their type and shape.
#[derive(Debug, Clone, Copy)]
pub struct TensorView<'a> {
    pub dtype: DType,
    pub shape: &'a [usize],
    pub data: &'a [u8],
}

/// The product of the dimensions.
pub open spec fn volume(shape: Seq<usize>) -> nat
    decreases shape.len(),
{
    if shape.len() == 0 {
        1
    } else {
        volume(shape.drop_last()) * shape.last() as nat
    }
}

impl<'a> TensorView<'a> {
    /// The number of elements: the product of the dimensions, which has to stay within a `usize`
    /// on the way.
    pub fn numel(&self) -> (res: usize)
        requires
            forall|k: int|
                0 <= k <= self.shape@.len() ==> #[trigger] volume(self.shape@.take(k))
                    <= usize::MAX,
        ensures
            res == volume(self.shape@),
    {
        let shape = self.shape;
        let mut n: usize = 1;
        let mut i: usize = 0;
        proof {
            assert(shape@.take(0) =~= Seq::<usize>::empty());
        }
        while i < shape.len()
            invariant
                i <= shape@.len(),
                n == volume(shape@.take(i as int)),
                forall|k: int|
                    0 <= k <= shape@.len() ==> #[trigger] volume(shape@.take(k)) <= usize::MAX,
            decreases shape@.len() - i,
        {
            proof {
                assert(shape@.take(i + 1).drop_last() =~= shape@.take(i as int));
                assert(shape@.take(i + 1).last() == shape@[i as int]);
                assert(volume(shape@.take(i + 1)) <= usize::MAX);
            }
            n = n * shape[i];
            i += 1;
        }
        proof {
            assert(shape@.take(i as int) =~= shape@);
        }
        n
    }
}

/// Row `r` of a table of rows of `dim` elements.
pub open spec fn row<T>(table: Seq<T>, dim: int, r: int) -> Seq<T> {
    table.subrange(r * dim, r * dim + dim)
}

/// The rows of the given numbers, one behind the other.
pub open spec fn rows<T>(table: Seq<T>, dim: int, ids: Seq<u32>) -> Seq<T>
    decreases ids.len(),
{
    if ids.len() == 0 {
        Seq::empty()
    } else {
        rows(table, dim, ids.drop_last()) + row(table, dim, ids.last() as int)
    }
}

proof fn lemma_rows_len<T>(table: Seq<T>, dim: int, ids: Seq<u32>)
    requires
        dim >= 0,
        forall|i: int| 0 <= i < ids.len() ==> (#[trigger] ids[i]) * dim + dim <= table.len(),
    ensures
        rows(table, dim, ids).len() == ids.len() * dim,
    decreases ids.len(),
{
    let n = ids.len() as int;
    if n > 0 {
        let front = ids.drop_last();
        assert forall|i: int| 0 <= i < front.len() implies (#[trigger] front[i]) * dim + dim
            <= table.len() by {
            assert(front[i] == ids[i]);
        }
        lemma_rows_len(table, dim, front);
        assert(ids.last() == ids[n - 1]);
        assert(0 <= ids[n - 1] * dim) by (nonlinear_arith)
            requires
                dim >= 0,
        ;
        assert((n - 1) * dim + dim == n * dim) by (nonlinear_arith);
    } else {
        assert(0 * dim == 0) by (nonlinear_arith);
    }
}

/// Copies the rows of the given numbers out of a table of whole rows. A number behind the table is
/// not clamped: the caller rules it out.
pub fn embedding_lookup<T: Copy>(out: &mut [T], table: &[T], ids: &[u32], dim: usize)
    requires
        dim > 0,
        table@.len() % dim as nat == 0,
        old(out)@.len() == ids@.len() * dim,
        forall|i: int|
            0 <= i < ids@.len() ==> (#[trigger] ids@[i]) * dim + dim <= table@.len(),
    ensures
        final(out)@ == rows(table@, dim as int, ids@),
{
    let mut r: usize = 0;
    proof {
        assert(ids@.take(0) =~= Seq::<u32>::empty());
        assert(out@.take(0) =~= Seq::<T>::empty());
        assert(0 * dim == 0) by (nonlinear_arith);
    }
    while r < ids.len()
        invariant
            r <= ids@.len(),
            dim > 0,
            out@.len() == ids@.len() * dim,
            out@.take(r * dim) == rows(table@, dim as int, ids@.take(r as int)),
            forall|j: int|
                0 <= j < ids@.len() ==> (#[trigger] ids@[j]) * dim + dim <= table@.len(),
        decreases ids@.len() - r,
    {
        let id: usize = ids[r] as usize;
        let ghost before = out@;
        let ghost done = rows(table@, dim as int, ids@.take(r as int));
        proof {
            assert(ids@[r as int] * dim + dim <= table@.len());
            assert(table@.len() == table.len());
            assert(out@.len() == out.len());
            assert(0 <= id * dim) by (nonlinear_arith)
                requires
                    id >= 0,
                    dim >= 0,
            ;
            assert(0 <= r * dim && r * dim + dim <= ids@.len() * dim) by (nonlinear_arith)
                requires
                    0 <= r < ids@.len(),
                    dim > 0,
            ;
        }
        let src: usize = id * dim;
        let dst: usize = r * dim;
        let mut c: usize = 0;
        while c < dim
            invariant
                c <= dim,
                src + dim <= table@.len(),
                dst + dim <= out@.len(),
                out@.len() == before.len(),
                out@.take(dst as int) == before.take(dst as int),
                forall|j: int| 0 <= j < c ==> #[trigger] out@[dst + j] == table@[src + j],
            decreases dim - c,
        {
            let ghost prev = out@;
            proof {
                assert(table@.len() == table.len());
                assert(out@.len() == out.len());
            }
            out[dst + c] = table[src + c];
            proof {
                assert(out@.take(dst as int) =~= prev.take(dst as int));
                assert forall|j: int| 0 <= j < c + 1 implies #[trigger] out@[dst + j] == table@[src
                    + j] by {
                    if j < c {
                        assert(prev[dst + j] == table@[src + j]);
                    }
                }
            }
            c += 1;
        }
        proof {
            assert((r + 1) * dim == dst + dim) by (nonlinear_arith)
                requires
                    dst == r * dim,
            ;
            assert(ids@.take(r + 1).drop_last() =~= ids@.take(r as int));
            assert(ids@.take(r + 1).last() == ids@[r as int]);
            let copied = out@.subrange(dst as int, dst + dim);
            assert forall|j: int| 0 <= j < dim implies #[trigger] copied[j] == row(
                table@,
                dim as int,
                id as int,
            )[j] by {
                assert(out@[dst + j] == table@[src + j]);
            }
            assert(copied =~= row(table@, dim as int, id as int));
            assert(out@.take(dst + dim) =~= out@.take(dst as int) + out@.subrange(
                dst as int,
                dst + dim,
            ));
        }
        r += 1;
    }
    proof {
        assert(ids@.take(r as int) =~= ids@);
        lemma_rows_len(table@, dim as int, ids@);
        assert(out@.take(r * dim) =~= out@);
    }
}

} // verus!
