//! The table of tensors: what the file says of each before its data.

use vstd::prelude::*;

use super::ggml_type::{
    block_of, bytes_for, ggml_type_blocksize, ggml_type_name, type_label,
};
use super::metadata::{
    items_at, lemma_items_extent, lemma_items_steady, rd_items, views, Item,
};
use super::source::{
    lemma_bytes_steady, lemma_string_steady, rd_string, rd_u32, rd_u64, string_at, u32_at,
    u64_at, ByteSource, Parsed,
};
use crate::error::{LoadError, Refusal};
use crate::text::{dec, push_dec};

verus! {

/// A tensor of the file: where its bytes are and what they mean.
#[derive(Debug, Clone)]
pub struct TensorMeta {
    pub name: String,
    pub offset: u64,
    /// The size of the data; `None` where the type is not known.
    pub nbytes: Option<u64>,
    pub dtype: String,
    pub ggml_type_id: u32,
    pub shape: Vec<u64>,
    pub n_elements: u64,
}

/// What a [`TensorMeta`] says.
pub struct Tensor {
    pub name: Seq<char>,
    pub offset: u64,
    pub nbytes: Option<u64>,
    pub dtype: Seq<char>,
    pub ggml_type_id: u32,
    pub shape: Seq<u64>,
    pub n_elements: u64,
}

impl View for TensorMeta {
    type V = Tensor;

    open spec fn view(&self) -> Tensor {
        Tensor {
            name: self.name@,
            offset: self.offset,
            nbytes: self.nbytes,
            dtype: self.dtype@,
            ggml_type_id: self.ggml_type_id,
            shape: self.shape@,
            n_elements: self.n_elements,
        }
    }
}

/// The product of the dimensions.
pub open spec fn product(dims: Seq<u64>) -> nat
    decreases dims.len(),
{
    if dims.len() == 0 {
        1
    } else {
        product(dims.drop_last()) * dims.last() as nat
    }
}

/// Whether the product leaves the range of a `u64` on the way through the dimensions.
pub open spec fn overflows(dims: Seq<u64>) -> bool {
    exists|k: int| 0 <= k <= dims.len() && #[trigger] product(dims.take(k)) > u64::MAX
}

/// The product of the dimensions, if it and every product of its first factors fit a `u64`.
pub fn count_elements(dims: &Vec<u64>) -> (res: Option<u64>)
    ensures
        res == (if overflows(dims@) {
            None::<u64>
        } else {
            Some(product(dims@) as u64)
        }),
        !overflows(dims@) ==> product(dims@) <= u64::MAX,
{
    let mut n: u64 = 1;
    let mut i: usize = 0;
    while i < dims.len()
        invariant
            i <= dims@.len(),
            n == product(dims@.take(i as int)),
            forall|k: int| 0 <= k <= i ==> #[trigger] product(dims@.take(k)) <= u64::MAX,
        decreases dims@.len() - i,
    {
        proof {
            assert(dims@.take(i + 1).drop_last() =~= dims@.take(i as int));
            assert(dims@.take(i + 1).last() == dims@[i as int]);
        }
        match n.checked_mul(dims[i]) {
            Some(m) => {
                n = m;
            },
            None => {
                proof {
                    assert(product(dims@.take(i + 1)) > u64::MAX);
                }
                return None;
            },
        }
        i += 1;
    }
    proof {
        assert(dims@.take(dims@.len() as int) =~= dims@);
    }
    Some(n)
}

/// A refusal that names a tensor.
pub open spec fn bad_tensor(name: Seq<char>, what: Seq<char>) -> Refusal {
    Refusal::BadFile("tensor '"@ + name + what)
}

fn refuse_tensor(name: &String, what: &str) -> (res: LoadError)
    ensures
        res@ == bad_tensor(name@, what@),
{
    let mut m = String::from_str("tensor '");
    m.append(name.as_str());
    m.append(what);
    LoadError::corrupt(m)
}

/// The refusal of a tensor with too many dimensions.
pub open spec fn too_many_dims(name: Seq<char>, n_dims: u32) -> Refusal {
    Refusal::BadFile("tensor '"@ + name + "' has n_dims "@ + dec(n_dims as nat)
        + " (sane limit: 64)"@)
}

/// The size of a tensor of known type does not fit: its elements, rounded up to whole blocks, or
/// the bytes of these blocks pass a `u64`.
pub open spec fn size_overflows(id: u32, elements: u64) -> bool {
    match block_of(id) {
        None => false,
        Some((bytes, elems)) => elements + elems - 1 > u64::MAX || (elements + elems - 1) / (
        elems as int) * bytes > u64::MAX,
    }
}

/// What is made of a tensor's header: the entry for the table, or a refusal.
pub open spec fn entry_of(name: Seq<char>, shape: Seq<u64>, id: u32, offset: u64) -> Result<
    Tensor,
    Refusal,
> {
    if overflows(shape) {
        Err(bad_tensor(name, "': element count overflows u64"@))
    } else if product(shape) == 0 {
        Err(bad_tensor(name, "' has zero elements"@))
    } else {
        let n = product(shape) as u64;
        if size_overflows(id, n) {
            Err(bad_tensor(name, "': byte count overflows u64"@))
        } else {
            Ok(
                Tensor {
                    name,
                    offset,
                    nbytes: match bytes_for(id, n) {
                        Some(b) => Some(b as u64),
                        None => None,
                    },
                    dtype: type_label(id),
                    ggml_type_id: id,
                    shape,
                    n_elements: n,
                },
            )
        }
    }
}

/// The entry for the table from a tensor's header.
pub fn make_entry(name: String, shape: Vec<u64>, id: u32, offset: u64) -> (res: Result<
    TensorMeta,
    LoadError,
>)
    ensures
        match entry_of(name@, shape@, id, offset) {
            Ok(t) => res is Ok && res->Ok_0@ == t,
            Err(e) => res is Err && res->Err_0@ == e,
        },
{
    let n_elements: u64 = match count_elements(&shape) {
        Some(n) => n,
        None => {
            return Err(refuse_tensor(&name, "': element count overflows u64"));
        },
    };
    if n_elements == 0 {
        return Err(refuse_tensor(&name, "' has zero elements"));
    }
    let nbytes: Option<u64> = match ggml_type_blocksize(id) {
        None => None,
        Some((bb, be)) => match n_elements.checked_add(be - 1) {
            None => {
                return Err(refuse_tensor(&name, "': byte count overflows u64"));
            },
            Some(padded) => match (padded / be).checked_mul(bb) {
                Some(b) => Some(b),
                None => {
                    return Err(refuse_tensor(&name, "': byte count overflows u64"));
                },
            },
        },
    };
    Ok(
        TensorMeta {
            name,
            offset,
            nbytes,
            dtype: ggml_type_name(id),
            ggml_type_id: id,
            shape,
            n_elements,
        },
    )
}

/// The shape, type and offset of the tensor `name`, behind the name.
pub open spec fn body_at(data: Seq<u8>, fs: int, name: Seq<char>, p: int) -> Parsed<Tensor> {
    match u32_at(data, fs, p) {
        Err(e) => Err(e),
        Ok((n_dims, p1)) => if n_dims == 0 {
            Err(bad_tensor(name, "' has n_dims = 0"@))
        } else if n_dims > 64 {
            Err(too_many_dims(name, n_dims))
        } else {
            match items_at::<u64>(data, fs, p1, n_dims as nat) {
                Err(e) => Err(e),
                Ok((dims, p2)) => match u32_at(data, fs, p2) {
                    Err(e) => Err(e),
                    Ok((id, p3)) => match u64_at(data, fs, p3) {
                        Err(e) => Err(e),
                        Ok((offset, p4)) => match entry_of(name, dims, id, offset) {
                            Err(e) => Err(e),
                            Ok(t) => Ok((t, p4)),
                        },
                    },
                },
            }
        },
    }
}

/// A tensor's entry in the header. Its offset counts from the start of the data section.
impl Item for TensorMeta {
    open spec fn item_at(data: Seq<u8>, fs: int, at: int) -> Parsed<Tensor> {
        match string_at(data, fs, at) {
            Err(e) => Err(e),
            Ok((name, p)) => body_at(data, fs, name, p),
        }
    }

    proof fn lemma_extent(data: Seq<u8>, fs: int, at: int) {
        if let Ok((_, p)) = string_at(data, fs, at) {
            if let Ok((n_dims, p1)) = u32_at(data, fs, p) {
                lemma_items_extent::<u64>(data, fs, p1, n_dims as nat);
            }
        }
    }

    proof fn lemma_steady(data: Seq<u8>, more: Seq<u8>, fs: int, at: int) {
        lemma_string_steady(data, more, fs, at);
        if let Ok((_, p)) = string_at(data, fs, at) {
            lemma_bytes_steady(data, more, fs, p, 4);
            if let Ok((n_dims, p1)) = u32_at(data, fs, p) {
                lemma_items_extent::<u64>(data, fs, p1, n_dims as nat);
                lemma_items_steady::<u64>(data, more, fs, p1, n_dims as nat);
                if let Ok((_, p2)) = items_at::<u64>(data, fs, p1, n_dims as nat) {
                    lemma_bytes_steady(data, more, fs, p2, 4);
                    lemma_bytes_steady(data, more, fs, p2 + 4, 8);
                }
            }
        }
    }

    fn read(r: &mut ByteSource<'_>, fs: u64) -> (res: Result<TensorMeta, LoadError>) {
        let name = match rd_string(r, fs) {
            Ok(s) => s,
            Err(e) => {
                return Err(e);
            },
        };
        let n_dims: u32 = match rd_u32(r, fs) {
            Ok(n) => n,
            Err(e) => {
                return Err(e);
            },
        };
        if n_dims == 0 {
            return Err(refuse_tensor(&name, "' has n_dims = 0"));
        }
        if n_dims > 64 {
            let mut m = String::from_str("tensor '");
            m.append(name.as_str());
            m.append("' has n_dims ");
            push_dec(&mut m, n_dims as u64);
            m.append(" (sane limit: 64)");
            return Err(LoadError::corrupt(m));
        }
        let dims: Vec<u64> = match rd_items::<u64>(r, fs, n_dims as u64) {
            Ok(v) => v,
            Err(e) => {
                return Err(e);
            },
        };
        proof {
            assert(views(dims@) =~= dims@);
        }
        let id: u32 = match rd_u32(r, fs) {
            Ok(n) => n,
            Err(e) => {
                return Err(e);
            },
        };
        let offset: u64 = match rd_u64(r, fs) {
            Ok(n) => n,
            Err(e) => {
                return Err(e);
            },
        };
        make_entry(name, dims, id, offset)
    }
}

} // verus!
