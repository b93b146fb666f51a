//! Weights as slices of the bytes of a validated file.
//!
//! The whole file is at hand as bytes, most often mapped into memory; each tensor is served as a
//! slice of them, without a copy. A tensor that is absent or whose size is not known has no
//! bytes: none are made up.

use vstd::prelude::*;
use vstd::slice::slice_subrange;

use crate::error::{LoadError, Refusal};
use crate::gguf::laws::{law_found_by_name, law_tensors_inside_file};
use crate::gguf::ranges::end_of;
use crate::gguf::reader::{found, gguf_of, parse, Gguf, GgufReader, WeightIndex};
use crate::gguf::tensor_info::Tensor;

verus! {

/// The bytes of a file with its validated index.
pub struct MappedWeights<'m> {
    map: &'m [u8],
    reader: GgufReader,
}

/// The bytes of the tensor found under a name. `None` where there is no such tensor or its size
/// is not known.
pub open spec fn tensor_bytes(g: Gguf, map: Seq<u8>, name: Seq<char>) -> Option<Seq<u8>> {
    match found(g.tensors, name) {
        None => None,
        Some(t) => if t.nbytes is None {
            None
        } else {
            Some(map.subrange(t.offset as int, end_of(t)))
        },
    }
}

/// The bytes of a tensor that must be there with `want` elements, or the refusal: no such
/// tensor, another element count, or a type of unknown size, in this order.
pub open spec fn required_bytes(g: Gguf, map: Seq<u8>, name: Seq<char>, want: usize) -> Result<
    Seq<u8>,
    Refusal,
> {
    match found(g.tensors, name) {
        None => Err(Refusal::MissingTensor { name }),
        Some(t) => if t.n_elements as usize != want {
            Err(
                Refusal::ElementCount {
                    name,
                    got: (t.n_elements as usize) as int,
                    want: want as int,
                },
            )
        } else if t.nbytes is None {
            Err(Refusal::UnknownGgmlType(t.ggml_type_id))
        } else {
            Ok(map.subrange(t.offset as int, end_of(t)))
        },
    }
}

impl<'m> MappedWeights<'m> {
    /// The bytes of the file.
    pub closed spec fn bytes(&self) -> Seq<u8> {
        self.map@
    }

    /// The index of the file.
    pub closed spec fn index(&self) -> Gguf {
        self.reader@
    }

    /// The index is the one that the bytes spell out.
    pub closed spec fn wf(&self) -> bool {
        &&& self.reader.wf()
        &&& gguf_of(self.map@, self.map@.len() as int) == Ok::<Gguf, Refusal>(self.reader@)
    }

    /// Validates the bytes of a file. What is refused is never served.
    pub fn open(map: &'m [u8]) -> (res: Result<MappedWeights<'m>, LoadError>)
        ensures
            match gguf_of(map@, map@.len() as int) {
                Ok(g) => {
                    &&& res is Ok
                    &&& res->Ok_0.wf()
                    &&& res->Ok_0.bytes() == map@
                    &&& res->Ok_0.index() == g
                },
                Err(e) => res is Err && res->Err_0@ == e,
            },
    {
        match parse(map, map.len() as u64) {
            Ok(reader) => Ok(MappedWeights { map, reader }),
            Err(e) => Err(e),
        }
    }

    /// The index: metadata and table of tensors.
    pub fn reader(&self) -> (res: &GgufReader)
        requires
            self.wf(),
        ensures
            res@ == self.index(),
            res.wf(),
    {
        &self.reader
    }

    /// The size of the file.
    pub fn file_size(&self) -> (res: u64)
        ensures
            res == self.bytes().len(),
    {
        self.map.len() as u64
    }

    /// The bytes of a tensor. `None` where it is absent or its size is not known, which is fatal
    /// for a weight that is needed.
    pub fn tensor(&self, name: &str) -> (res: Option<&'m [u8]>)
        requires
            self.wf(),
        ensures
            match tensor_bytes(self.index(), self.bytes(), name@) {
                Some(b) => res is Some && res->0@ == b,
                None => res is None,
            },
    {
        let meta = match self.reader.find(name) {
            Some(t) => t,
            None => {
                return None;
            },
        };
        match meta.nbytes {
            None => None,
            Some(nbytes) => {
                proof {
                    self.lemma_found_inside(name@);
                    assert(self.map@.len() == self.map.len());
                }
                let start: usize = meta.offset as usize;
                let end: usize = start + nbytes as usize;
                Some(slice_subrange(self.map, start, end))
            },
        }
    }

    /// The bytes of a tensor that must be there with `n_elements` elements.
    pub fn tensor_checked(&self, name: &str, n_elements: usize) -> (res: Result<
        &'m [u8],
        LoadError,
    >)
        requires
            self.wf(),
        ensures
            match required_bytes(self.index(), self.bytes(), name@, n_elements) {
                Ok(b) => res is Ok && res->Ok_0@ == b,
                Err(e) => res is Err && res->Err_0@ == e,
            },
    {
        let meta = match self.reader.find(name) {
            Some(t) => t,
            None => {
                return Err(LoadError::MissingTensor { name: String::from_str(name) });
            },
        };
        let got: usize = meta.n_elements as usize;
        if got != n_elements {
            return Err(
                LoadError::ElementCount { name: String::from_str(name), got, want: n_elements },
            );
        }
        match meta.nbytes {
            None => Err(LoadError::UnknownGgmlType(meta.ggml_type_id)),
            Some(nbytes) => {
                proof {
                    self.lemma_found_inside(name@);
                    assert(self.map@.len() == self.map.len());
                }
                let start: usize = meta.offset as usize;
                let end: usize = start + nbytes as usize;
                Ok(slice_subrange(self.map, start, end))
            },
        }
    }

    /// The index is the one that the bytes spell out.
    pub proof fn law_index_of_bytes(&self)
        requires
            self.wf(),
        ensures
            gguf_of(self.bytes(), self.bytes().len() as int) == Ok::<Gguf, Refusal>(self.index()),
    {
    }

    proof fn lemma_found_inside(&self, name: Seq<char>)
        requires
            self.wf(),
        ensures
            found(self.index().tensors, name) matches Some(t) ==> (t.nbytes is Some ==> end_of(t)
                <= self.bytes().len()),
    {
        let g = self.index();
        law_found_by_name(g.tensors, name);
        if let Some(t) = found(g.tensors, name) {
            let i = choose|i: int| 0 <= i < g.tensors.len() && g.tensors[i] == t;
            law_tensors_inside_file(self.map@, self.map@.len() as int, g, i);
        }
    }
}

/// In a validated file the bytes of a tensor are exactly as many as its entry says: a tensor of
/// known size is never cut short and never filled up.
pub proof fn law_tensor_complete(map: Seq<u8>, g: Gguf, name: Seq<char>, t: Tensor)
    requires
        gguf_of(map, map.len() as int) == Ok::<Gguf, Refusal>(g),
        found(g.tensors, name) == Some(t),
        t.nbytes is Some,
    ensures
        tensor_bytes(g, map, name) is Some,
        tensor_bytes(g, map, name)->0.len() == t.nbytes->0,
        forall|k: int|
            0 <= k < t.nbytes->0 ==> #[trigger] tensor_bytes(g, map, name)->0[k] == map[t.offset + k],
{
    law_found_by_name(g.tensors, name);
    let i = choose|i: int| 0 <= i < g.tensors.len() && g.tensors[i] == t;
    law_tensors_inside_file(map, map.len() as int, g, i);
}

} // verus!
