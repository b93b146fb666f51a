//! Opening a model for inference: every tensor that will be needed is found, counted and typed
//! before a byte of it is used.

use vstd::prelude::*;
use vstd::slice::slice_subrange;

use crate::error::{LoadError, Refusal};
use crate::gguf::ggml_type::{block_of, bytes_for};
use crate::gguf::laws::{law_found_by_name, law_sizes_match_shapes};
use crate::gguf::reader::{found, gguf_of, Gguf, WeightIndex};
use crate::gguf::tensor_info::{overflows, product, Tensor, TensorMeta};
use crate::qwen35::{config_of, Hyper, Qwen35Config};
use crate::tensor::DType;
use crate::text::{dec, push_dec};
use crate::weights::{law_tensor_complete, tensor_bytes, MappedWeights};

verus! {

/// The element type of a ggml type id, or the refusal of one that the runtime cannot read.
pub open spec fn dtype_of_id(id: u32) -> Result<DType, Refusal> {
    if id == 0 {
        Ok(DType::F32)
    } else if id == 1 {
        Ok(DType::F16)
    } else if id == 8 {
        Ok(DType::Q8_0)
    } else if id == 12 {
        Ok(DType::Q4K)
    } else if id == 14 {
        Ok(DType::Q6K)
    } else {
        Err(Refusal::UnknownGgmlType(id))
    }
}

/// The element type of a tensor.
pub fn dtype_of(meta: &TensorMeta) -> (res: Result<DType, LoadError>)
    ensures
        match dtype_of_id(meta.ggml_type_id) {
            Ok(d) => res is Ok && res->Ok_0 == d,
            Err(e) => res is Err && res->Err_0@ == e,
        },
{
    match meta.ggml_type_id {
        0 => Ok(DType::F32),
        1 => Ok(DType::F16),
        8 => Ok(DType::Q8_0),
        12 => Ok(DType::Q4K),
        14 => Ok(DType::Q6K),
        other => Err(LoadError::UnknownGgmlType(other)),
    }
}

/// The bytes of a packed row of `n` elements. A packed type needs whole blocks.
pub open spec fn row_size(dtype: DType, n: int) -> Result<int, Refusal> {
    match dtype {
        DType::F32 => Ok(n * 4),
        DType::F16 => Ok(n * 2),
        DType::Q8_0 => if n % 32 != 0 {
            Err(
                Refusal::BadFile(
                    "dimensión "@ + dec(n as nat) + " no es múltiplo de 32 para Q8_0"@,
                ),
            )
        } else {
            Ok(n / 32 * 34)
        },
        DType::Q4K | DType::Q6K => if n % 256 != 0 {
            Err(
                Refusal::BadFile(
                    "dimensión "@ + dec(n as nat) + " no es múltiplo de 256 para "@
                        + dtype.label(),
                ),
            )
        } else if dtype == DType::Q4K {
            Ok(n / 256 * 144)
        } else {
            Ok(n / 256 * 210)
        },
        _ => Err(Refusal::BadFile("dtype "@ + dtype.label() + " sin tamaño de fila"@)),
    }
}

/// The bytes of a packed row of `n` elements.
pub fn row_bytes(dtype: DType, n: u64) -> (res: Result<u64, LoadError>)
    requires
        row_size(dtype, n as int) matches Ok(b) ==> b <= u64::MAX,
    ensures
        match row_size(dtype, n as int) {
            Ok(b) => res is Ok && res->Ok_0 == b,
            Err(e) => res is Err && res->Err_0@ == e,
        },
{
    match dtype {
        DType::F32 => Ok(n * 4),
        DType::F16 => Ok(n * 2),
        DType::Q8_0 => {
            if n % 32 != 0 {
                let mut m = String::from_str("dimensión ");
                push_dec(&mut m, n);
                m.append(" no es múltiplo de 32 para Q8_0");
                return Err(LoadError::corrupt(m));
            }
            Ok(n / 32 * 34)
        },
        DType::Q4K | DType::Q6K => {
            if n % 256 != 0 {
                let mut m = String::from_str("dimensión ");
                push_dec(&mut m, n);
                m.append(" no es múltiplo de 256 para ");
                m.append(dtype.name());
                return Err(LoadError::corrupt(m));
            }
            if dtype == DType::Q4K {
                Ok(n / 256 * 144)
            } else {
                Ok(n / 256 * 210)
            }
        },
        _ => {
            let mut m = String::from_str("dtype ");
            m.append(dtype.name());
            m.append(" sin tamaño de fila");
            Err(LoadError::corrupt(m))
        },
    }
}

/// The size that a row of a known element type has agrees with the table of blocks: it is that of
/// its elements, in whole blocks.
pub proof fn law_row_size_matches_blocks(id: u32, n: u64)
    requires
        dtype_of_id(id) is Ok,
        row_size(dtype_of_id(id)->Ok_0, n as int) is Ok,
    ensures
        bytes_for(id, n) == Some(
            row_size(dtype_of_id(id)->Ok_0, n as int)->Ok_0,
        ),
{
    let (_, elems) = block_of(id).unwrap();
    if elems == 1 {
        assert((n + elems - 1) / (elems as int) == n);
    } else if elems == 32 {
        assert((n + 31) / 32 == n / 32);
    } else {
        assert((n + 255) / 256 == n / 256);
    }
}

// ---- The embedding and the output -----------------------------------------------------------

/// What is known of a model once its embedding has been checked.
pub struct MinModel {
    pub cfg: Hyper,
    pub vocab: u64,
    pub row_bytes: int,
    pub dtype: DType,
}

/// The name of the embedding.
pub open spec fn embd_name() -> Seq<char> {
    "token_embd.weight"@
}

/// The refusal of a tensor with another number of elements or bytes than it should have.
pub open spec fn wrong_count(name: Seq<char>, got: u64, want: int) -> Refusal {
    Refusal::ElementCount { name, got: (got as usize) as int, want: (want as usize) as int }
}

/// The model with the embedding `t`.
pub open spec fn min_model(cfg: Hyper, t: Tensor) -> Result<MinModel, Refusal> {
    if t.shape.len() != 2 {
        Err(
            Refusal::BadFile(
                "token_embd.weight: se esperaban 2 dims, hay "@ + dec(t.shape.len()),
            ),
        )
    } else if t.shape[0] != cfg.n_embd {
        Err(wrong_count(embd_name(), t.shape[0], cfg.n_embd))
    } else if t.shape[1] == 0 {
        Err(Refusal::BadFile("token_embd.weight: vocab = 0"@))
    } else {
        match dtype_of_id(t.ggml_type_id) {
            Err(e) => Err(e),
            Ok(dtype) => if dtype != DType::F32 && dtype != DType::Q4K {
                Err(
                    Refusal::BadFile(
                        "token_embd.weight es "@ + dtype.label()
                            + ": el lookup de embeddings solo soporta F32 y Q4_K (Fase 5)"@,
                    ),
                )
            } else {
                match row_size(dtype, cfg.n_embd) {
                    Err(e) => Err(e),
                    Ok(row) => {
                        let want = t.shape[1] * row;
                        let got = match t.nbytes {
                            Some(b) => b,
                            None => 0,
                        };
                        if t.nbytes is None || got != want {
                            Err(wrong_count(embd_name(), got, want))
                        } else {
                            Ok(MinModel { cfg, vocab: t.shape[1], row_bytes: row, dtype })
                        }
                    },
                }
            },
        }
    }
}

/// The model of a file, as far as its configuration and embedding go.
pub open spec fn min_model_of(g: Gguf) -> Result<MinModel, Refusal> {
    match config_of(g.metadata) {
        Err(e) => Err(e),
        Ok(cfg) => match found(g.tensors, embd_name()) {
            None => Err(Refusal::MissingTensor { name: embd_name() }),
            Some(t) => min_model(cfg, t),
        },
    }
}

/// A model whose configuration and embedding have been checked.
pub struct MinForward<'m> {
    cfg: Qwen35Config,
    weights: MappedWeights<'m>,
    vocab: u64,
    emb_row_bytes: u64,
    emb_dtype: DType,
}

fn refuse_count(name: &str, got: u64, want: u128) -> (res: LoadError)
    ensures
        res@ == wrong_count(name@, got, want as int),
{
    LoadError::ElementCount {
        name: String::from_str(name),
        got: got as usize,
        want: want as usize,
    }
}

impl<'m> View for MinForward<'m> {
    type V = MinModel;

    closed spec fn view(&self) -> MinModel {
        MinModel {
            cfg: self.cfg@,
            vocab: self.vocab,
            row_bytes: self.emb_row_bytes as int,
            dtype: self.emb_dtype,
        }
    }
}

/// Row `token` of the embedding.
pub open spec fn embedding_row(g: Gguf, map: Seq<u8>, m: MinModel, token: u32) -> Seq<u8> {
    tensor_bytes(g, map, embd_name())->0.subrange(
        token * m.row_bytes,
        token * m.row_bytes + m.row_bytes,
    )
}

/// The refusal of a token that is not in the vocabulary.
pub open spec fn strange_token(token: u32, vocab: u64) -> Refusal {
    Refusal::BadFile(
        "token "@ + dec(token as nat) + " fuera del vocab (0.."@ + dec(vocab as nat) + ")"@,
    )
}

/// The rows of tokens, or the refusal of the first that is not in the vocabulary.
pub open spec fn embedding_rows(
    g: Gguf,
    map: Seq<u8>,
    m: MinModel,
    tokens: Seq<u32>,
) -> Result<Seq<Seq<u8>>, Refusal>
    decreases tokens.len(),
{
    if tokens.len() == 0 {
        Ok(Seq::empty())
    } else {
        match embedding_rows(g, map, m, tokens.drop_last()) {
            Err(e) => Err(e),
            Ok(rows) => if tokens.last() >= m.vocab {
                Err(strange_token(tokens.last(), m.vocab))
            } else {
                Ok(rows.push(embedding_row(g, map, m, tokens.last())))
            },
        }
    }
}

/// The weights of the output: rows of packed elements, one for each token.
pub struct OutputHead<'m> {
    pub rows: &'m [u8],
    pub dtype: DType,
    pub row_bytes: u64,
}

/// The name of the output.
pub open spec fn output_name() -> Seq<char> {
    "output.weight"@
}

/// Element type and row size of the output `t` of a model, or the refusal.
pub open spec fn output_shape(m: MinModel, t: Tensor) -> Result<(DType, int), Refusal> {
    if t.shape.len() < 2 {
        Err(
            Refusal::BadFile("output.weight: se esperaban 2 dims, hay "@ + dec(t.shape.len())),
        )
    } else if t.shape[0] != m.cfg.n_embd || t.shape[1] != m.vocab {
        Err(
            wrong_count(
                output_name(),
                (t.shape[0] * t.shape[1]) as u64,
                m.cfg.n_embd * m.vocab,
            ),
        )
    } else {
        match dtype_of_id(t.ggml_type_id) {
            Err(e) => Err(e),
            Ok(dtype) => match row_size(dtype, m.cfg.n_embd) {
                Err(e) => Err(e),
                Ok(row) => {
                    let want = m.vocab * row;
                    let got = match t.nbytes {
                        Some(b) => b,
                        None => 0,
                    };
                    if t.nbytes is None || got != want {
                        Err(wrong_count(output_name(), got, want))
                    } else {
                        Ok((dtype, row))
                    }
                },
            },
        }
    }
}

/// Element type and row size of the output of a model.
pub open spec fn output_of(g: Gguf, m: MinModel) -> Result<(DType, int), Refusal> {
    match found(g.tensors, output_name()) {
        None => Err(Refusal::MissingTensor { name: output_name() }),
        Some(t) => output_shape(m, t),
    }
}

proof fn lemma_found_entry(map: Seq<u8>, g: Gguf, name: Seq<char>) -> (i: int)
    requires
        gguf_of(map, map.len() as int) == Ok::<Gguf, Refusal>(g),
        found(g.tensors, name) is Some,
    ensures
        0 <= i < g.tensors.len(),
        g.tensors[i] == found(g.tensors, name)->0,
        !overflows(g.tensors[i].shape),
        g.tensors[i].n_elements == product(g.tensors[i].shape),
{
    law_found_by_name(g.tensors, name);
    let t = found(g.tensors, name)->0;
    let i = choose|i: int| 0 <= i < g.tensors.len() && g.tensors[i] == t;
    law_sizes_match_shapes(map, map.len() as int, g, i);
    i
}

impl<'m> MinForward<'m> {
    /// The bytes of the file.
    pub closed spec fn bytes(&self) -> Seq<u8> {
        self.weights.bytes()
    }

    /// The index of the file.
    pub closed spec fn index(&self) -> Gguf {
        self.weights.index()
    }

    /// The model is the one that its file describes.
    pub closed spec fn wf(&self) -> bool {
        &&& self.weights.wf()
        &&& self.cfg.small()
        &&& min_model_of(self.weights.index()) == Ok::<MinModel, Refusal>(self@)
    }

    /// Opens a model: configuration, then shape, type and size of the embedding.
    pub fn open(weights: MappedWeights<'m>) -> (res: Result<MinForward<'m>, LoadError>)
        requires
            weights.wf(),
        ensures
            match min_model_of(weights.index()) {
                Ok(m) => {
                    &&& res is Ok
                    &&& res->Ok_0.wf()
                    &&& res->Ok_0@ == m
                    &&& res->Ok_0.bytes() == weights.bytes()
                    &&& res->Ok_0.index() == weights.index()
                },
                Err(e) => res is Err && res->Err_0@ == e,
            },
    {
        let cfg = match Qwen35Config::from_gguf(weights.reader()) {
            Ok(c) => c,
            Err(e) => {
                return Err(e);
            },
        };
        let meta = match weights.reader().find("token_embd.weight") {
            Some(t) => t,
            None => {
                return Err(
                    LoadError::MissingTensor { name: String::from_str("token_embd.weight") },
                );
            },
        };
        if meta.shape.len() != 2 {
            let mut m = String::from_str("token_embd.weight: se esperaban 2 dims, hay ");
            push_dec(&mut m, meta.shape.len() as u64);
            return Err(LoadError::corrupt(m));
        }
        let n_embd: u64 = meta.shape[0];
        let vocab: u64 = meta.shape[1];
        if n_embd != cfg.n_embd as u64 {
            return Err(refuse_count("token_embd.weight", n_embd, cfg.n_embd as u128));
        }
        if vocab == 0 {
            return Err(LoadError::corrupt(String::from_str("token_embd.weight: vocab = 0")));
        }
        let dtype = match dtype_of(meta) {
            Ok(d) => d,
            Err(e) => {
                return Err(e);
            },
        };
        if dtype != DType::F32 && dtype != DType::Q4K {
            let mut m = String::from_str("token_embd.weight es ");
            m.append(dtype.name());
            m.append(": el lookup de embeddings solo soporta F32 y Q4_K (Fase 5)");
            return Err(LoadError::corrupt(m));
        }
        let row: u64 = match row_bytes(dtype, n_embd) {
            Ok(b) => b,
            Err(e) => {
                return Err(e);
            },
        };
        proof {
            lemma_product_u128(vocab, row);
        }
        let want: u128 = vocab as u128 * row as u128;
        let got: u64 = match meta.nbytes {
            Some(b) => b,
            None => 0,
        };
        if meta.nbytes.is_none() || got as u128 != want {
            return Err(refuse_count("token_embd.weight", got, want));
        }
        Ok(MinForward { cfg, weights, vocab, emb_row_bytes: row, emb_dtype: dtype })
    }

    /// The configuration.
    pub fn cfg(&self) -> (res: &Qwen35Config)
        requires
            self.wf(),
        ensures
            res@ == self@.cfg,
            res.small(),
    {
        &self.cfg
    }

    /// The number of tokens that the embedding has.
    pub fn vocab(&self) -> (res: u64)
        ensures
            res == self@.vocab,
    {
        self.vocab
    }

    /// The element type of the embedding.
    pub fn embedding_type(&self) -> (res: DType)
        ensures
            res == self@.dtype,
    {
        self.emb_dtype
    }

    /// The weights of the file.
    pub fn weights(&self) -> (res: &MappedWeights<'m>)
        requires
            self.wf(),
        ensures
            res.wf(),
            res.bytes() == self.bytes(),
            res.index() == self.index(),
    {
        &self.weights
    }

    /// The packed rows of the embedding for tokens. A token that is not in the vocabulary is an
    /// error.
    pub fn embed(&self, tokens: &[u32]) -> (res: Result<Vec<&'m [u8]>, LoadError>)
        requires
            self.wf(),
        ensures
            match embedding_rows(self.index(), self.bytes(), self@, tokens@) {
                Ok(rows) => res is Ok && res->Ok_0@.map_values(|r: &'m [u8]| r@) == rows,
                Err(e) => res is Err && res->Err_0@ == e,
            },
    {
        let ghost g = self.index();
        let ghost map = self.bytes();
        let ghost m = self@;
        let ghost t = found(g.tensors, embd_name())->0;
        proof {
            self.weights.law_index_of_bytes();
            law_tensor_complete(map, g, embd_name(), t);
        }
        let all = self.weights.tensor("token_embd.weight").unwrap();
        let mut rows: Vec<&'m [u8]> = Vec::new();
        let mut i: usize = 0;
        proof {
            assert(tokens@.take(0) =~= Seq::<u32>::empty());
            assert(rows@.map_values(|r: &'m [u8]| r@) =~= Seq::<Seq<u8>>::empty());
        }
        while i < tokens.len()
            invariant
                self.wf(),
                g == self.index(),
                map == self.bytes(),
                m == self@,
                i <= tokens@.len(),
                all@ == tensor_bytes(g, map, embd_name())->0,
                all@.len() == m.vocab * m.row_bytes,
                embedding_rows(g, map, m, tokens@.take(i as int)) == Ok::<Seq<Seq<u8>>, Refusal>(
                    rows@.map_values(|r: &'m [u8]| r@),
                ),
            decreases tokens@.len() - i,
        {
            let tok: u32 = tokens[i];
            proof {
                assert(tokens@.take(i + 1).drop_last() =~= tokens@.take(i as int));
                assert(tokens@.take(i + 1).last() == tok);
            }
            if tok as u64 >= self.vocab {
                let mut e = String::from_str("token ");
                push_dec(&mut e, tok as u64);
                e.append(" fuera del vocab (0..");
                push_dec(&mut e, self.vocab);
                e.append(")");
                proof {
                    lemma_rows_refused(g, map, m, tokens@, i + 1);
                }
                return Err(LoadError::corrupt(e));
            }
            proof {
                let v = m.vocab as int;
                let r = m.row_bytes;
                assert(0 <= tok * r && tok * r + r <= v * r) by (nonlinear_arith)
                    requires
                        0 <= tok < v,
                        r >= 0,
                ;
                assert(all@.len() == all.len());
            }
            let start: usize = tok as usize * self.emb_row_bytes as usize;
            let row = slice_subrange(all, start, start + self.emb_row_bytes as usize);
            let ghost before = rows@;
            rows.push(row);
            proof {
                assert(rows@.map_values(|r: &'m [u8]| r@) =~= before.map_values(
                    |r: &'m [u8]| r@,
                ).push(row@));
            }
            i += 1;
        }
        proof {
            assert(tokens@.take(i as int) =~= tokens@);
        }
        Ok(rows)
    }

    /// The weights of the output, once their shape, type and size have been checked.
    pub fn output_head(&self) -> (res: Result<OutputHead<'m>, LoadError>)
        requires
            self.wf(),
        ensures
            match output_of(self.index(), self@) {
                Ok((dtype, row)) => {
                    &&& res is Ok
                    &&& res->Ok_0.dtype == dtype
                    &&& res->Ok_0.row_bytes == row
                    &&& Some(res->Ok_0.rows@) == tensor_bytes(
                        self.index(),
                        self.bytes(),
                        output_name(),
                    )
                    &&& res->Ok_0.rows@.len() == self@.vocab * row
                },
                Err(e) => res is Err && res->Err_0@ == e,
            },
    {
        let ghost g = self.index();
        let ghost map = self.bytes();
        let meta = match self.weights.reader().find("output.weight") {
            Some(t) => t,
            None => {
                return Err(LoadError::MissingTensor { name: String::from_str("output.weight") });
            },
        };
        if meta.shape.len() < 2 {
            let mut m = String::from_str("output.weight: se esperaban 2 dims, hay ");
            push_dec(&mut m, meta.shape.len() as u64);
            return Err(LoadError::corrupt(m));
        }
        let n: u64 = self.cfg.n_embd as u64;
        proof {
            self.weights.law_index_of_bytes();
            let i = lemma_found_entry(map, g, output_name());
            let s = meta.shape@;
            assert(product(s.take(2)) <= u64::MAX);
            assert(s.take(2).drop_last() =~= s.take(1));
            assert(s.take(1).drop_last() =~= Seq::<u64>::empty());
            reveal_with_fuel(product, 3);
            assert(product(s.take(2)) == s[0] * s[1]) by (nonlinear_arith)
                requires
                    product(s.take(2)) == (1 * s[0] as nat) * s[1] as nat,
            ;
            lemma_product_u128(n, self.vocab);
        }
        if meta.shape[0] != n || meta.shape[1] != self.vocab {
            return Err(
                refuse_count(
                    "output.weight",
                    meta.shape[0] * meta.shape[1],
                    n as u128 * self.vocab as u128,
                ),
            );
        }
        let dtype = match dtype_of(meta) {
            Ok(d) => d,
            Err(e) => {
                return Err(e);
            },
        };
        let row: u64 = match row_bytes(dtype, n) {
            Ok(b) => b,
            Err(e) => {
                return Err(e);
            },
        };
        proof {
            lemma_product_u128(self.vocab, row);
        }
        let want: u128 = self.vocab as u128 * row as u128;
        let got: u64 = match meta.nbytes {
            Some(b) => b,
            None => 0,
        };
        if meta.nbytes.is_none() || got as u128 != want {
            return Err(refuse_count("output.weight", got, want));
        }
        proof {
            law_tensor_complete(map, g, output_name(), found(g.tensors, output_name())->0);
        }
        let rows = self.weights.tensor("output.weight").unwrap();
        Ok(OutputHead { rows, dtype, row_bytes: row })
    }
}

proof fn lemma_product_u128(a: u64, b: u64)
    ensures
        0 <= a * b <= u128::MAX,
{
    assert(0 <= a * b <= 0xFFFF_FFFF_FFFF_FFFF * 0xFFFF_FFFF_FFFF_FFFF) by (nonlinear_arith)
        requires
            0 <= a <= 0xFFFF_FFFF_FFFF_FFFF,
            0 <= b <= 0xFFFF_FFFF_FFFF_FFFF,
    ;
}

proof fn lemma_rows_refused(g: Gguf, map: Seq<u8>, m: MinModel, tokens: Seq<u32>, k: int)
    requires
        0 <= k <= tokens.len(),
        embedding_rows(g, map, m, tokens.take(k)) is Err,
    ensures
        embedding_rows(g, map, m, tokens) == embedding_rows(g, map, m, tokens.take(k)),
    decreases tokens.len(),
{
    if k == tokens.len() {
        assert(tokens.take(k) =~= tokens);
    } else {
        assert(tokens.drop_last().take(k) =~= tokens.take(k));
        lemma_rows_refused(g, map, m, tokens.drop_last(), k);
    }
}

/// The embedding of an accepted model: a table of as many rows as there are tokens, each with a
/// number for every place of the embedding, of a type that can be looked up in, and with exactly
/// the bytes that its rows take.
pub proof fn law_embedding_fits_the_model(g: Gguf, m: MinModel)
    requires
        min_model_of(g) == Ok::<MinModel, Refusal>(m),
    ensures
        config_of(g.metadata) == Ok::<Hyper, Refusal>(m.cfg),
        found(g.tensors, "token_embd.weight"@) matches Some(t) && {
            &&& t.shape.len() == 2
            &&& t.shape[0] == m.cfg.n_embd
            &&& t.shape[1] == m.vocab
            &&& m.vocab > 0
            &&& m.dtype == DType::F32 || m.dtype == DType::Q4K
            &&& dtype_of_id(t.ggml_type_id) == Ok::<DType, Refusal>(m.dtype)
            &&& t.nbytes is Some
            &&& t.nbytes->0 == m.vocab * m.row_bytes
            &&& m.dtype == DType::F32 ==> m.row_bytes == 4 * m.cfg.n_embd
            &&& m.dtype == DType::Q4K ==> 256 * m.row_bytes == 144 * m.cfg.n_embd
        },
{
}

/// Tokens are looked up one by one: the row of each is as many rows into the table as its number
/// says. All are found exactly where all are in the vocabulary.
pub proof fn law_tokens_are_looked_up(g: Gguf, map: Seq<u8>, m: MinModel, tokens: Seq<u32>)
    ensures
        embedding_rows(g, map, m, tokens) is Ok <==> forall|i: int|
            0 <= i < tokens.len() ==> (#[trigger] tokens[i]) < m.vocab,
        embedding_rows(g, map, m, tokens) matches Ok(rows) ==> rows.len() == tokens.len()
            && forall|i: int|
            0 <= i < tokens.len() ==> #[trigger] rows[i] == tensor_bytes(
                g,
                map,
                "token_embd.weight"@,
            )->0.subrange(
                tokens[i] * m.row_bytes,
                (tokens[i] + 1) * m.row_bytes,
            ),
    decreases tokens.len(),
{
    if tokens.len() > 0 {
        let front = tokens.drop_last();
        law_tokens_are_looked_up(g, map, m, front);
        let last = tokens.last();
        assert(last * m.row_bytes + m.row_bytes == (last + 1) * m.row_bytes) by (nonlinear_arith);
        if embedding_rows(g, map, m, tokens) is Ok {
            assert forall|i: int| 0 <= i < tokens.len() implies (#[trigger] tokens[i]) < m.vocab by {
                if i < front.len() {
                    assert(front[i] == tokens[i]);
                }
            }
            let rows = embedding_rows(g, map, m, tokens)->Ok_0;
            let before = embedding_rows(g, map, m, front)->Ok_0;
            assert forall|i: int| 0 <= i < tokens.len() implies #[trigger] rows[i] == tensor_bytes(
                g,
                map,
                "token_embd.weight"@,
            )->0.subrange(tokens[i] * m.row_bytes, (tokens[i] + 1) * m.row_bytes) by {
                if i < front.len() {
                    assert(rows[i] == before[i]);
                    assert(front[i] == tokens[i]);
                }
            }
        }
        if forall|i: int| 0 <= i < tokens.len() ==> (#[trigger] tokens[i]) < m.vocab {
            assert forall|i: int| 0 <= i < front.len() implies (#[trigger] front[i]) < m.vocab by {
                assert(front[i] == tokens[i]);
            }
            assert(tokens[tokens.len() - 1] < m.vocab);
        }
    }
}

/// The output of an accepted model has a row for every token, each as long as the embedding is
/// wide, and exactly the bytes that its rows take.
pub proof fn law_output_fits_the_model(g: Gguf, m: MinModel, dtype: DType, row: int)
    requires
        output_of(g, m) == Ok::<(DType, int), Refusal>((dtype, row)),
    ensures
        found(g.tensors, "output.weight"@) matches Some(t) && {
            &&& t.shape.len() >= 2
            &&& t.shape[0] == m.cfg.n_embd
            &&& t.shape[1] == m.vocab
            &&& dtype_of_id(t.ggml_type_id) == Ok::<DType, Refusal>(dtype)
            &&& t.nbytes is Some
            &&& t.nbytes->0 == m.vocab * row
            &&& dtype == DType::F32 ==> row == 4 * m.cfg.n_embd
            &&& dtype == DType::Q4K ==> 256 * row == 144 * m.cfg.n_embd
            &&& dtype == DType::Q6K ==> 256 * row == 210 * m.cfg.n_embd
        },
{
}

} // verus!
