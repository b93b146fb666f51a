//! The tokenizer that the metadata of a file describes.

use vstd::prelude::*;

use super::gpt2::{parts_fault, tokens_fault, Bpe, Gpt2Tokenizer};
use super::split::{pre_kind_of, PreKind};
use crate::error::{LoadError, Refusal};
use crate::gguf::reader::{lookup, GgufReader};
use crate::gguf::value::{debug_text, quoted, texts, Array, GgufArray, GgufValue, Value};
use crate::text::{dec, push_dec, same};

verus! {

/// The id that a value stands for: that of a `u32`, or of an `i32` with the same bits.
pub open spec fn scalar_id(v: Option<Value>) -> Option<u32> {
    match v {
        Some(Value::U32(x)) => Some(x),
        Some(Value::I32(x)) => Some(x as u32),
        _ => None,
    }
}

/// The types of tokens that a value lists: an array of `i32`, or of `u32` with the same bits.
pub open spec fn types_of(v: Option<Value>) -> Option<Seq<i32>> {
    match v {
        Some(Value::Arr(Array::I32(s))) => Some(s),
        Some(Value::Arr(Array::U32(s))) => Some(s.map_values(|x: u32| x as i32)),
        _ => None,
    }
}

/// The texts that a value lists.
pub open spec fn list_of(v: Option<Value>) -> Option<Seq<Seq<char>>> {
    match v {
        Some(Value::Arr(Array::Str(s))) => Some(s),
        _ => None,
    }
}

/// The name of the pre-tokenizer: `default` where the metadata gives none.
pub open spec fn pre_name_of(v: Option<Value>) -> Seq<char> {
    match v {
        Some(Value::Str(s)) => s,
        _ => "default"@,
    }
}

/// The tokenizer from its three lists, or the first refusal that is due.
pub open spec fn from_lists(
    md: Seq<(Seq<char>, Value)>,
    pre: PreKind,
    pre_name: Seq<char>,
) -> Result<Bpe, Refusal> {
    match list_of(lookup(md, "tokenizer.ggml.tokens"@)) {
        None => Err(
            Refusal::BadFile("tokenizer.ggml.tokens ausente o no es un array de strings"@),
        ),
        Some(tokens) => if tokens.len() == 0 {
            Err(Refusal::BadFile("tokenizer.ggml.tokens vacío"@))
        } else {
            match types_of(lookup(md, "tokenizer.ggml.token_type"@)) {
                None => Err(
                    Refusal::BadFile(
                        "tokenizer.ggml.token_type ausente o no es un array i32/u32 — sin tipos el decode no puede suprimir tokens de control"@,
                    ),
                ),
                Some(types) => if types.len() != tokens.len() {
                    Err(
                        Refusal::BadFile(
                            "tokenizer.ggml.token_type tiene "@ + dec(types.len())
                                + " entradas, tokens "@ + dec(tokens.len()),
                        ),
                    )
                } else {
                    match list_of(lookup(md, "tokenizer.ggml.merges"@)) {
                        None => Err(
                            Refusal::BadFile(
                                "tokenizer.ggml.merges ausente o no es un array de strings"@,
                            ),
                        ),
                        Some(merges) => match parts_fault(tokens, merges) {
                            Some(e) => Err(e),
                            None => Ok(
                                Bpe {
                                    tokens,
                                    types,
                                    merges,
                                    pre,
                                    pre_name,
                                    eos: scalar_id(lookup(md, "tokenizer.ggml.eos_token_id"@)),
                                    bos: scalar_id(lookup(md, "tokenizer.ggml.bos_token_id"@)),
                                },
                            ),
                        },
                    }
                },
            }
        },
    }
}

/// The tokenizer that metadata describes, or the first refusal that is due: no model or another
/// than `gpt2`, an unknown pre-tokenizer, or lists that are missing or do not fit.
pub open spec fn tokenizer_of(md: Seq<(Seq<char>, Value)>) -> Result<Bpe, Refusal> {
    match lookup(md, "tokenizer.ggml.model"@) {
        Some(Value::Str(model)) => if model != "gpt2"@ {
            Err(
                Refusal::BadFile(
                    "tokenizer.ggml.model = "@ + quoted(model)
                        + " — solo gpt2 (BPE byte-level) implementado"@,
                ),
            )
        } else {
            let pre_name = pre_name_of(lookup(md, "tokenizer.ggml.pre"@));
            match pre_kind_of(pre_name) {
                Err(e) => Err(e),
                Ok(pre) => from_lists(md, pre, pre_name),
            }
        },
        _ => Err(
            Refusal::BadFile("GGUF sin tokenizer.ggml.model — no hay tokenizador BPE"@),
        ),
    }
}

/// The id that a value stands for.
pub fn scalar_u32(v: Option<&GgufValue>) -> (res: Option<u32>)
    ensures
        res == scalar_id(match v {
            Some(x) => Some(x@),
            None => None,
        }),
{
    match v {
        Some(GgufValue::U32(x)) => Some(*x),
        Some(GgufValue::I32(x)) => Some(*x as u32),
        _ => None,
    }
}

fn copy_strings(v: &Vec<String>) -> (res: Vec<String>)
    ensures
        texts(res@) == texts(v@),
{
    let mut res: Vec<String> = Vec::new();
    let mut i: usize = 0;
    while i < v.len()
        invariant
            i <= v@.len(),
            res@.len() == i,
            forall|j: int| 0 <= j < i ==> (#[trigger] res@[j])@ == v@[j]@,
        decreases v@.len() - i,
    {
        res.push(v[i].clone());
        i += 1;
    }
    proof {
        assert(texts(res@) =~= texts(v@));
    }
    res
}

fn read_types(v: Option<&GgufValue>) -> (res: Option<Vec<i32>>)
    ensures
        match types_of(
            match v {
                Some(x) => Some(x@),
                None => None,
            },
        ) {
            Some(s) => res is Some && res->0@ == s,
            None => res is None,
        },
{
    match v {
        Some(GgufValue::Arr(GgufArray::I32(s))) => Some(
            vstd::slice::slice_to_vec(s.as_slice()),
        ),
        Some(GgufValue::Arr(GgufArray::U32(s))) => {
            let mut res: Vec<i32> = Vec::new();
            let mut i: usize = 0;
            while i < s.len()
                invariant
                    i <= s@.len(),
                    res@.len() == i,
                    forall|j: int| 0 <= j < i ==> res@[j] == (#[trigger] s@[j]) as i32,
                decreases s@.len() - i,
            {
                res.push(s[i] as i32);
                i += 1;
            }
            proof {
                assert(res@ =~= s@.map_values(|x: u32| x as i32));
            }
            Some(res)
        },
        _ => None,
    }
}

impl Gpt2Tokenizer {
    /// Builds the tokenizer of a file from its metadata.
    pub fn from_gguf(r: &GgufReader) -> (res: Result<Gpt2Tokenizer, LoadError>)
        ensures
            match tokenizer_of(r@.metadata) {
                Ok(m) => res is Ok && res->Ok_0.wf() && res->Ok_0@ == m,
                Err(e) => res is Err && res->Err_0@ == e,
            },
    {
        let model = match r.get_str("tokenizer.ggml.model") {
            Some(m) => m,
            None => {
                return Err(
                    LoadError::corrupt(
                        String::from_str(
                            "GGUF sin tokenizer.ggml.model — no hay tokenizador BPE",
                        ),
                    ),
                );
            },
        };
        if !same(model, "gpt2") {
            let mut m = String::from_str("tokenizer.ggml.model = ");
            m.append(debug_text(model).as_str());
            m.append(" — solo gpt2 (BPE byte-level) implementado");
            return Err(LoadError::corrupt(m));
        }
        let pre_str = match r.get_str("tokenizer.ggml.pre") {
            Some(p) => String::from_str(p),
            None => String::from_str("default"),
        };
        let pre = match PreKind::from_pre(pre_str.as_str()) {
            Ok(k) => k,
            Err(e) => {
                return Err(e);
            },
        };
        let tokens = match r.get("tokenizer.ggml.tokens") {
            Some(GgufValue::Arr(GgufArray::Str(v))) => copy_strings(v),
            _ => {
                return Err(
                    LoadError::corrupt(
                        String::from_str(
                            "tokenizer.ggml.tokens ausente o no es un array de strings",
                        ),
                    ),
                );
            },
        };
        if tokens.len() == 0 {
            return Err(LoadError::corrupt(String::from_str("tokenizer.ggml.tokens vacío")));
        }
        let token_types = match read_types(r.get("tokenizer.ggml.token_type")) {
            Some(v) => v,
            None => {
                return Err(
                    LoadError::corrupt(
                        String::from_str(
                            "tokenizer.ggml.token_type ausente o no es un array i32/u32 — sin tipos el decode no puede suprimir tokens de control",
                        ),
                    ),
                );
            },
        };
        if token_types.len() != tokens.len() {
            let mut m = String::from_str("tokenizer.ggml.token_type tiene ");
            push_dec(&mut m, token_types.len() as u64);
            m.append(" entradas, tokens ");
            push_dec(&mut m, tokens.len() as u64);
            return Err(LoadError::corrupt(m));
        }
        let merges = match r.get("tokenizer.ggml.merges") {
            Some(GgufValue::Arr(GgufArray::Str(v))) => v,
            _ => {
                return Err(
                    LoadError::corrupt(
                        String::from_str(
                            "tokenizer.ggml.merges ausente o no es un array de strings",
                        ),
                    ),
                );
            },
        };
        let eos = scalar_u32(r.get("tokenizer.ggml.eos_token_id"));
        let bos = scalar_u32(r.get("tokenizer.ggml.bos_token_id"));
        Gpt2Tokenizer::from_parts(tokens, token_types, merges, pre, pre_str, eos, bos)
    }
}

/// A tokenizer that is accepted holds what the file says: its lists under their keys, as many types
/// as tokens, and the two ids of signs, each under its own key.
pub proof fn law_tokenizer_holds_the_file(md: Seq<(Seq<char>, Value)>, m: Bpe)
    requires
        tokenizer_of(md) == Ok::<Bpe, Refusal>(m),
    ensures
        lookup(md, "tokenizer.ggml.model"@) == Some(Value::Str("gpt2"@)),
        lookup(md, "tokenizer.ggml.tokens"@) == Some(Value::Arr(Array::Str(m.tokens))),
        lookup(md, "tokenizer.ggml.merges"@) == Some(Value::Arr(Array::Str(m.merges))),
        m.tokens.len() > 0,
        m.types.len() == m.tokens.len(),
        lookup(md, "tokenizer.ggml.token_type"@) matches Some(Value::Arr(Array::I32(s))) ==> m.types
            == s,
        lookup(md, "tokenizer.ggml.eos_token_id"@) matches Some(Value::U32(id)) ==> m.eos == Some(
            id,
        ),
        lookup(md, "tokenizer.ggml.bos_token_id"@) matches Some(Value::U32(id)) ==> m.bos == Some(
            id,
        ),
        lookup(md, "tokenizer.ggml.eos_token_id"@) is None ==> m.eos is None,
        lookup(md, "tokenizer.ggml.bos_token_id"@) is None ==> m.bos is None,
        lookup(md, "tokenizer.ggml.pre"@) matches Some(Value::Str(s)) ==> m.pre_name == s,
        lookup(md, "tokenizer.ggml.pre"@) is None ==> m.pre == PreKind::Gpt2,
        m.pre_name == "qwen35"@ ==> m.pre == PreKind::Qwen35,
        m.pre_name == "qwen2"@ ==> m.pre == PreKind::Qwen2,
        m.pre_name == "default"@ ==> m.pre == PreKind::Gpt2,
        tokens_fault(m.tokens) is None,
{
    reveal_strlit("default");
    reveal_strlit("qwen35");
    reveal_strlit("qwen2");
    reveal_strlit("");
    assert("qwen35"@.len() == 6);
    assert("default"@.len() == 7);
    assert("qwen2"@.len() == 5);
}

} // verus!
