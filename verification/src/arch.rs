//! The description of a model that execution works from. Adapters describe and do not execute.

use vstd::prelude::*;

use crate::error::WeightId;
use crate::ieee::{F32, F64};

verus! {

/// The sorts of attention. Compressed attention exists with two meanings, which are kept apart.
#[derive(Debug, Clone, PartialEq)]
pub enum AttnKind {
    Mha,
    Gqa { kv_groups: u32 },
    /// Keys and values are compressed, the rotated part is rotated, and what is kept is compressed.
    MlaDeepSeek { kv_lora: u32, qk_rope: u32, qk_nope: u32, v_head: u32 },
    /// The rotated part exists and is kept but is not rotated, and what is kept is not compressed.
    MlaK3NoPe { qk_nope: u32, qk_rope: u32, v_head: u32 },
}

/// The sorts of rotation and their scaling.
#[derive(Debug, Clone, PartialEq)]
pub enum RoPeKind {
    /// No rotation.
    Absent,
    Llama { theta: F32, dims: u32 },
    LlamaYaRn { theta: F32, dims: u32, factor: F32, original_max: u32, mscale: F32 },
    NeoX { theta: F32, dims: u32 },
}

/// The sorts of feed-forward parts: dense with an activation, or routed to experts.
#[derive(Debug, Clone, PartialEq)]
pub enum FfnKind {
    SwiGlu,
    GeGluTanh,
    Relu2,
    Moe {
        n_experts: u32,
        topk: u32,
        n_shared: u32,
        inter: u32,
        /// Whether the weights of the chosen experts are brought to a sum of one.
        norm_topk: bool,
        /// Whether routing is by a sigmoid; it is by a softmax otherwise.
        sigmoid_gate: bool,
        routed_scaling: F32,
    },
}

/// The sorts of norms.
#[derive(Debug, Clone, Copy, PartialEq)]
pub enum NormKind {
    RmsNorm { eps: F64 },
    LayerNorm { eps: F64 },
    /// A further norm of queries and keys before they are rotated.
    QkRmsNorm { eps: F64 },
}

/// One layer. A layer without attention is dense.
#[derive(Debug, Clone)]
pub struct LayerSpec {
    pub input_norm: NormKind,
    pub attn: Option<AttnSpec>,
    pub post_norm: NormKind,
    pub ffn: FfnKind,
    pub has_attn_bias: bool,
}

/// The attention of a layer.
#[derive(Debug, Clone)]
pub struct AttnSpec {
    pub kind: AttnKind,
    pub n_heads: u32,
    pub head_dim: u32,
    pub qk_norm: Option<NormKind>,
    pub rope: RoPeKind,
    pub w_q: WeightId,
    pub w_k: WeightId,
    pub w_v: WeightId,
    pub w_o: WeightId,
}

/// A whole model.
#[derive(Debug, Clone)]
pub struct ModelSpec {
    pub vocab: u32,
    pub hidden: u32,
    pub layers: Vec<LayerSpec>,
    pub embed: WeightId,
    pub final_norm: WeightId,
    pub lm_head: WeightId,
    /// Whether the output shares the weights of the embedding.
    pub tie_embeddings: bool,
    pub eos_ids: Vec<u32>,
    pub rope_global: RoPeKind,
    pub embed_norm: Option<NormKind>,
}

} // verus!
