//! How a layer is wired: which operations run, on which rows, with which weights, in which order.
//!
//! The operations themselves compute with floats and are not the library's. What is fixed here is
//! everything around them: that each reads only what is there, that widths agree, and that every
//! weight is one that was checked when the model was opened.

use vstd::arithmetic::div_mod::{lemma_mod_multiples_basic, lemma_mod_self_0};
use vstd::prelude::*;

use crate::error::Refusal;
use crate::forward::MinModel;
use crate::gguf::reader::Gguf;
use crate::layers::{
    dtype_named, in_layer, law_layer_needs_are_met, layer_info, layer_needs, layer_prefix,
    lemma_linear_head, mixed, model_of, need_met, packed, plain, LayerInfo, Need,
};
use crate::qwen35::{flaw, Hyper, Qwen35Config};
use crate::tensor::DType;

verus! {

/// The rows of numbers that a layer works on. `Input` is what comes in, `Out` what goes out.
#[derive(Debug, Clone, Copy, PartialEq, Eq, PartialOrd, Ord, Hash, Structural)]
pub enum Reg {
    Input,
    Normed,
    Qkv,
    Z,
    BetaRaw,
    Beta,
    Alpha,
    Biased,
    Soft,
    Decay,
    ConvOut,
    Mix,
    QConv,
    KConv,
    VConv,
    QUnit,
    KUnit,
    Delta,
    DeltaRow,
    DeltaNormed,
    NormedRow,
    ZSilu,
    QueryFull,
    QueryRaw,
    GateRaw,
    QueryNormed,
    KeyRaw,
    KeyNormed,
    Value,
    QueryTurned,
    KeyTurned,
    Mixed,
    GateSig,
    Gated,
    AttnOut,
    Residual,
    PostNormed,
    FfnGate,
    FfnUp,
    FfnAct,
    FfnOut,
    Out,
}

/// The weights of a layer.
#[derive(Debug, Clone, Copy, PartialEq, Eq, Structural)]
pub enum Weight {
    AttnNorm,
    PostNorm,
    FfnGate,
    FfnUp,
    FfnDown,
    AttnQ,
    AttnQNorm,
    AttnK,
    AttnKNorm,
    AttnV,
    AttnOutput,
    AttnQkv,
    AttnGate,
    SsmConv,
    SsmDt,
    SsmA,
    SsmBeta,
    SsmAlpha,
    SsmNorm,
    SsmOut,
}

/// The three parts of what the convolution gives.
#[derive(Debug, Clone, Copy, PartialEq, Eq, Structural)]
pub enum Side {
    Query,
    Key,
    Value,
}

/// One operation. Each makes a new row, except those that write state down or show a row.
#[derive(Debug, Clone, Copy)]
pub enum Op {
    /// Root-mean-square norm of each stretch as wide as the weight.
    Norm { out: Reg, x: Reg, weight: Weight },
    /// Product with a packed matrix.
    Project { out: Reg, x: Reg, weight: Weight },
    AddWeight { out: Reg, x: Reg, weight: Weight },
    MulWeight { out: Reg, x: Reg, weight: Weight },
    /// Convolution over the window of the layer, which then takes the row in.
    Conv { out: Reg, x: Reg, weight: Weight },
    Sigmoid { out: Reg, x: Reg },
    Silu { out: Reg, x: Reg },
    Softplus { out: Reg, x: Reg },
    /// One of the three parts of what the convolution gives.
    Part { out: Reg, x: Reg, part: Side },
    /// Each head of the linear part brought to length one.
    Unit { out: Reg, x: Reg },
    /// One step of the recurrent state, head by head.
    Delta { out: Reg, q: Reg, k: Reg, v: Reg, decay: Reg, beta: Reg },
    /// A row with blanks behind it.
    Pad { out: Reg, x: Reg },
    /// The queries of a projection of queries and gates.
    Queries { out: Reg, x: Reg },
    /// The gates of a projection of queries and gates.
    Gates { out: Reg, x: Reg },
    /// Each head rotated by its position.
    Turn { out: Reg, x: Reg },
    /// Keys and values written down.
    Store { k: Reg, v: Reg },
    /// Attention over the tokens so far, head by head.
    Attend { out: Reg, q: Reg },
    Mul { out: Reg, x: Reg, y: Reg },
    Add { out: Reg, x: Reg, y: Reg },
    /// Gate and product of the feed-forward part.
    Swiglu { out: Reg, x: Reg, y: Reg },
    /// A row shown under its name.
    Show { name: &'static str, x: Reg },
}

impl Op {
    /// The row that the operation makes.
    pub open spec fn writes(self) -> Option<Reg> {
        match self {
            Op::Norm { out, .. } | Op::Project { out, .. } | Op::AddWeight { out, .. }
            | Op::MulWeight { out, .. } | Op::Conv { out, .. } | Op::Sigmoid { out, .. }
            | Op::Silu { out, .. } | Op::Softplus { out, .. } | Op::Part { out, .. }
            | Op::Unit { out, .. } | Op::Delta { out, .. } | Op::Pad { out, .. }
            | Op::Queries { out, .. } | Op::Gates { out, .. } | Op::Turn { out, .. }
            | Op::Attend { out, .. } | Op::Mul { out, .. } | Op::Add { out, .. }
            | Op::Swiglu { out, .. } => Some(out),
            Op::Store { .. } | Op::Show { .. } => None,
        }
    }

    /// The row that the operation makes.
    pub fn made(self) -> (res: Option<Reg>)
        ensures
            res == self.writes(),
    {
        match self {
            Op::Norm { out, .. } | Op::Project { out, .. } | Op::AddWeight { out, .. }
            | Op::MulWeight { out, .. } | Op::Conv { out, .. } | Op::Sigmoid { out, .. }
            | Op::Silu { out, .. } | Op::Softplus { out, .. } | Op::Part { out, .. }
            | Op::Unit { out, .. } | Op::Delta { out, .. } | Op::Pad { out, .. }
            | Op::Queries { out, .. } | Op::Gates { out, .. } | Op::Turn { out, .. }
            | Op::Attend { out, .. } | Op::Mul { out, .. } | Op::Add { out, .. }
            | Op::Swiglu { out, .. } => Some(out),
            Op::Store { .. } | Op::Show { .. } => None,
        }
    }

    /// The rows that the operation reads.
    pub open spec fn reads(self) -> Seq<Reg> {
        match self {
            Op::Norm { x, .. } | Op::Project { x, .. } | Op::AddWeight { x, .. }
            | Op::MulWeight { x, .. } | Op::Conv { x, .. } | Op::Sigmoid { x, .. }
            | Op::Silu { x, .. } | Op::Softplus { x, .. } | Op::Part { x, .. } | Op::Unit { x, .. }
            | Op::Pad { x, .. } | Op::Queries { x, .. } | Op::Gates { x, .. } | Op::Turn { x, .. }
            | Op::Show { x, .. } => seq![x],
            Op::Attend { q, .. } => seq![q],
            Op::Mul { x, y, .. } | Op::Add { x, y, .. } | Op::Swiglu { x, y, .. } => seq![x, y],
            Op::Store { k, v } => seq![k, v],
            Op::Delta { q, k, v, decay, beta, .. } => seq![q, k, v, decay, beta],
        }
    }

    /// The weight that the operation uses.
    pub open spec fn uses(self) -> Option<Weight> {
        match self {
            Op::Norm { weight, .. } | Op::Project { weight, .. } | Op::AddWeight { weight, .. }
            | Op::MulWeight { weight, .. } | Op::Conv { weight, .. } => Some(weight),
            _ => None,
        }
    }
}

/// The operations of a recurrent layer.
pub open spec fn recurrent_ops() -> Seq<Op> {
    seq![
        Op::Norm { out: Reg::Normed, x: Reg::Input, weight: Weight::AttnNorm },
        Op::Show { name: "attn_norm", x: Reg::Normed },
        Op::Project { out: Reg::Qkv, x: Reg::Normed, weight: Weight::AttnQkv },
        Op::Project { out: Reg::Z, x: Reg::Normed, weight: Weight::AttnGate },
        Op::Show { name: "linear_attn_qkv_mixed", x: Reg::Qkv },
        Op::Show { name: "z", x: Reg::Z },
        Op::Project { out: Reg::BetaRaw, x: Reg::Normed, weight: Weight::SsmBeta },
        Op::Project { out: Reg::Alpha, x: Reg::Normed, weight: Weight::SsmAlpha },
        Op::Sigmoid { out: Reg::Beta, x: Reg::BetaRaw },
        Op::AddWeight { out: Reg::Biased, x: Reg::Alpha, weight: Weight::SsmDt },
        Op::Softplus { out: Reg::Soft, x: Reg::Biased },
        Op::MulWeight { out: Reg::Decay, x: Reg::Soft, weight: Weight::SsmA },
        Op::Show { name: "beta", x: Reg::BetaRaw },
        Op::Show { name: "beta_sigmoid", x: Reg::Beta },
        Op::Show { name: "alpha", x: Reg::Alpha },
        Op::Show { name: "a_softplus", x: Reg::Soft },
        Op::Show { name: "gate", x: Reg::Decay },
        Op::Conv { out: Reg::ConvOut, x: Reg::Qkv, weight: Weight::SsmConv },
        Op::Silu { out: Reg::Mix, x: Reg::ConvOut },
        Op::Show { name: "conv_output_raw", x: Reg::ConvOut },
        Op::Show { name: "conv_output_silu", x: Reg::Mix },
        Op::Part { out: Reg::QConv, x: Reg::Mix, part: Side::Query },
        Op::Part { out: Reg::KConv, x: Reg::Mix, part: Side::Key },
        Op::Part { out: Reg::VConv, x: Reg::Mix, part: Side::Value },
        Op::Show { name: "q_conv", x: Reg::QConv },
        Op::Show { name: "k_conv", x: Reg::KConv },
        Op::Show { name: "v_conv", x: Reg::VConv },
        Op::Unit { out: Reg::QUnit, x: Reg::QConv },
        Op::Unit { out: Reg::KUnit, x: Reg::KConv },
        Op::Show { name: "q_conv_predelta", x: Reg::QUnit },
        Op::Show { name: "k_conv_predelta", x: Reg::KUnit },
        Op::Show { name: "v_conv_predelta", x: Reg::VConv },
        Op::Delta { out: Reg::Delta, q: Reg::QUnit, k: Reg::KUnit, v: Reg::VConv, decay: Reg::Decay, beta: Reg::Beta },
        Op::Pad { out: Reg::DeltaRow, x: Reg::Delta },
        Op::Show { name: "attn_output", x: Reg::DeltaRow },
        Op::Norm { out: Reg::DeltaNormed, x: Reg::Delta, weight: Weight::SsmNorm },
        Op::Pad { out: Reg::NormedRow, x: Reg::DeltaNormed },
        Op::Silu { out: Reg::ZSilu, x: Reg::Z },
        Op::Mul { out: Reg::Gated, x: Reg::NormedRow, y: Reg::ZSilu },
        Op::Show { name: "final_output", x: Reg::Gated },
        Op::Project { out: Reg::AttnOut, x: Reg::Gated, weight: Weight::SsmOut },
        Op::Add { out: Reg::Residual, x: Reg::Input, y: Reg::AttnOut },
        Op::Show { name: "linear_attn_out", x: Reg::AttnOut },
        Op::Show { name: "attn_residual", x: Reg::Residual },
        Op::Norm { out: Reg::PostNormed, x: Reg::Residual, weight: Weight::PostNorm },
        Op::Show { name: "attn_post_norm", x: Reg::PostNormed },
        Op::Project { out: Reg::FfnGate, x: Reg::PostNormed, weight: Weight::FfnGate },
        Op::Project { out: Reg::FfnUp, x: Reg::PostNormed, weight: Weight::FfnUp },
        Op::Swiglu { out: Reg::FfnAct, x: Reg::FfnGate, y: Reg::FfnUp },
        Op::Show { name: "ffn_gate", x: Reg::FfnGate },
        Op::Show { name: "ffn_up", x: Reg::FfnUp },
        Op::Show { name: "ffn_swiglu", x: Reg::FfnAct },
        Op::Project { out: Reg::FfnOut, x: Reg::FfnAct, weight: Weight::FfnDown },
        Op::Show { name: "ffn_out", x: Reg::FfnOut },
        Op::Add { out: Reg::Out, x: Reg::Residual, y: Reg::FfnOut },
        Op::Show { name: "l_out", x: Reg::Out },
    ]
}

/// The operations of a layer of full attention.
pub open spec fn attention_ops() -> Seq<Op> {
    seq![
        Op::Norm { out: Reg::Normed, x: Reg::Input, weight: Weight::AttnNorm },
        Op::Project { out: Reg::QueryFull, x: Reg::Normed, weight: Weight::AttnQ },
        Op::Queries { out: Reg::QueryRaw, x: Reg::QueryFull },
        Op::Gates { out: Reg::GateRaw, x: Reg::QueryFull },
        Op::Norm { out: Reg::QueryNormed, x: Reg::QueryRaw, weight: Weight::AttnQNorm },
        Op::Project { out: Reg::KeyRaw, x: Reg::Normed, weight: Weight::AttnK },
        Op::Norm { out: Reg::KeyNormed, x: Reg::KeyRaw, weight: Weight::AttnKNorm },
        Op::Project { out: Reg::Value, x: Reg::Normed, weight: Weight::AttnV },
        Op::Turn { out: Reg::QueryTurned, x: Reg::QueryNormed },
        Op::Turn { out: Reg::KeyTurned, x: Reg::KeyNormed },
        Op::Store { k: Reg::KeyTurned, v: Reg::Value },
        Op::Attend { out: Reg::Mixed, q: Reg::QueryTurned },
        Op::Sigmoid { out: Reg::GateSig, x: Reg::GateRaw },
        Op::Mul { out: Reg::Gated, x: Reg::Mixed, y: Reg::GateSig },
        Op::Project { out: Reg::AttnOut, x: Reg::Gated, weight: Weight::AttnOutput },
        Op::Add { out: Reg::Residual, x: Reg::Input, y: Reg::AttnOut },
        Op::Norm { out: Reg::PostNormed, x: Reg::Residual, weight: Weight::PostNorm },
        Op::Project { out: Reg::FfnGate, x: Reg::PostNormed, weight: Weight::FfnGate },
        Op::Project { out: Reg::FfnUp, x: Reg::PostNormed, weight: Weight::FfnUp },
        Op::Swiglu { out: Reg::FfnAct, x: Reg::FfnGate, y: Reg::FfnUp },
        Op::Project { out: Reg::FfnOut, x: Reg::FfnAct, weight: Weight::FfnDown },
        Op::Add { out: Reg::Out, x: Reg::Residual, y: Reg::FfnOut },
    ]
}

/// The operations of a layer.
pub open spec fn ops_of(full: bool) -> Seq<Op> {
    if full {
        attention_ops()
    } else {
        recurrent_ops()
    }
}

#[verifier::rlimit(60)]
fn recurrent_list() -> (res: Vec<Op>)
    ensures
        res@ == recurrent_ops(),
{
    let mut v: Vec<Op> = Vec::new();
    v.push(Op::Norm { out: Reg::Normed, x: Reg::Input, weight: Weight::AttnNorm });
    v.push(Op::Show { name: "attn_norm", x: Reg::Normed });
    v.push(Op::Project { out: Reg::Qkv, x: Reg::Normed, weight: Weight::AttnQkv });
    v.push(Op::Project { out: Reg::Z, x: Reg::Normed, weight: Weight::AttnGate });
    v.push(Op::Show { name: "linear_attn_qkv_mixed", x: Reg::Qkv });
    v.push(Op::Show { name: "z", x: Reg::Z });
    v.push(Op::Project { out: Reg::BetaRaw, x: Reg::Normed, weight: Weight::SsmBeta });
    v.push(Op::Project { out: Reg::Alpha, x: Reg::Normed, weight: Weight::SsmAlpha });
    v.push(Op::Sigmoid { out: Reg::Beta, x: Reg::BetaRaw });
    v.push(Op::AddWeight { out: Reg::Biased, x: Reg::Alpha, weight: Weight::SsmDt });
    v.push(Op::Softplus { out: Reg::Soft, x: Reg::Biased });
    v.push(Op::MulWeight { out: Reg::Decay, x: Reg::Soft, weight: Weight::SsmA });
    v.push(Op::Show { name: "beta", x: Reg::BetaRaw });
    v.push(Op::Show { name: "beta_sigmoid", x: Reg::Beta });
    v.push(Op::Show { name: "alpha", x: Reg::Alpha });
    v.push(Op::Show { name: "a_softplus", x: Reg::Soft });
    v.push(Op::Show { name: "gate", x: Reg::Decay });
    v.push(Op::Conv { out: Reg::ConvOut, x: Reg::Qkv, weight: Weight::SsmConv });
    v.push(Op::Silu { out: Reg::Mix, x: Reg::ConvOut });
    v.push(Op::Show { name: "conv_output_raw", x: Reg::ConvOut });
    v.push(Op::Show { name: "conv_output_silu", x: Reg::Mix });
    v.push(Op::Part { out: Reg::QConv, x: Reg::Mix, part: Side::Query });
    v.push(Op::Part { out: Reg::KConv, x: Reg::Mix, part: Side::Key });
    v.push(Op::Part { out: Reg::VConv, x: Reg::Mix, part: Side::Value });
    v.push(Op::Show { name: "q_conv", x: Reg::QConv });
    v.push(Op::Show { name: "k_conv", x: Reg::KConv });
    v.push(Op::Show { name: "v_conv", x: Reg::VConv });
    v.push(Op::Unit { out: Reg::QUnit, x: Reg::QConv });
    v.push(Op::Unit { out: Reg::KUnit, x: Reg::KConv });
    v.push(Op::Show { name: "q_conv_predelta", x: Reg::QUnit });
    v.push(Op::Show { name: "k_conv_predelta", x: Reg::KUnit });
    v.push(Op::Show { name: "v_conv_predelta", x: Reg::VConv });
    v.push(Op::Delta { out: Reg::Delta, q: Reg::QUnit, k: Reg::KUnit, v: Reg::VConv, decay: Reg::Decay, beta: Reg::Beta });
    v.push(Op::Pad { out: Reg::DeltaRow, x: Reg::Delta });
    v.push(Op::Show { name: "attn_output", x: Reg::DeltaRow });
    v.push(Op::Norm { out: Reg::DeltaNormed, x: Reg::Delta, weight: Weight::SsmNorm });
    v.push(Op::Pad { out: Reg::NormedRow, x: Reg::DeltaNormed });
    v.push(Op::Silu { out: Reg::ZSilu, x: Reg::Z });
    v.push(Op::Mul { out: Reg::Gated, x: Reg::NormedRow, y: Reg::ZSilu });
    v.push(Op::Show { name: "final_output", x: Reg::Gated });
    v.push(Op::Project { out: Reg::AttnOut, x: Reg::Gated, weight: Weight::SsmOut });
    v.push(Op::Add { out: Reg::Residual, x: Reg::Input, y: Reg::AttnOut });
    v.push(Op::Show { name: "linear_attn_out", x: Reg::AttnOut });
    v.push(Op::Show { name: "attn_residual", x: Reg::Residual });
    v.push(Op::Norm { out: Reg::PostNormed, x: Reg::Residual, weight: Weight::PostNorm });
    v.push(Op::Show { name: "attn_post_norm", x: Reg::PostNormed });
    v.push(Op::Project { out: Reg::FfnGate, x: Reg::PostNormed, weight: Weight::FfnGate });
    v.push(Op::Project { out: Reg::FfnUp, x: Reg::PostNormed, weight: Weight::FfnUp });
    v.push(Op::Swiglu { out: Reg::FfnAct, x: Reg::FfnGate, y: Reg::FfnUp });
    v.push(Op::Show { name: "ffn_gate", x: Reg::FfnGate });
    v.push(Op::Show { name: "ffn_up", x: Reg::FfnUp });
    v.push(Op::Show { name: "ffn_swiglu", x: Reg::FfnAct });
    v.push(Op::Project { out: Reg::FfnOut, x: Reg::FfnAct, weight: Weight::FfnDown });
    v.push(Op::Show { name: "ffn_out", x: Reg::FfnOut });
    v.push(Op::Add { out: Reg::Out, x: Reg::Residual, y: Reg::FfnOut });
    v.push(Op::Show { name: "l_out", x: Reg::Out });
    proof {
        assert(v@ =~= recurrent_ops());
    }
    v
}

fn attention_list() -> (res: Vec<Op>)
    ensures
        res@ == attention_ops(),
{
    let mut v: Vec<Op> = Vec::new();
    v.push(Op::Norm { out: Reg::Normed, x: Reg::Input, weight: Weight::AttnNorm });
    v.push(Op::Project { out: Reg::QueryFull, x: Reg::Normed, weight: Weight::AttnQ });
    v.push(Op::Queries { out: Reg::QueryRaw, x: Reg::QueryFull });
    v.push(Op::Gates { out: Reg::GateRaw, x: Reg::QueryFull });
    v.push(Op::Norm { out: Reg::QueryNormed, x: Reg::QueryRaw, weight: Weight::AttnQNorm });
    v.push(Op::Project { out: Reg::KeyRaw, x: Reg::Normed, weight: Weight::AttnK });
    v.push(Op::Norm { out: Reg::KeyNormed, x: Reg::KeyRaw, weight: Weight::AttnKNorm });
    v.push(Op::Project { out: Reg::Value, x: Reg::Normed, weight: Weight::AttnV });
    v.push(Op::Turn { out: Reg::QueryTurned, x: Reg::QueryNormed });
    v.push(Op::Turn { out: Reg::KeyTurned, x: Reg::KeyNormed });
    v.push(Op::Store { k: Reg::KeyTurned, v: Reg::Value });
    v.push(Op::Attend { out: Reg::Mixed, q: Reg::QueryTurned });
    v.push(Op::Sigmoid { out: Reg::GateSig, x: Reg::GateRaw });
    v.push(Op::Mul { out: Reg::Gated, x: Reg::Mixed, y: Reg::GateSig });
    v.push(Op::Project { out: Reg::AttnOut, x: Reg::Gated, weight: Weight::AttnOutput });
    v.push(Op::Add { out: Reg::Residual, x: Reg::Input, y: Reg::AttnOut });
    v.push(Op::Norm { out: Reg::PostNormed, x: Reg::Residual, weight: Weight::PostNorm });
    v.push(Op::Project { out: Reg::FfnGate, x: Reg::PostNormed, weight: Weight::FfnGate });
    v.push(Op::Project { out: Reg::FfnUp, x: Reg::PostNormed, weight: Weight::FfnUp });
    v.push(Op::Swiglu { out: Reg::FfnAct, x: Reg::FfnGate, y: Reg::FfnUp });
    v.push(Op::Project { out: Reg::FfnOut, x: Reg::FfnAct, weight: Weight::FfnDown });
    v.push(Op::Add { out: Reg::Out, x: Reg::Residual, y: Reg::FfnOut });
    proof {
        assert(v@ =~= attention_ops());
    }
    v
}

/// The operations of a layer, in the order in which they run.
pub fn layer_ops(full: bool) -> (res: Vec<Op>)
    ensures
        res@ == ops_of(full),
{
    if full {
        attention_list()
    } else {
        recurrent_list()
    }
}

// ---- Weights --------------------------------------------------------------------------------

impl Weight {
    /// The end of the weight's name.
    pub open spec fn suffix(self) -> Seq<char> {
        match self {
            Weight::AttnNorm => "attn_norm.weight"@,
            Weight::PostNorm => "post_attention_norm.weight"@,
            Weight::FfnGate => "ffn_gate.weight"@,
            Weight::FfnUp => "ffn_up.weight"@,
            Weight::FfnDown => "ffn_down.weight"@,
            Weight::AttnQ => "attn_q.weight"@,
            Weight::AttnQNorm => "attn_q_norm.weight"@,
            Weight::AttnK => "attn_k.weight"@,
            Weight::AttnKNorm => "attn_k_norm.weight"@,
            Weight::AttnV => "attn_v.weight"@,
            Weight::AttnOutput => "attn_output.weight"@,
            Weight::AttnQkv => "attn_qkv.weight"@,
            Weight::AttnGate => "attn_gate.weight"@,
            Weight::SsmConv => "ssm_conv1d.weight"@,
            Weight::SsmDt => "ssm_dt.bias"@,
            Weight::SsmA => "ssm_a"@,
            Weight::SsmBeta => "ssm_beta.weight"@,
            Weight::SsmAlpha => "ssm_alpha.weight"@,
            Weight::SsmNorm => "ssm_norm.weight"@,
            Weight::SsmOut => "ssm_out.weight"@,
        }
    }

    /// The end of the weight's name.
    pub fn name(self) -> (res: &'static str)
        ensures
            res@ == self.suffix(),
    {
        match self {
            Weight::AttnNorm => "attn_norm.weight",
            Weight::PostNorm => "post_attention_norm.weight",
            Weight::FfnGate => "ffn_gate.weight",
            Weight::FfnUp => "ffn_up.weight",
            Weight::FfnDown => "ffn_down.weight",
            Weight::AttnQ => "attn_q.weight",
            Weight::AttnQNorm => "attn_q_norm.weight",
            Weight::AttnK => "attn_k.weight",
            Weight::AttnKNorm => "attn_k_norm.weight",
            Weight::AttnV => "attn_v.weight",
            Weight::AttnOutput => "attn_output.weight",
            Weight::AttnQkv => "attn_qkv.weight",
            Weight::AttnGate => "attn_gate.weight",
            Weight::SsmConv => "ssm_conv1d.weight",
            Weight::SsmDt => "ssm_dt.bias",
            Weight::SsmA => "ssm_a",
            Weight::SsmBeta => "ssm_beta.weight",
            Weight::SsmAlpha => "ssm_alpha.weight",
            Weight::SsmNorm => "ssm_norm.weight",
            Weight::SsmOut => "ssm_out.weight",
        }
    }

    /// The elements of the weight.
    pub open spec fn elems(self, h: Hyper) -> int {
        let n = h.n_embd;
        let conv = 2 * h.d_inner;
        match self {
            Weight::AttnNorm | Weight::PostNorm => n,
            Weight::FfnGate | Weight::FfnUp | Weight::FfnDown => n * h.n_ff,
            Weight::AttnQ => n * 2 * n,
            Weight::AttnQNorm | Weight::AttnKNorm => h.head_dim_v,
            Weight::AttnK | Weight::AttnV => n * h.n_head_kv * h.head_dim_v,
            Weight::AttnOutput | Weight::AttnGate | Weight::SsmOut => n * n,
            Weight::AttnQkv => n * conv,
            Weight::SsmConv => h.conv_kernel * conv,
            Weight::SsmDt | Weight::SsmA => h.value_heads(),
            Weight::SsmBeta | Weight::SsmAlpha => n * h.value_heads(),
            Weight::SsmNorm => h.linear_head(),
        }
    }

    /// The types that the weight may have.
    pub open spec fn allowed(self) -> Seq<DType> {
        match self {
            Weight::AttnNorm | Weight::PostNorm | Weight::AttnQNorm | Weight::AttnKNorm
            | Weight::SsmConv | Weight::SsmDt | Weight::SsmA | Weight::SsmNorm => plain(),
            Weight::FfnDown | Weight::AttnV | Weight::AttnQkv => mixed(),
            _ => packed(),
        }
    }
}

impl LayerInfo {
    /// The type that a weight of the layer has.
    pub open spec fn type_of(self, w: Weight) -> DType {
        match w {
            Weight::AttnV | Weight::AttnQkv => self.values,
            Weight::FfnDown => self.down,
            _ => w.allowed()[0],
        }
    }

    /// The type that a weight of the layer has.
    pub fn dtype(&self, w: Weight) -> (res: DType)
        ensures
            res == self.type_of(w),
    {
        match w {
            Weight::AttnV | Weight::AttnQkv => self.values,
            Weight::FfnDown => self.down,
            Weight::AttnNorm | Weight::PostNorm | Weight::AttnQNorm | Weight::AttnKNorm
            | Weight::SsmConv | Weight::SsmDt | Weight::SsmA | Weight::SsmNorm => DType::F32,
            _ => DType::Q4K,
        }
    }
}

/// The need of a weight in layer `il`.
pub open spec fn need_of(h: Hyper, il: int, w: Weight) -> Need {
    in_layer(il, w.suffix(), w.elems(h), w.allowed())
}

/// Layer `il` has the weight: it is one that the layer needs.
pub open spec fn has_weight(h: Hyper, il: int, w: Weight) -> bool {
    layer_needs(h, il).contains(need_of(h, il, w))
}

/// Every weight that a layer's operations use is one that the layer needs, and that was checked
/// when the model was opened.
pub proof fn law_weights_are_checked(h: Hyper, il: int, k: int)
    requires
        0 <= k < ops_of(h.full_attention(il)).len(),
    ensures
        ops_of(h.full_attention(il))[k].uses() matches Some(w) ==> has_weight(h, il, w),
{
    let needs = layer_needs(h, il);
    assert(needs[0] == need_of(h, il, Weight::AttnNorm));
    assert(needs[1] == need_of(h, il, Weight::PostNorm));
    assert(needs[2] == need_of(h, il, Weight::FfnGate));
    assert(needs[3] == need_of(h, il, Weight::FfnUp));
    assert(needs[4] == need_of(h, il, Weight::FfnDown));
    if h.full_attention(il) {
        assert(needs[5] == need_of(h, il, Weight::AttnQ));
        assert(needs[6] == need_of(h, il, Weight::AttnQNorm));
        assert(needs[7] == need_of(h, il, Weight::AttnK));
        assert(needs[8] == need_of(h, il, Weight::AttnKNorm));
        assert(needs[9] == need_of(h, il, Weight::AttnV));
        assert(needs[10] == need_of(h, il, Weight::AttnOutput));
    } else {
        assert(needs[5] == need_of(h, il, Weight::AttnQkv));
        assert(needs[6] == need_of(h, il, Weight::AttnGate));
        assert(needs[7] == need_of(h, il, Weight::SsmConv));
        assert(needs[8] == need_of(h, il, Weight::SsmDt));
        assert(needs[9] == need_of(h, il, Weight::SsmA));
        assert(needs[10] == need_of(h, il, Weight::SsmBeta));
        assert(needs[11] == need_of(h, il, Weight::SsmAlpha));
        assert(needs[12] == need_of(h, il, Weight::SsmNorm));
        assert(needs[13] == need_of(h, il, Weight::SsmOut));
    }
}

/// Every weight that a layer's operations use has, in the file, the type that is kept for it.
pub proof fn law_types_are_those_of_the_file(g: Gguf, m: MinModel, il: int, k: int)
    requires
        model_of(g) == Ok::<MinModel, Refusal>(m),
        0 <= il < m.cfg.n_layer,
        0 <= k < ops_of(m.cfg.full_attention(il)).len(),
    ensures
        ops_of(m.cfg.full_attention(il))[k].uses() matches Some(w) ==> dtype_named(
            g,
            layer_prefix(il) + w.suffix(),
        ) == layer_info(g, m.cfg, il).type_of(w),
{
    let h = m.cfg;
    if let Some(w) = ops_of(h.full_attention(il))[k].uses() {
        law_weights_are_checked(h, il, k);
        law_layer_needs_are_met(g, m, il, need_of(h, il, w));
        let d = need_met(g, need_of(h, il, w))->Ok_0;
        assert(w.allowed().contains(d));
        assert(d == dtype_named(g, layer_prefix(il) + w.suffix()));
        assert(w.allowed().len() == 1 ==> d == w.allowed()[0]);
        lemma_own_weights(h.full_attention(il), k);
    }
}

/// Values are projected by a weight of their own in full attention, and by a common one elsewhere.
proof fn lemma_own_weights(full: bool, k: int)
    requires
        0 <= k < ops_of(full).len(),
    ensures
        full ==> ops_of(full)[k].uses() != Some(Weight::AttnQkv),
        !full ==> ops_of(full)[k].uses() != Some(Weight::AttnV),
{
}

// ---- Order ----------------------------------------------------------------------------------

/// A row that is there before operation `k`: what came in, or what an earlier operation made.
pub open spec fn is_there(ops: Seq<Op>, k: int, r: Reg) -> bool {
    r == Reg::Input || exists|j: int| 0 <= j < k && (#[trigger] ops[j]).writes() == Some(r)
}

/// Every operation reads only rows that are there.
pub proof fn law_rows_are_made_before_they_are_read(full: bool, k: int)
    requires
        0 <= k < ops_of(full).len(),
    ensures
        forall|r: Reg| #[trigger] ops_of(full)[k].reads().contains(r) ==> is_there(
            ops_of(full),
            k,
            r,
        ),
{
    let ops = ops_of(full);
    if full {
        assert(ops[0].writes() == Some(Reg::Normed));
        assert(ops[1].writes() == Some(Reg::QueryFull));
        assert(ops[2].writes() == Some(Reg::QueryRaw));
        assert(ops[3].writes() == Some(Reg::GateRaw));
        assert(ops[4].writes() == Some(Reg::QueryNormed));
        assert(ops[5].writes() == Some(Reg::KeyRaw));
        assert(ops[6].writes() == Some(Reg::KeyNormed));
        assert(ops[7].writes() == Some(Reg::Value));
        assert(ops[8].writes() == Some(Reg::QueryTurned));
        assert(ops[9].writes() == Some(Reg::KeyTurned));
        assert(ops[11].writes() == Some(Reg::Mixed));
        assert(ops[12].writes() == Some(Reg::GateSig));
        assert(ops[13].writes() == Some(Reg::Gated));
        assert(ops[14].writes() == Some(Reg::AttnOut));
        assert(ops[15].writes() == Some(Reg::Residual));
        assert(ops[16].writes() == Some(Reg::PostNormed));
        assert(ops[17].writes() == Some(Reg::FfnGate));
        assert(ops[18].writes() == Some(Reg::FfnUp));
        assert(ops[19].writes() == Some(Reg::FfnAct));
        assert(ops[20].writes() == Some(Reg::FfnOut));
        assert(ops[21].writes() == Some(Reg::Out));
    } else {
        assert(ops[0].writes() == Some(Reg::Normed));
        assert(ops[2].writes() == Some(Reg::Qkv));
        assert(ops[3].writes() == Some(Reg::Z));
        assert(ops[6].writes() == Some(Reg::BetaRaw));
        assert(ops[7].writes() == Some(Reg::Alpha));
        assert(ops[8].writes() == Some(Reg::Beta));
        assert(ops[9].writes() == Some(Reg::Biased));
        assert(ops[10].writes() == Some(Reg::Soft));
        assert(ops[11].writes() == Some(Reg::Decay));
        assert(ops[17].writes() == Some(Reg::ConvOut));
        assert(ops[18].writes() == Some(Reg::Mix));
        assert(ops[21].writes() == Some(Reg::QConv));
        assert(ops[22].writes() == Some(Reg::KConv));
        assert(ops[23].writes() == Some(Reg::VConv));
        assert(ops[27].writes() == Some(Reg::QUnit));
        assert(ops[28].writes() == Some(Reg::KUnit));
        assert(ops[32].writes() == Some(Reg::Delta));
        assert(ops[33].writes() == Some(Reg::DeltaRow));
        assert(ops[35].writes() == Some(Reg::DeltaNormed));
        assert(ops[36].writes() == Some(Reg::NormedRow));
        assert(ops[37].writes() == Some(Reg::ZSilu));
        assert(ops[38].writes() == Some(Reg::Gated));
        assert(ops[40].writes() == Some(Reg::AttnOut));
        assert(ops[41].writes() == Some(Reg::Residual));
        assert(ops[44].writes() == Some(Reg::PostNormed));
        assert(ops[46].writes() == Some(Reg::FfnGate));
        assert(ops[47].writes() == Some(Reg::FfnUp));
        assert(ops[48].writes() == Some(Reg::FfnAct));
        assert(ops[52].writes() == Some(Reg::FfnOut));
        assert(ops[54].writes() == Some(Reg::Out));
    }
}

/// No row is made twice, what came in is never overwritten, and the last row made is what goes
/// out.
pub proof fn law_rows_are_made_once(full: bool, i: int, j: int)
    requires
        0 <= i < j < ops_of(full).len(),
        ops_of(full)[i].writes() is Some,
    ensures
        ops_of(full)[i].writes() != ops_of(full)[j].writes(),
        ops_of(full)[i].writes() != Some(Reg::Input),
        ops_of(full)[j].writes() is Some ==> ops_of(full)[i].writes() != Some(Reg::Out),
{
}

/// What is kept between tokens changes once in every layer: full attention writes its keys and
/// values down once, and a recurrent layer takes one row into its window and makes one step of its
/// state. No layer touches what is kept by the other sort.
pub proof fn law_state_changes_once(full: bool, i: int, j: int)
    requires
        0 <= i < j < ops_of(full).len(),
    ensures
        ops_of(full)[i] is Store ==> full && !(ops_of(full)[j] is Store),
        ops_of(full)[i] is Conv ==> !full && !(ops_of(full)[j] is Conv),
        ops_of(full)[i] is Delta ==> !full && !(ops_of(full)[j] is Delta),
        full ==> ops_of(full)[10] is Store,
        !full ==> ops_of(full)[17] is Conv && ops_of(full)[32] is Delta,
{
}

/// Keys and values are written and attended to in full attention alone, and windows and states
/// are touched in recurrent layers alone.
pub proof fn law_state_belongs(full: bool, k: int)
    requires
        0 <= k < ops_of(full).len(),
    ensures
        ops_of(full)[k] is Store || ops_of(full)[k] is Attend ==> full,
        ops_of(full)[k] is Conv || ops_of(full)[k] is Delta ==> !full,
        ops_of(full)[k] matches Op::Conv { x, .. } ==> x == Reg::Qkv,
        ops_of(full)[k] matches Op::Store { k, v } ==> k == Reg::KeyTurned && v == Reg::Value,
{
}

// ---- Widths ---------------------------------------------------------------------------------

/// The width of a row.
pub open spec fn width(h: Hyper, r: Reg) -> int {
    match r {
        Reg::Qkv | Reg::ConvOut | Reg::Mix => 2 * h.d_inner,
        Reg::BetaRaw | Reg::Beta | Reg::Alpha | Reg::Biased | Reg::Soft | Reg::Decay =>
            h.value_heads(),
        Reg::QConv | Reg::KConv | Reg::QUnit | Reg::KUnit => h.group_count * h.linear_head(),
        Reg::VConv | Reg::Delta | Reg::DeltaNormed => h.d_inner,
        Reg::QueryFull => 2 * h.n_embd,
        Reg::KeyRaw | Reg::KeyNormed | Reg::KeyTurned | Reg::Value => h.n_head_kv * h.head_dim_v,
        Reg::FfnGate | Reg::FfnUp | Reg::FfnAct => h.n_ff,
        _ => h.n_embd,
    }
}

/// Where a part of what the convolution gives begins.
pub open spec fn part_start(h: Hyper, part: Side) -> int {
    match part {
        Side::Query => 0,
        Side::Key => h.group_count * h.linear_head(),
        Side::Value => 2 * (h.group_count * h.linear_head()),
    }
}

/// Where a part of what the convolution gives begins.
pub fn part_start_of(cfg: &Qwen35Config, part: Side) -> (res: u64)
    requires
        cfg.small(),
        flaw(cfg@) is None,
        cfg.d_inner > 0,
    ensures
        res == part_start(cfg@, part),
{
    let inner: u64 = cfg.d_inner as u64;
    let groups: u64 = cfg.group_count as u64;
    let head: u64 = inner / (2 * groups);
    proof {
        lemma_linear_head(cfg@);
        let g = cfg@.group_count;
        let w = cfg@.linear_head();
        assert(0 <= g * w <= cfg@.d_inner) by (nonlinear_arith)
            requires
                (2 * g) * w == cfg@.d_inner,
                g >= 0,
                w >= 0,
        ;
    }
    match part {
        Side::Query => 0,
        Side::Key => groups * head,
        Side::Value => 2 * (groups * head),
    }
}

/// The rows of an operation have the widths that it works on.
pub open spec fn fits(h: Hyper, op: Op) -> bool {
    match op {
        Op::Norm { out, x, weight } => {
            &&& width(h, out) == width(h, x)
            &&& 0 < weight.elems(h) <= width(h, x)
            &&& width(h, x) % weight.elems(h) == 0
        },
        Op::Project { out, x, weight } => weight.elems(h) == width(h, x) * width(h, out),
        Op::AddWeight { out, x, weight } | Op::MulWeight { out, x, weight } => width(h, out)
            == width(h, x) && weight.elems(h) == width(h, x),
        Op::Conv { out, x, weight } => width(h, out) == width(h, x) && weight.elems(h)
            == h.conv_kernel * width(h, x),
        Op::Sigmoid { out, x } | Op::Silu { out, x } | Op::Softplus { out, x } => width(h, out)
            == width(h, x),
        Op::Part { out, x, part } => part_start(h, part) + width(h, out) <= width(h, x),
        Op::Unit { out, x } => width(h, out) == width(h, x) && width(h, x) == h.group_count
            * h.linear_head(),
        Op::Delta { out, q, k, v, decay, beta } => {
            &&& width(h, q) == h.group_count * h.linear_head()
            &&& width(h, k) == width(h, q)
            &&& width(h, v) == h.value_heads() * h.linear_head()
            &&& width(h, out) == width(h, v)
            &&& width(h, decay) == h.value_heads()
            &&& width(h, beta) == h.value_heads()
        },
        Op::Pad { out, x } => width(h, x) <= width(h, out),
        Op::Queries { out, x } | Op::Gates { out, x } => width(h, x) == 2 * width(h, out) && width(
            h,
            out,
        ) == h.n_head * h.head_dim_v,
        Op::Turn { out, x } => {
            &&& width(h, out) == width(h, x)
            &&& 0 < h.head_dim_v
            &&& h.n_rot <= h.head_dim_v
            &&& width(h, x) % h.head_dim_v == 0
        },
        Op::Store { k, v } => width(h, k) == h.n_head_kv * h.head_dim_v && width(h, v) == width(
            h,
            k,
        ),
        Op::Attend { out, q } => width(h, q) == h.n_head * h.head_dim_v && width(h, out) == width(
            h,
            q,
        ),
        Op::Mul { out, x, y } | Op::Add { out, x, y } | Op::Swiglu { out, x, y } => width(h, out)
            == width(h, x) && width(h, y) == width(h, x),
        Op::Show { .. } => true,
    }
}

/// The products and bounds by which widths agree.
spec fn sizes_agree(h: Hyper) -> bool {
    let n = h.n_embd;
    let gw = h.group_count * h.linear_head();
    let kv = h.n_head_kv * h.head_dim_v;
    &&& 2 * gw == h.d_inner
    &&& h.value_heads() * h.linear_head() == h.d_inner
    &&& n * h.n_head_kv * h.head_dim_v == n * kv
    &&& n * 2 * n == n * (2 * n)
    &&& n * h.n_ff == h.n_ff * n
    &&& 0 < h.head_dim_v <= n
    &&& h.head_dim_v <= kv
    &&& 0 < h.linear_head() <= h.d_inner
    &&& h.n_head * h.head_dim_v == n
    &&& h.n_rot <= h.head_dim_v
    &&& n > 0
    &&& n % n == 0
    &&& n % h.head_dim_v == 0
    &&& kv % h.head_dim_v == 0
    &&& h.d_inner % h.linear_head() == 0
}

proof fn lemma_sizes_agree(h: Hyper)
    requires
        flaw(h) is None,
        0 < h.d_inner,
    ensures
        sizes_agree(h),
{
    lemma_linear_head(h);
    let n = h.n_embd;
    let g = h.group_count;
    let w = h.linear_head();
    let kv = h.n_head_kv * h.head_dim_v;
    assert(2 * (g * w) == h.d_inner) by (nonlinear_arith)
        requires
            (2 * g) * w == h.d_inner,
    ;
    assert(n * h.n_head_kv * h.head_dim_v == n * kv) by (nonlinear_arith)
        requires
            kv == h.n_head_kv * h.head_dim_v,
    ;
    assert(n * 2 * n == n * (2 * n)) by (nonlinear_arith);
    assert(n * h.n_ff == h.n_ff * n) by (nonlinear_arith);
    assert(0 < h.head_dim_v <= n && h.head_dim_v <= kv) by (nonlinear_arith)
        requires
            h.n_head * h.head_dim_v == n,
            h.n_head >= 1,
            n > 0,
            h.n_head_kv >= 1,
            kv == h.n_head_kv * h.head_dim_v,
    ;
    lemma_mod_self_0(n);
    lemma_mod_multiples_basic(h.n_head, h.head_dim_v);
    lemma_mod_multiples_basic(h.n_head_kv, h.head_dim_v);
    lemma_mod_multiples_basic(h.value_heads(), w);
}

/// In an accepted model the widths of every operation of every layer agree. Recurrent layers ask
/// for a linear part that is no wider than the embedding; full attention does not look at it.
pub proof fn law_widths_agree(h: Hyper, full: bool, k: int)
    requires
        flaw(h) is None,
        0 < h.d_inner,
        !full ==> h.d_inner <= h.n_embd,
        0 <= k < ops_of(full).len(),
    ensures
        fits(h, ops_of(full)[k]),
{
    lemma_sizes_agree(h);
    if full {
        lemma_attention_fits(h, k);
    } else {
        lemma_recurrent_fits(h, k);
    }
}

#[verifier::rlimit(60)]
proof fn lemma_attention_fits(h: Hyper, k: int)
    requires
        sizes_agree(h),
        0 <= k < attention_ops().len(),
    ensures
        fits(h, attention_ops()[k]),
{
}

#[verifier::rlimit(60)]
proof fn lemma_recurrent_fits(h: Hyper, k: int)
    requires
        sizes_agree(h),
        h.d_inner <= h.n_embd,
        0 <= k < recurrent_ops().len(),
    ensures
        fits(h, recurrent_ops()[k]),
{
}

/// The width of a row.
pub fn width_of(cfg: &Qwen35Config, r: Reg) -> (res: u64)
    requires
        cfg.small(),
        flaw(cfg@) is None,
        cfg.d_inner > 0,
    ensures
        res == width(cfg@, r),
{
    let inner: u64 = cfg.d_inner as u64;
    let groups: u64 = cfg.group_count as u64;
    let head: u64 = inner / (2 * groups);
    proof {
        lemma_linear_head(cfg@);
        let g = cfg@.group_count;
        let w = cfg@.linear_head();
        assert(0 <= g * w <= cfg@.d_inner) by (nonlinear_arith)
            requires
                (2 * g) * w == cfg@.d_inner,
                g >= 0,
                w >= 0,
        ;
        let a = cfg@.n_head_kv;
        let b = cfg@.head_dim_v;
        assert(0 <= a * b <= 0xFFFF_FFFF * 0xFFFF_FFFF) by (nonlinear_arith)
            requires
                0 <= a <= 0xFFFF_FFFF,
                0 <= b <= 0xFFFF_FFFF,
        ;
    }
    match r {
        Reg::Qkv | Reg::ConvOut | Reg::Mix => 2 * inner,
        Reg::BetaRaw | Reg::Beta | Reg::Alpha | Reg::Biased | Reg::Soft | Reg::Decay => inner
            / head,
        Reg::QConv | Reg::KConv | Reg::QUnit | Reg::KUnit => groups * head,
        Reg::VConv | Reg::Delta | Reg::DeltaNormed => inner,
        Reg::QueryFull => 2 * cfg.n_embd as u64,
        Reg::KeyRaw | Reg::KeyNormed | Reg::KeyTurned | Reg::Value => cfg.n_head_kv as u64
            * cfg.head_dim_v as u64,
        Reg::FfnGate | Reg::FfnUp | Reg::FfnAct => cfg.n_ff as u64,
        _ => cfg.n_embd as u64,
    }
}

// ---- Names and types in files ---------------------------------------------------------------

/// Operation `k` of a layer uses the weight that files call `name`.
pub open spec fn uses_named(op: Op, name: Seq<char>) -> bool {
    op.uses() matches Some(w) && w.suffix() == name
}

/// The weights by what is done with them, under the names that files give them. Of the feed-forward
/// part: what gates, what is gated, and what leads back. Of full attention: what makes queries with
/// their gates, keys and values. Of recurrent layers: what makes the mixed row, the outer gate, the
/// share and the decay with its bias and its factor.
pub proof fn law_weights_are_called_by_their_use(k: int)
    requires
        0 <= k < recurrent_ops().len(),
    ensures
        k < attention_ops().len() ==> {
            let op = attention_ops()[k];
            &&& op.writes() == Some(Reg::Normed) ==> uses_named(op, "attn_norm.weight"@)
            &&& op.writes() == Some(Reg::QueryFull) ==> uses_named(op, "attn_q.weight"@)
            &&& op.writes() == Some(Reg::QueryNormed) ==> uses_named(op, "attn_q_norm.weight"@)
            &&& op.writes() == Some(Reg::KeyRaw) ==> uses_named(op, "attn_k.weight"@)
            &&& op.writes() == Some(Reg::KeyNormed) ==> uses_named(op, "attn_k_norm.weight"@)
            &&& op.writes() == Some(Reg::Value) ==> uses_named(op, "attn_v.weight"@)
            &&& op.writes() == Some(Reg::AttnOut) ==> uses_named(op, "attn_output.weight"@)
            &&& op.writes() == Some(Reg::PostNormed) ==> uses_named(
                op,
                "post_attention_norm.weight"@,
            )
            &&& op.writes() == Some(Reg::FfnGate) ==> uses_named(op, "ffn_gate.weight"@)
            &&& op.writes() == Some(Reg::FfnUp) ==> uses_named(op, "ffn_up.weight"@)
            &&& op.writes() == Some(Reg::FfnOut) ==> uses_named(op, "ffn_down.weight"@)
        },
        ({
            let op = recurrent_ops()[k];
            &&& op.writes() == Some(Reg::Normed) ==> uses_named(op, "attn_norm.weight"@)
            &&& op.writes() == Some(Reg::Qkv) ==> uses_named(op, "attn_qkv.weight"@)
            &&& op.writes() == Some(Reg::Z) ==> uses_named(op, "attn_gate.weight"@)
            &&& op.writes() == Some(Reg::BetaRaw) ==> uses_named(op, "ssm_beta.weight"@)
            &&& op.writes() == Some(Reg::Alpha) ==> uses_named(op, "ssm_alpha.weight"@)
            &&& op.writes() == Some(Reg::Biased) ==> uses_named(op, "ssm_dt.bias"@)
            &&& op.writes() == Some(Reg::Decay) ==> uses_named(op, "ssm_a"@)
            &&& op.writes() == Some(Reg::ConvOut) ==> uses_named(op, "ssm_conv1d.weight"@)
            &&& op.writes() == Some(Reg::DeltaNormed) ==> uses_named(op, "ssm_norm.weight"@)
            &&& op.writes() == Some(Reg::AttnOut) ==> uses_named(op, "ssm_out.weight"@)
            &&& op.writes() == Some(Reg::PostNormed) ==> uses_named(
                op,
                "post_attention_norm.weight"@,
            )
            &&& op.writes() == Some(Reg::FfnGate) ==> uses_named(op, "ffn_gate.weight"@)
            &&& op.writes() == Some(Reg::FfnUp) ==> uses_named(op, "ffn_up.weight"@)
            &&& op.writes() == Some(Reg::FfnOut) ==> uses_named(op, "ffn_down.weight"@)
        }),
{
}

/// A matrix that a row is projected with is packed, four bits to a weight; that of the values, the
/// mixed matrix and the one that leads back from the feed-forward part may have six instead. All
/// other weights have full precision.
pub proof fn law_types_go_by_use(full: bool, k: int)
    requires
        0 <= k < ops_of(full).len(),
        ops_of(full)[k].uses() is Some,
    ensures
        ({
            let op = ops_of(full)[k];
            let allowed = op.uses()->0.allowed();
            let r = op.writes()->0;
            forall|d: DType| #[trigger]
                allowed.contains(d) <==> if op is Project {
                    d == DType::Q4K || (d == DType::Q6K && (r == Reg::Value || r == Reg::Qkv || r
                        == Reg::FfnOut))
                } else {
                    d == DType::F32
                }
        }),
{
    let op = ops_of(full)[k];
    let w = op.uses()->0;
    let allowed = w.allowed();
    let r = op.writes()->0;
    assert(plain()[0] == DType::F32);
    assert(packed()[0] == DType::Q4K);
    assert(mixed()[0] == DType::Q4K && mixed()[1] == DType::Q6K);
    lemma_type_lists(full, k);
}

proof fn lemma_type_lists(full: bool, k: int)
    requires
        0 <= k < ops_of(full).len(),
        ops_of(full)[k].uses() is Some,
    ensures
        ({
            let op = ops_of(full)[k];
            let r = op.writes()->0;
            op.uses()->0.allowed() == if !(op is Project) {
                plain()
            } else if r == Reg::Value || r == Reg::Qkv || r == Reg::FfnOut {
                mixed()
            } else {
                packed()
            }
        }),
{
}

} // verus!
