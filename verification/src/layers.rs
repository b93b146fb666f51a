//! The layers of a model: the tensors that each needs, and where its state is kept.

use vstd::prelude::*;

use crate::error::{LoadError, Refusal};
use crate::forward::{
    dtype_of, dtype_of_id, embedding_rows, min_model_of, wrong_count, MinForward, MinModel,
};
use crate::gguf::ggml_type::bytes_for;
use crate::gguf::laws::{law_found_by_name, law_sizes_match_shapes};
use crate::gguf::reader::{found, gguf_of, Gguf, GgufReader, WeightIndex};
use crate::qwen35::{flaw, full_layers, law_accepted_config_is_sound, Hyper, Qwen35Config};
use crate::tensor::DType;
use crate::text::{dec, push_dec};
use crate::weights::{law_tensor_complete, tensor_bytes, MappedWeights};

verus! {

// ---- One tensor -----------------------------------------------------------------------------

/// A tensor that a model needs, with its number of elements and the types that it may have.
pub struct TensorNeed {
    pub name: String,
    pub elems: u128,
    pub allowed: Vec<DType>,
}

/// What a [`TensorNeed`] says.
pub struct Need {
    pub name: Seq<char>,
    pub elems: int,
    pub allowed: Seq<DType>,
}

impl View for TensorNeed {
    type V = Need;

    open spec fn view(&self) -> Need {
        Need { name: self.name@, elems: self.elems as int, allowed: self.allowed@ }
    }
}

/// The names of types, with a comma between two.
pub open spec fn types_listed(types: Seq<DType>) -> Seq<char>
    decreases types.len(),
{
    if types.len() == 0 {
        Seq::empty()
    } else if types.len() == 1 {
        types[0].label()
    } else {
        types_listed(types.drop_last()) + ", "@ + types.last().label()
    }
}

/// The type of a tensor that meets a need, or the refusal: no such tensor, another number of
/// elements, an unknown type, or one that the need does not allow, in this order.
pub open spec fn need_met(g: Gguf, need: Need) -> Result<DType, Refusal> {
    match found(g.tensors, need.name) {
        None => Err(Refusal::MissingTensor { name: need.name }),
        Some(t) => if t.n_elements != need.elems {
            Err(wrong_count(need.name, t.n_elements, need.elems))
        } else {
            match dtype_of_id(t.ggml_type_id) {
                Err(e) => Err(e),
                Ok(d) => if !need.allowed.contains(d) {
                    Err(
                        Refusal::BadFile(
                            "tensor '"@ + need.name + "': dtype "@ + d.label()
                                + ", se esperaba uno de ["@ + types_listed(need.allowed) + "]"@,
                        ),
                    )
                } else {
                    Ok(d)
                },
            }
        },
    }
}

fn push_types(m: &mut String, types: &Vec<DType>)
    ensures
        final(m)@ == old(m)@ + types_listed(types@),
{
    let mut i: usize = 0;
    proof {
        assert(types@.take(0) =~= Seq::<DType>::empty());
        assert(m@ + Seq::<char>::empty() =~= m@);
    }
    while i < types.len()
        invariant
            i <= types@.len(),
            m@ == old(m)@ + types_listed(types@.take(i as int)),
        decreases types@.len() - i,
    {
        proof {
            assert(types@.take(i + 1).drop_last() =~= types@.take(i as int));
            assert(types@.take(i + 1).last() == types@[i as int]);
        }
        if i > 0 {
            m.append(", ");
        }
        m.append(types[i].name());
        proof {
            if i == 0 {
                assert(types@.take(1)[0] == types@[0]);
                assert(m@ =~= old(m)@ + types_listed(types@.take(1)));
            } else {
                assert(m@ =~= old(m)@ + types_listed(types@.take(i + 1)));
            }
        }
        i += 1;
    }
    proof {
        assert(types@.take(i as int) =~= types@);
    }
}

fn is_allowed(types: &Vec<DType>, d: DType) -> (res: bool)
    ensures
        res == types@.contains(d),
{
    let mut i: usize = 0;
    while i < types.len()
        invariant
            i <= types@.len(),
            forall|j: int| 0 <= j < i ==> types@[j] != d,
        decreases types@.len() - i,
    {
        if types[i] == d {
            return true;
        }
        i += 1;
    }
    false
}

/// Checks a tensor of the index: it is there, has exactly the elements that it should, and a type
/// that is allowed. The result is its type.
pub fn check(r: &GgufReader, need: &TensorNeed) -> (res: Result<DType, LoadError>)
    requires
        r.wf(),
    ensures
        match need_met(r@, need@) {
            Ok(d) => res is Ok && res->Ok_0 == d,
            Err(e) => res is Err && res->Err_0@ == e,
        },
{
    let meta = match r.find(need.name.as_str()) {
        Some(t) => t,
        None => {
            return Err(
                LoadError::MissingTensor { name: String::from_str(need.name.as_str()) },
            );
        },
    };
    if meta.n_elements as u128 != need.elems {
        return Err(
            LoadError::ElementCount {
                name: String::from_str(need.name.as_str()),
                got: meta.n_elements as usize,
                want: need.elems as usize,
            },
        );
    }
    let d = match dtype_of(meta) {
        Ok(d) => d,
        Err(e) => {
            return Err(e);
        },
    };
    if !is_allowed(&need.allowed, d) {
        let mut m = String::from_str("tensor '");
        m.append(need.name.as_str());
        m.append("': dtype ");
        m.append(d.name());
        m.append(", se esperaba uno de [");
        push_types(&mut m, &need.allowed);
        m.append("]");
        return Err(LoadError::corrupt(m));
    }
    Ok(d)
}

// ---- The tensors of a layer -----------------------------------------------------------------

/// The beginning of the names of a layer's tensors.
pub open spec fn layer_prefix(il: int) -> Seq<char> {
    "blk."@ + dec(il as nat) + "."@
}

/// A need of a layer's tensor.
pub open spec fn in_layer(il: int, name: Seq<char>, elems: int, allowed: Seq<DType>) -> Need {
    Need { name: layer_prefix(il) + name, elems, allowed }
}

/// Full precision.
pub open spec fn plain() -> Seq<DType> {
    seq![DType::F32]
}

/// Four bits to a weight.
pub open spec fn packed() -> Seq<DType> {
    seq![DType::Q4K]
}

/// Four or six bits to a weight.
pub open spec fn mixed() -> Seq<DType> {
    seq![DType::Q4K, DType::Q6K]
}

/// The tensors that every layer needs.
pub open spec fn common_needs(h: Hyper, il: int) -> Seq<Need> {
    seq![
        in_layer(il, "attn_norm.weight"@, h.n_embd, plain()),
        in_layer(il, "post_attention_norm.weight"@, h.n_embd, plain()),
        in_layer(il, "ffn_gate.weight"@, h.n_embd * h.n_ff, packed()),
        in_layer(il, "ffn_up.weight"@, h.n_embd * h.n_ff, packed()),
        in_layer(il, "ffn_down.weight"@, h.n_embd * h.n_ff, mixed()),
    ]
}

/// The tensors of full attention.
pub open spec fn attention_needs(h: Hyper, il: int) -> Seq<Need> {
    let n = h.n_embd;
    let kv = n * h.n_head_kv * h.head_dim_v;
    seq![
        in_layer(il, "attn_q.weight"@, n * 2 * n, packed()),
        in_layer(il, "attn_q_norm.weight"@, h.head_dim_v, plain()),
        in_layer(il, "attn_k.weight"@, kv, packed()),
        in_layer(il, "attn_k_norm.weight"@, h.head_dim_v, plain()),
        in_layer(il, "attn_v.weight"@, kv, mixed()),
        in_layer(il, "attn_output.weight"@, n * n, packed()),
    ]
}

/// The tensors of a recurrent layer.
pub open spec fn recurrent_needs(h: Hyper, il: int) -> Seq<Need> {
    let n = h.n_embd;
    let conv = 2 * h.d_inner;
    let heads = h.value_heads();
    seq![
        in_layer(il, "attn_qkv.weight"@, n * conv, mixed()),
        in_layer(il, "attn_gate.weight"@, n * n, packed()),
        in_layer(il, "ssm_conv1d.weight"@, h.conv_kernel * conv, plain()),
        in_layer(il, "ssm_dt.bias"@, heads, plain()),
        in_layer(il, "ssm_a"@, heads, plain()),
        in_layer(il, "ssm_beta.weight"@, n * heads, packed()),
        in_layer(il, "ssm_alpha.weight"@, n * heads, packed()),
        in_layer(il, "ssm_norm.weight"@, h.linear_head(), plain()),
        in_layer(il, "ssm_out.weight"@, n * n, packed()),
    ]
}

/// The tensors that a layer needs, in the order in which they are checked.
pub open spec fn layer_needs(h: Hyper, il: int) -> Seq<Need> {
    common_needs(h, il) + if h.full_attention(il) {
        attention_needs(h, il)
    } else {
        recurrent_needs(h, il)
    }
}

/// The tensors that the first `n` layers need, after the norm at the end.
pub open spec fn all_needs(h: Hyper, n: nat) -> Seq<Need>
    decreases n,
{
    if n == 0 {
        seq![Need { name: "output_norm.weight"@, elems: h.n_embd, allowed: plain() }]
    } else {
        all_needs(h, (n - 1) as nat) + layer_needs(h, n - 1)
    }
}

/// The refusal of the first need that is not met.
pub open spec fn first_unmet(g: Gguf, needs: Seq<Need>) -> Option<Refusal>
    decreases needs.len(),
{
    if needs.len() == 0 {
        None
    } else {
        match first_unmet(g, needs.drop_last()) {
            Some(e) => Some(e),
            None => match need_met(g, needs.last()) {
                Ok(_) => None,
                Err(e) => Some(e),
            },
        }
    }
}

/// What is kept of a layer once its tensors have been checked.
#[derive(Debug, Clone, Copy, PartialEq, Eq, Structural)]
pub struct LayerInfo {
    /// Whether it has full attention; it is recurrent otherwise.
    pub full: bool,
    /// Its place among the layers of its sort.
    pub slot: usize,
    /// The type of the values' weights, or of those of queries, keys and values together.
    pub values: DType,
    /// The type of the weights that close the feed-forward part.
    pub down: DType,
}

/// The type of the tensor found under a name.
pub open spec fn dtype_named(g: Gguf, name: Seq<char>) -> DType {
    dtype_of_id(found(g.tensors, name)->0.ggml_type_id)->Ok_0
}

/// What is kept of layer `il`.
pub open spec fn layer_info(g: Gguf, h: Hyper, il: int) -> LayerInfo {
    let full = h.full_attention(il);
    LayerInfo {
        full,
        slot: (if full {
            full_layers(h, il as nat) as int
        } else {
            il - full_layers(h, il as nat)
        }) as usize,
        values: dtype_named(
            g,
            layer_prefix(il) + if full {
                "attn_v.weight"@
            } else {
                "attn_qkv.weight"@
            },
        ),
        down: dtype_named(g, layer_prefix(il) + "ffn_down.weight"@),
    }
}

/// The model of a file: configuration, embedding, and every tensor of every layer.
pub open spec fn model_of(g: Gguf) -> Result<MinModel, Refusal> {
    match min_model_of(g) {
        Err(e) => Err(e),
        Ok(m) => if m.cfg.d_inner == 0 {
            Err(Refusal::StructCheck("ssm.inner_size = 0"@))
        } else {
            match first_unmet(g, all_needs(m.cfg, m.cfg.n_layer as nat)) {
                Some(e) => Err(e),
                None => Ok(m),
            }
        },
    }
}

fn plain_types() -> (res: Vec<DType>)
    ensures
        res@ == plain(),
{
    let mut v: Vec<DType> = Vec::new();
    v.push(DType::F32);
    v
}

fn packed_types() -> (res: Vec<DType>)
    ensures
        res@ == packed(),
{
    let mut v: Vec<DType> = Vec::new();
    v.push(DType::Q4K);
    v
}

fn mixed_types() -> (res: Vec<DType>)
    ensures
        res@ == mixed(),
{
    let mut v: Vec<DType> = Vec::new();
    v.push(DType::Q4K);
    v.push(DType::Q6K);
    v
}

/// The beginning of the names of a layer's tensors.
pub fn prefix(il: usize) -> (res: String)
    ensures
        res@ == layer_prefix(il as int),
{
    let mut s = String::from_str("blk.");
    push_dec(&mut s, il as u64);
    s.append(".");
    s
}

fn need(il: usize, name: &str, elems: u128, allowed: Vec<DType>) -> (res: TensorNeed)
    ensures
        res@ == in_layer(il as int, name@, elems as int, allowed@),
{
    let mut full = prefix(il);
    full.append(name);
    TensorNeed { name: full, elems, allowed }
}

spec fn views(needs: Seq<TensorNeed>) -> Seq<Need> {
    needs.map_values(|n: TensorNeed| n@)
}

fn attention_list(cfg: &Qwen35Config, il: usize) -> (res: Vec<TensorNeed>)
    requires
        cfg.small(),
    ensures
        views(res@) == attention_needs(cfg@, il as int),
{
    let n: u128 = cfg.n_embd as u128;
    let kv_heads: u128 = cfg.n_head_kv as u128;
    let width: u128 = cfg.head_dim_v as u128;
    proof {
        lemma_products(n as int, kv_heads as int, width as int);
        lemma_products(n as int, 2, n as int);
        lemma_products(n as int, n as int, 1);
    }
    let kv: u128 = n * kv_heads * width;
    let mut v: Vec<TensorNeed> = Vec::new();
    v.push(need(il, "attn_q.weight", n * 2 * n, packed_types()));
    v.push(need(il, "attn_q_norm.weight", width, plain_types()));
    v.push(need(il, "attn_k.weight", kv, packed_types()));
    v.push(need(il, "attn_k_norm.weight", width, plain_types()));
    v.push(need(il, "attn_v.weight", kv, mixed_types()));
    v.push(need(il, "attn_output.weight", n * n, packed_types()));
    proof {
        assert(views(v@) =~= attention_needs(cfg@, il as int));
    }
    v
}

fn recurrent_list(cfg: &Qwen35Config, il: usize) -> (res: Vec<TensorNeed>)
    requires
        cfg.small(),
        flaw(cfg@) is None,
        cfg.d_inner > 0,
    ensures
        views(res@) == recurrent_needs(cfg@, il as int),
{
    let n: u128 = cfg.n_embd as u128;
    let inner: u128 = cfg.d_inner as u128;
    let conv: u128 = 2 * inner;
    let taps: u128 = cfg.conv_kernel as u128;
    let width: u128 = inner / (2 * cfg.group_count as u128);
    proof {
        lemma_linear_head(cfg@);
    }
    let heads: u128 = inner / width;
    proof {
        assert(heads <= inner);
        lemma_products(n as int, conv as int, 1);
        lemma_products(n as int, n as int, 1);
        lemma_products(taps as int, conv as int, 1);
        lemma_products(n as int, heads as int, 1);
    }
    let mut v: Vec<TensorNeed> = Vec::new();
    v.push(need(il, "attn_qkv.weight", n * conv, mixed_types()));
    v.push(need(il, "attn_gate.weight", n * n, packed_types()));
    v.push(need(il, "ssm_conv1d.weight", taps * conv, plain_types()));
    v.push(need(il, "ssm_dt.bias", heads, plain_types()));
    v.push(need(il, "ssm_a", heads, plain_types()));
    v.push(need(il, "ssm_beta.weight", n * heads, packed_types()));
    v.push(need(il, "ssm_alpha.weight", n * heads, packed_types()));
    v.push(need(il, "ssm_norm.weight", width, plain_types()));
    v.push(need(il, "ssm_out.weight", n * n, packed_types()));
    proof {
        assert(views(v@) =~= recurrent_needs(cfg@, il as int));
    }
    v
}

/// The tensors that a layer needs, in the order in which they are checked.
pub fn layer_list(cfg: &Qwen35Config, il: usize) -> (res: Vec<TensorNeed>)
    requires
        cfg.small(),
        flaw(cfg@) is None,
        cfg.d_inner > 0,
        il < cfg.n_layer,
    ensures
        res@.map_values(|n: TensorNeed| n@) == layer_needs(cfg@, il as int),
{
    let n: u128 = cfg.n_embd as u128;
    let ff: u128 = cfg.n_ff as u128;
    proof {
        lemma_products(n as int, ff as int, 1);
    }
    let mut v: Vec<TensorNeed> = Vec::new();
    v.push(need(il, "attn_norm.weight", n, plain_types()));
    v.push(need(il, "post_attention_norm.weight", n, plain_types()));
    v.push(need(il, "ffn_gate.weight", n * ff, packed_types()));
    v.push(need(il, "ffn_up.weight", n * ff, packed_types()));
    v.push(need(il, "ffn_down.weight", n * ff, mixed_types()));
    proof {
        assert(views(v@) =~= common_needs(cfg@, il as int));
    }
    let ghost first = v@;
    let mut rest = if cfg.is_full_attn(il) {
        attention_list(cfg, il)
    } else {
        recurrent_list(cfg, il)
    };
    let ghost second = rest@;
    v.append(&mut rest);
    proof {
        assert(views(v@) =~= views(first) + views(second));
    }
    v
}

proof fn lemma_products(a: int, b: int, c: int)
    requires
        0 <= a <= u32::MAX,
        0 <= b <= 2 * u32::MAX,
        0 <= c <= u32::MAX,
    ensures
        0 <= a * b <= u128::MAX,
        0 <= a * b * c <= u128::MAX,
{
    assert(0 <= a * b <= 0xFFFF_FFFF * 0x1_FFFF_FFFE) by (nonlinear_arith)
        requires
            0 <= a <= 0xFFFF_FFFF,
            0 <= b <= 0x1_FFFF_FFFE,
    ;
    let p = a * b;
    assert(0 <= p * c <= 0xFFFF_FFFF * 0x1_FFFF_FFFE * 0xFFFF_FFFF) by (nonlinear_arith)
        requires
            0 <= p <= 0xFFFF_FFFF * 0x1_FFFF_FFFE,
            0 <= c <= 0xFFFF_FFFF,
    ;
}

/// Heads and width of the linear part make up its inner width.
pub proof fn lemma_linear_head(h: Hyper)
    requires
        flaw(h) is None,
        h.d_inner > 0,
    ensures
        0 < h.linear_head() <= h.d_inner,
        0 < h.value_heads() <= h.d_inner,
        h.value_heads() == 2 * h.group_count,
        h.value_heads() * h.linear_head() == h.d_inner,
{
    let g = 2 * h.group_count;
    let w = h.linear_head();
    vstd::arithmetic::div_mod::lemma_fundamental_div_mod(h.d_inner, g);
    assert(0 < w <= g * w && g <= g * w) by (nonlinear_arith)
        requires
            g * w > 0,
            g > 0,
    ;
    vstd::arithmetic::div_mod::lemma_div_multiples_vanish(g, w);
    assert(g * w == w * g) by (nonlinear_arith);
}

/// A refusal stays, whatever is asked for after it.
proof fn lemma_unmet_stays(g: Gguf, a: Seq<Need>, b: Seq<Need>)
    ensures
        first_unmet(g, a) is Some ==> first_unmet(g, a + b) == first_unmet(g, a),
        first_unmet(g, a) is None ==> first_unmet(g, a + b) == first_unmet(g, b),
    decreases b.len(),
{
    if b.len() == 0 {
        assert(a + b =~= a);
    } else {
        assert((a + b).drop_last() =~= a + b.drop_last());
        lemma_unmet_stays(g, a, b.drop_last());
    }
}

proof fn lemma_layers_unmet(g: Gguf, h: Hyper, k: nat, n: nat)
    requires
        k <= n,
        first_unmet(g, all_needs(h, k)) is Some,
    ensures
        first_unmet(g, all_needs(h, n)) == first_unmet(g, all_needs(h, k)),
    decreases n,
{
    if k < n {
        lemma_layers_unmet(g, h, k, (n - 1) as nat);
        lemma_unmet_stays(g, all_needs(h, (n - 1) as nat), layer_needs(h, n - 1));
    }
}

/// No need is left unmet exactly where each is met.
proof fn lemma_all_met(g: Gguf, needs: Seq<Need>)
    ensures
        first_unmet(g, needs) is None <==> forall|j: int|
            0 <= j < needs.len() ==> need_met(g, #[trigger] needs[j]) is Ok,
    decreases needs.len(),
{
    if needs.len() > 0 {
        lemma_all_met(g, needs.drop_last());
        assert forall|j: int| 0 <= j < needs.len() && first_unmet(g, needs) is None implies need_met(
            g,
            #[trigger] needs[j],
        ) is Ok by {
            if j < needs.len() - 1 {
                assert(needs.drop_last()[j] == needs[j]);
            }
        }
        if forall|j: int| 0 <= j < needs.len() ==> need_met(g, #[trigger] needs[j]) is Ok {
            assert forall|j: int| 0 <= j < needs.drop_last().len() implies need_met(
                g,
                #[trigger] needs.drop_last()[j],
            ) is Ok by {
                assert(needs.drop_last()[j] == needs[j]);
            }
        }
    }
}

/// Checks needs in order. The types are those of the tensors that meet them.
fn check_list(r: &GgufReader, needs: &Vec<TensorNeed>) -> (res: Result<Vec<DType>, LoadError>)
    requires
        r.wf(),
    ensures
        match first_unmet(r@, views(needs@)) {
            Some(e) => res is Err && res->Err_0@ == e,
            None => res is Ok && res->Ok_0@.len() == needs@.len() && forall|j: int|
                0 <= j < needs@.len() ==> need_met(r@, #[trigger] needs@[j]@) == Ok::<
                    DType,
                    Refusal,
                >(res->Ok_0@[j]),
        },
{
    let mut types: Vec<DType> = Vec::new();
    let mut i: usize = 0;
    let ghost all = views(needs@);
    proof {
        assert(all.take(0) =~= Seq::<Need>::empty());
    }
    while i < needs.len()
        invariant
            r.wf(),
            all == views(needs@),
            i <= needs@.len(),
            types@.len() == i,
            first_unmet(r@, all.take(i as int)) is None,
            forall|j: int|
                0 <= j < i ==> need_met(r@, #[trigger] needs@[j]@) == Ok::<DType, Refusal>(
                    types@[j],
                ),
        decreases needs@.len() - i,
    {
        proof {
            assert(all.take(i + 1).drop_last() =~= all.take(i as int));
            assert(all.take(i + 1).last() == needs@[i as int]@);
            assert(all.take(i + 1) + all.skip(i + 1) =~= all);
            lemma_unmet_stays(r@, all.take(i + 1), all.skip(i + 1));
        }
        match check(r, &needs[i]) {
            Ok(d) => {
                types.push(d);
            },
            Err(e) => {
                return Err(e);
            },
        }
        i += 1;
    }
    proof {
        assert(all.take(i as int) =~= all);
    }
    Ok(types)
}

/// Every need of every layer of an accepted model is met.
pub proof fn law_layer_needs_are_met(g: Gguf, m: MinModel, il: int, need: Need)
    requires
        model_of(g) == Ok::<MinModel, Refusal>(m),
        0 <= il < m.cfg.n_layer,
        layer_needs(m.cfg, il).contains(need),
    ensures
        all_needs(m.cfg, m.cfg.n_layer as nat).contains(need),
        need_met(g, need) is Ok,
{
    let n = m.cfg.n_layer as nat;
    lemma_layer_among_all(m.cfg, il as nat, n, need);
    lemma_all_met(g, all_needs(m.cfg, n));
}

proof fn lemma_layer_among_all(h: Hyper, il: nat, n: nat, need: Need)
    requires
        il < n,
        layer_needs(h, il as int).contains(need),
    ensures
        all_needs(h, n).contains(need),
    decreases n,
{
    let front = all_needs(h, (n - 1) as nat);
    let last = layer_needs(h, n - 1);
    if il < n - 1 {
        lemma_layer_among_all(h, il, (n - 1) as nat, need);
        let j = choose|j: int| 0 <= j < front.len() && front[j] == need;
        assert((front + last)[j] == need);
    } else {
        let j = choose|j: int| 0 <= j < last.len() && last[j] == need;
        assert((front + last)[front.len() + j] == need);
    }
}

/// Every tensor that an accepted model needs is there, with the elements that it should have, a
/// type that is allowed for it, and all its bytes.
pub proof fn law_needed_tensors_are_there(map: Seq<u8>, g: Gguf, m: MinModel, need: Need)
    requires
        gguf_of(map, map.len() as int) == Ok::<Gguf, Refusal>(g),
        model_of(g) == Ok::<MinModel, Refusal>(m),
        all_needs(m.cfg, m.cfg.n_layer as nat).contains(need),
    ensures
        found(g.tensors, need.name) matches Some(t) && t.n_elements == need.elems
            && need.allowed.contains(dtype_named(g, need.name)) && tensor_bytes(
            g,
            map,
            need.name,
        ) is Some && bytes_for(t.ggml_type_id, t.n_elements) == Some(
            tensor_bytes(g, map, need.name)->0.len() as int,
        ),
{
    let needs = all_needs(m.cfg, m.cfg.n_layer as nat);
    lemma_all_met(g, needs);
    let j = choose|j: int| 0 <= j < needs.len() && needs[j] == need;
    assert(need_met(g, needs[j]) is Ok);
    let t = found(g.tensors, need.name)->0;
    law_found_by_name(g.tensors, need.name);
    let i = choose|i: int| 0 <= i < g.tensors.len() && g.tensors[i] == t;
    law_sizes_match_shapes(map, map.len() as int, g, i);
    law_tensor_complete(map, g, need.name, t);
}

/// A layer's place among those of its sort is below their number, and no two layers of one sort
/// share a place.
pub proof fn law_slots_are_places(g: Gguf, h: Hyper, a: int, b: int)
    requires
        0 <= a < b < h.n_layer <= usize::MAX,
    ensures
        h.full_attention(b) ==> layer_info(g, h, b).slot < full_layers(h, h.n_layer as nat),
        !h.full_attention(b) ==> layer_info(g, h, b).slot < h.n_layer - full_layers(
            h,
            h.n_layer as nat,
        ),
        h.full_attention(a) == h.full_attention(b) ==> layer_info(g, h, a).slot < layer_info(
            g,
            h,
            b,
        ).slot,
{
    lemma_full_layers_bounded(h, a as nat);
    lemma_full_layers_bounded(h, b as nat);
    lemma_full_layers_grow(h, (a + 1) as nat, b as nat);
    lemma_full_layers_grow(h, (b + 1) as nat, h.n_layer as nat);
}

/// A layer's place is below the number of layers of its sort.
pub proof fn lemma_slot_below(g: Gguf, h: Hyper, il: int)
    requires
        0 <= il < h.n_layer <= usize::MAX,
    ensures
        h.full_attention(il) ==> layer_info(g, h, il).slot < full_layers(h, h.n_layer as nat),
        !h.full_attention(il) ==> layer_info(g, h, il).slot < h.n_layer - full_layers(
            h,
            h.n_layer as nat,
        ),
{
    lemma_full_layers_bounded(h, il as nat);
    lemma_full_layers_grow(h, (il + 1) as nat, h.n_layer as nat);
}

proof fn lemma_full_layers_grow(h: Hyper, a: nat, b: nat)
    requires
        a <= b,
    ensures
        full_layers(h, a) <= full_layers(h, b),
        full_layers(h, b) - full_layers(h, a) <= b - a,
    decreases b,
{
    if a < b {
        lemma_full_layers_grow(h, a, (b - 1) as nat);
    }
}

/// A model, checked tensor by tensor.
pub struct Qwen35Forward<'m> {
    head: MinForward<'m>,
    layers: Vec<LayerInfo>,
}

/// Layers of full attention are some of the layers.
pub proof fn lemma_full_layers_bounded(h: Hyper, n: nat)
    ensures
        full_layers(h, n) <= n,
    decreases n,
{
    if n > 0 {
        lemma_full_layers_bounded(h, (n - 1) as nat);
    }
}

impl<'m> Qwen35Forward<'m> {
    /// The bytes of the file.
    pub closed spec fn bytes(&self) -> Seq<u8> {
        self.head.bytes()
    }

    /// The index of the file.
    pub closed spec fn index(&self) -> Gguf {
        self.head.index()
    }

    /// What the file says of configuration and embedding.
    pub closed spec fn model(&self) -> MinModel {
        self.head@
    }

    /// What is kept of the layers.
    pub closed spec fn layers(&self) -> Seq<LayerInfo> {
        self.layers@
    }

    /// The model is the one that its file describes.
    pub closed spec fn wf(&self) -> bool {
        &&& self.head.wf()
        &&& model_of(self.index()) == Ok::<MinModel, Refusal>(self.model())
        &&& self.layers@.len() == self.model().cfg.n_layer
        &&& forall|il: int|
            0 <= il < self.layers@.len() ==> #[trigger] self.layers@[il] == layer_info(
                self.index(),
                self.model().cfg,
                il,
            )
    }

    /// An open model is one that its file describes and that has passed every check.
    pub proof fn law_open_model_is_checked(&self)
        requires
            self.wf(),
        ensures
            model_of(self.index()) == Ok::<MinModel, Refusal>(self.model()),
            flaw(self.model().cfg) is None,
            self.model().cfg.d_inner > 0,
            self.model().cfg.linear_head() > 0,
            self.model().cfg.value_heads() == 2 * self.model().cfg.group_count,
            self.model().cfg.value_heads() * self.model().cfg.linear_head()
                == self.model().cfg.d_inner,
    {
        law_accepted_config_is_sound(self.index().metadata, self.model().cfg);
        lemma_linear_head(self.model().cfg);
    }

    /// Opens a model: configuration and embedding, then every tensor of every layer.
    pub fn open(weights: MappedWeights<'m>) -> (res: Result<Qwen35Forward<'m>, LoadError>)
        requires
            weights.wf(),
        ensures
            match model_of(weights.index()) {
                Ok(m) => {
                    &&& res is Ok
                    &&& res->Ok_0.wf()
                    &&& res->Ok_0.model() == m
                    &&& res->Ok_0.bytes() == weights.bytes()
                    &&& res->Ok_0.index() == weights.index()
                },
                Err(e) => res is Err && res->Err_0@ == e,
            },
    {
        let head = match MinForward::open(weights) {
            Ok(m) => m,
            Err(e) => {
                return Err(e);
            },
        };
        let r = head.weights().reader();
        let cfg = head.cfg();
        let ghost g = weights.index();
        let ghost h = cfg@;
        proof {
            law_accepted_config_is_sound(g.metadata, h);
        }
        if cfg.d_inner == 0 {
            return Err(LoadError::StructCheck(String::from_str("ssm.inner_size = 0")));
        }
        let mut first: Vec<TensorNeed> = Vec::new();
        first.push(
            TensorNeed {
                name: String::from_str("output_norm.weight"),
                elems: cfg.n_embd as u128,
                allowed: plain_types(),
            },
        );
        proof {
            assert(views(first@) =~= all_needs(h, 0));
        }
        if let Err(e) = check_list(r, &first) {
            proof {
                lemma_layers_unmet(g, h, 0, h.n_layer as nat);
            }
            return Err(e);
        }
        let mut layers: Vec<LayerInfo> = Vec::new();
        let mut n_attn: usize = 0;
        let mut il: usize = 0;
        while il < cfg.n_layer
            invariant
                r.wf(),
                r@ == g,
                g == weights.index(),
                cfg@ == h,
                cfg.small(),
                flaw(h) is None,
                cfg.d_inner > 0,
                il <= cfg.n_layer,
                n_attn == full_layers(h, il as nat),
                n_attn <= il,
                min_model_of(g) is Ok,
                min_model_of(g)->Ok_0.cfg == h,
                first_unmet(g, all_needs(h, il as nat)) is None,
                layers@.len() == il,
                forall|j: int|
                    0 <= j < il ==> #[trigger] layers@[j] == layer_info(g, h, j),
            ensures
                il == cfg.n_layer,
            decreases cfg.n_layer - il,
        {
            let needs = layer_list(cfg, il);
            proof {
                assert(views(needs@) == layer_needs(h, il as int));
                lemma_unmet_stays(g, all_needs(h, il as nat), layer_needs(h, il as int));
                assert(all_needs(h, (il + 1) as nat) == all_needs(h, il as nat) + layer_needs(
                    h,
                    il as int,
                ));
            }
            let types = match check_list(r, &needs) {
                Ok(t) => t,
                Err(e) => {
                    proof {
                        lemma_layers_unmet(g, h, (il + 1) as nat, h.n_layer as nat);
                    }
                    return Err(e);
                },
            };
            let full = cfg.is_full_attn(il);
            proof {
                let l = layer_needs(h, il as int);
                let v = views(needs@);
                assert(v.len() == needs@.len());
                assert(v[4] == needs@[4]@);
                assert(l[4] == common_needs(h, il as int)[4]);
                if full {
                    assert(v[9] == needs@[9]@);
                    assert(l[9] == attention_needs(h, il as int)[4]);
                } else {
                    assert(v[5] == needs@[5]@);
                    assert(l[5] == recurrent_needs(h, il as int)[0]);
                }
            }
            let down = types[4];
            let values = if full {
                types[9]
            } else {
                types[5]
            };
            let slot: usize = if full {
                n_attn
            } else {
                il - n_attn
            };
            layers.push(LayerInfo { full, slot, values, down });
            if full {
                n_attn += 1;
            }
            il += 1;
        }
        Ok(Qwen35Forward { head, layers })
    }

    /// The configuration.
    pub fn cfg(&self) -> (res: &Qwen35Config)
        requires
            self.wf(),
        ensures
            res@ == self.model().cfg,
            res.small(),
    {
        self.head.cfg()
    }

    /// The embedding and the output.
    pub fn head(&self) -> (res: &MinForward<'m>)
        requires
            self.wf(),
        ensures
            res.wf(),
            res@ == self.model(),
            res.bytes() == self.bytes(),
            res.index() == self.index(),
    {
        &self.head
    }

    /// The packed rows of the embedding for tokens.
    pub fn embed(&self, tokens: &[u32]) -> (res: Result<Vec<&'m [u8]>, LoadError>)
        requires
            self.wf(),
        ensures
            match embedding_rows(self.index(), self.bytes(), self.model(), tokens@) {
                Ok(rows) => res is Ok && res->Ok_0@.map_values(|r: &'m [u8]| r@) == rows,
                Err(e) => res is Err && res->Err_0@ == e,
            },
    {
        self.head.embed(tokens)
    }

    /// What is kept of a layer.
    pub fn layer(&self, il: usize) -> (res: LayerInfo)
        requires
            self.wf(),
            il < self.model().cfg.n_layer,
        ensures
            res == layer_info(self.index(), self.model().cfg, il as int),
    {
        self.layers[il]
    }

    /// The bytes of a tensor of a layer.
    pub fn weight(&self, il: usize, name: &str) -> (res: Option<&'m [u8]>)
        requires
            self.wf(),
        ensures
            match tensor_bytes(self.index(), self.bytes(), layer_prefix(il as int) + name@) {
                Some(b) => res is Some && res->0@ == b,
                None => res is None,
            },
    {
        let mut full = prefix(il);
        full.append(name);
        self.head.weights().tensor(full.as_str())
    }

    /// The number of tokens that the embedding has.
    pub fn vocab(&self) -> (res: u64)
        ensures
            res == self.model().vocab,
    {
        self.head.vocab()
    }
}

} // verus!
