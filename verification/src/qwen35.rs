//! The configuration of a qwen3.5 model: three recurrent layers for each layer of full attention.
//!
//! A key that is missing is an error, never a default. All missing keys are reported together;
//! what is there must have its type; and what has its type must describe a possible model.

use vstd::prelude::*;

use crate::error::{LoadError, Refusal};
use crate::gguf::reader::{lookup, GgufReader};
use crate::gguf::value::{Array, GgufArray, GgufValue, Value};
use crate::ieee::F32;
use crate::text::{dec, push_dec, same};

verus! {

/// The name of the architecture, which starts every key.
pub const ARCH: &'static str = "qwen35";

/// The type that a key must have.
#[derive(Debug, Clone, Copy, PartialEq, Eq, Structural)]
pub enum Want {
    U32,
    F32,
    /// An array of four `i32`.
    Sections,
}

/// The keys that must be there, without the architecture's name, and their types.
pub open spec fn required() -> Seq<(Seq<char>, Want)> {
    seq![
        ("block_count"@, Want::U32),
        ("context_length"@, Want::U32),
        ("embedding_length"@, Want::U32),
        ("feed_forward_length"@, Want::U32),
        ("attention.head_count"@, Want::U32),
        ("attention.head_count_kv"@, Want::U32),
        ("attention.key_length"@, Want::U32),
        ("attention.value_length"@, Want::U32),
        ("attention.layer_norm_rms_epsilon"@, Want::F32),
        ("rope.dimension_count"@, Want::U32),
        ("rope.dimension_sections"@, Want::Sections),
        ("rope.freq_base"@, Want::F32),
        ("ssm.conv_kernel"@, Want::U32),
        ("ssm.state_size"@, Want::U32),
        ("ssm.group_count"@, Want::U32),
        ("ssm.time_step_rank"@, Want::U32),
        ("ssm.inner_size"@, Want::U32),
        ("full_attention_interval"@, Want::U32),
    ]
}

/// The keys that must be there, without the architecture's name, and their types.
pub fn required_keys() -> (res: Vec<(&'static str, Want)>)
    ensures
        res@.len() == required().len(),
        forall|i: int|
            0 <= i < res@.len() ==> (#[trigger] res@[i]).0@ == required()[i].0 && res@[i].1
                == required()[i].1,
{
    let mut v: Vec<(&'static str, Want)> = Vec::new();
    v.push(("block_count", Want::U32));
    v.push(("context_length", Want::U32));
    v.push(("embedding_length", Want::U32));
    v.push(("feed_forward_length", Want::U32));
    v.push(("attention.head_count", Want::U32));
    v.push(("attention.head_count_kv", Want::U32));
    v.push(("attention.key_length", Want::U32));
    v.push(("attention.value_length", Want::U32));
    v.push(("attention.layer_norm_rms_epsilon", Want::F32));
    v.push(("rope.dimension_count", Want::U32));
    v.push(("rope.dimension_sections", Want::Sections));
    v.push(("rope.freq_base", Want::F32));
    v.push(("ssm.conv_kernel", Want::U32));
    v.push(("ssm.state_size", Want::U32));
    v.push(("ssm.group_count", Want::U32));
    v.push(("ssm.time_step_rank", Want::U32));
    v.push(("ssm.inner_size", Want::U32));
    v.push(("full_attention_interval", Want::U32));
    v
}

/// A key with the architecture's name before it.
pub open spec fn full_key(suffix: Seq<char>) -> Seq<char> {
    "qwen35."@ + suffix
}

/// The hyperparameters of a model.
#[derive(Debug, Clone, PartialEq)]
pub struct Qwen35Config {
    /// Layers.
    pub n_layer: usize,
    /// The width of the embedding.
    pub n_embd: usize,
    /// The width of the feed-forward part.
    pub n_ff: usize,
    /// Query heads of full attention.
    pub n_head: usize,
    /// Key and value heads of full attention.
    pub n_head_kv: usize,
    /// The width of a query or key head.
    pub head_dim: usize,
    /// The width of a value head.
    pub head_dim_v: usize,
    /// The dimensions of a head that are rotated.
    pub n_rot: usize,
    /// The base of the rotation frequencies.
    pub freq_base: F32,
    /// The constant of the norms.
    pub rms_eps: F32,
    /// The window of the convolution.
    pub conv_kernel: usize,
    /// The side of the recurrent state.
    pub state_size: usize,
    /// Query and key heads of the linear part.
    pub group_count: usize,
    /// The rank of the time-step projection.
    pub time_step_rank: usize,
    /// The inner width of the linear part.
    pub d_inner: usize,
    /// Every how many layers one has full attention.
    pub full_attn_interval: usize,
    /// How the rotated dimensions are shared out.
    pub rope_sections: Vec<i32>,
    /// The greatest context.
    pub context_length: usize,
}

/// What a [`Qwen35Config`] says.
pub struct Hyper {
    pub n_layer: int,
    pub n_embd: int,
    pub n_ff: int,
    pub n_head: int,
    pub n_head_kv: int,
    pub head_dim: int,
    pub head_dim_v: int,
    pub n_rot: int,
    pub freq_base: F32,
    pub rms_eps: F32,
    pub conv_kernel: int,
    pub state_size: int,
    pub group_count: int,
    pub time_step_rank: int,
    pub d_inner: int,
    pub full_attn_interval: int,
    pub rope_sections: Seq<i32>,
    pub context_length: int,
}

impl View for Qwen35Config {
    type V = Hyper;

    open spec fn view(&self) -> Hyper {
        Hyper {
            n_layer: self.n_layer as int,
            n_embd: self.n_embd as int,
            n_ff: self.n_ff as int,
            n_head: self.n_head as int,
            n_head_kv: self.n_head_kv as int,
            head_dim: self.head_dim as int,
            head_dim_v: self.head_dim_v as int,
            n_rot: self.n_rot as int,
            freq_base: self.freq_base,
            rms_eps: self.rms_eps,
            conv_kernel: self.conv_kernel as int,
            state_size: self.state_size as int,
            group_count: self.group_count as int,
            time_step_rank: self.time_step_rank as int,
            d_inner: self.d_inner as int,
            full_attn_interval: self.full_attn_interval as int,
            rope_sections: self.rope_sections@,
            context_length: self.context_length as int,
        }
    }
}

/// The name of a value's type in messages; for an array, with its length.
pub open spec fn type_label(v: Value) -> Seq<char> {
    match v {
        Value::U8(_) => "u8"@,
        Value::I8(_) => "i8"@,
        Value::U16(_) => "u16"@,
        Value::I16(_) => "i16"@,
        Value::U32(_) => "u32"@,
        Value::I32(_) => "i32"@,
        Value::F32(_) => "f32"@,
        Value::F64(_) => "f64"@,
        Value::U64(_) => "u64"@,
        Value::I64(_) => "i64"@,
        Value::Bool(_) => "bool"@,
        Value::Str(_) => "string"@,
        Value::Arr(a) => a.summary(),
    }
}

/// The name of a value's type in messages; for an array, with its length.
pub fn value_type_name(v: &GgufValue) -> (res: String)
    ensures
        res@ == type_label(v@),
{
    match v {
        GgufValue::U8(_) => String::from_str("u8"),
        GgufValue::I8(_) => String::from_str("i8"),
        GgufValue::U16(_) => String::from_str("u16"),
        GgufValue::I16(_) => String::from_str("i16"),
        GgufValue::U32(_) => String::from_str("u32"),
        GgufValue::I32(_) => String::from_str("i32"),
        GgufValue::F32(_) => String::from_str("f32"),
        GgufValue::F64(_) => String::from_str("f64"),
        GgufValue::U64(_) => String::from_str("u64"),
        GgufValue::I64(_) => String::from_str("i64"),
        GgufValue::Bool(_) => String::from_str("bool"),
        GgufValue::Str(_) => String::from_str("string"),
        GgufValue::Arr(a) => a.describe(),
    }
}

/// Whether a value has the type that its key must have.
pub open spec fn has_type(v: Value, want: Want) -> bool {
    match want {
        Want::U32 => v is U32,
        Want::F32 => v is F32,
        Want::Sections => v matches Value::Arr(Array::I32(s)) && s.len() == 4,
    }
}

/// Those of the first `n` required keys that metadata lacks, without the architecture's name.
pub open spec fn missing(md: Seq<(Seq<char>, Value)>, n: nat) -> Seq<Seq<char>>
    decreases n,
{
    if n == 0 {
        Seq::empty()
    } else {
        let suffix = required()[n - 1].0;
        if lookup(md, full_key(suffix)) is None {
            missing(md, (n - 1) as nat).push(suffix)
        } else {
            missing(md, (n - 1) as nat)
        }
    }
}

/// Full keys, with commas between them.
pub open spec fn listed(suffixes: Seq<Seq<char>>) -> Seq<char>
    decreases suffixes.len(),
{
    if suffixes.len() == 0 {
        Seq::empty()
    } else if suffixes.len() == 1 {
        full_key(suffixes[0])
    } else {
        listed(suffixes.drop_last()) + ", "@ + full_key(suffixes.last())
    }
}

/// The first of the first `n` required keys whose value has another type, and that type's name.
pub open spec fn mistyped(md: Seq<(Seq<char>, Value)>, n: nat) -> Option<(Seq<char>, Seq<char>)>
    decreases n,
{
    if n == 0 {
        None
    } else {
        match mistyped(md, (n - 1) as nat) {
            Some(x) => Some(x),
            None => {
                let (suffix, want) = required()[n - 1];
                match lookup(md, full_key(suffix)) {
                    None => None,
                    Some(v) => if has_type(v, want) {
                        None
                    } else {
                        Some((full_key(suffix), type_label(v)))
                    },
                }
            },
        }
    }
}

/// The number under a key that holds one.
pub open spec fn number_at(md: Seq<(Seq<char>, Value)>, suffix: Seq<char>) -> int {
    match lookup(md, full_key(suffix)) {
        Some(Value::U32(v)) => v as int,
        _ => 0,
    }
}

/// The float under a key that holds one.
pub open spec fn float_at(md: Seq<(Seq<char>, Value)>, suffix: Seq<char>) -> F32 {
    match lookup(md, full_key(suffix)) {
        Some(Value::F32(v)) => v,
        _ => F32 { bits: 0 },
    }
}

/// The array under a key that holds one.
pub open spec fn sections_at(md: Seq<(Seq<char>, Value)>, suffix: Seq<char>) -> Seq<i32> {
    match lookup(md, full_key(suffix)) {
        Some(Value::Arr(Array::I32(s))) => s,
        _ => Seq::empty(),
    }
}

/// The hyperparameters that metadata gives, once every key is there with its type.
pub open spec fn extracted(md: Seq<(Seq<char>, Value)>) -> Hyper {
    Hyper {
        n_layer: number_at(md, "block_count"@),
        n_embd: number_at(md, "embedding_length"@),
        n_ff: number_at(md, "feed_forward_length"@),
        n_head: number_at(md, "attention.head_count"@),
        n_head_kv: number_at(md, "attention.head_count_kv"@),
        head_dim: number_at(md, "attention.key_length"@),
        head_dim_v: number_at(md, "attention.value_length"@),
        n_rot: number_at(md, "rope.dimension_count"@),
        freq_base: float_at(md, "rope.freq_base"@),
        rms_eps: float_at(md, "attention.layer_norm_rms_epsilon"@),
        conv_kernel: number_at(md, "ssm.conv_kernel"@),
        state_size: number_at(md, "ssm.state_size"@),
        group_count: number_at(md, "ssm.group_count"@),
        time_step_rank: number_at(md, "ssm.time_step_rank"@),
        d_inner: number_at(md, "ssm.inner_size"@),
        full_attn_interval: number_at(md, "full_attention_interval"@),
        rope_sections: sections_at(md, "rope.dimension_sections"@),
        context_length: number_at(md, "context_length"@),
    }
}

impl Hyper {
    /// The width of a head of the linear part.
    pub open spec fn linear_head(self) -> int {
        self.d_inner / (2 * self.group_count)
    }

    /// The value heads of the linear part.
    pub open spec fn value_heads(self) -> int {
        self.d_inner / self.linear_head()
    }

    /// Whether layer `i` has full attention.
    pub open spec fn full_attention(self, i: int) -> bool {
        (i + 1) % self.full_attn_interval == 0
    }
}

/// What is structurally wrong with hyperparameters, if anything: the first of a fixed list of
/// conditions that does not hold.
pub open spec fn flaw(h: Hyper) -> Option<Seq<char>> {
    if h.n_layer < 1 {
        Some("block_count = 0"@)
    } else if !(h.n_embd > 0 && h.n_ff > 0) {
        Some("dims de embedding/FFN nulos"@)
    } else if h.n_head < 1 {
        Some("attention.head_count = 0"@)
    } else if !(h.n_head_kv >= 1 && h.n_head % h.n_head_kv == 0) {
        Some("GQA inválida: n_head="@ + dec(h.n_head as nat) + " n_head_kv="@ + dec(h.n_head_kv as nat))
    } else if h.n_head * h.head_dim != h.n_embd {
        Some("wq tiene "@ + dec((h.n_head * h.head_dim) as nat) + " columnas Q, n_embd="@ + dec(h.n_embd as nat) + " (head_count × key_length debe ser exacto)"@)
    } else if h.head_dim != h.head_dim_v {
        Some("attention.key_length="@ + dec(h.head_dim as nat) + " != attention.value_length="@ + dec(h.head_dim_v as nat) + " (este adapter asume heads k/v iguales)"@)
    } else if !(h.n_rot % 2 == 0 && h.n_rot <= h.head_dim) {
        Some("n_rot="@ + dec(h.n_rot as nat) + " inválido (par y ≤ head_dim="@ + dec(h.head_dim as nat) + ")"@)
    } else if !h.freq_base.above_zero() {
        Some("rope.freq_base <= 0"@)
    } else if !h.rms_eps.above_zero() {
        Some("layer_norm_rms_epsilon <= 0"@)
    } else if h.conv_kernel < 2 {
        Some("ssm.conv_kernel < 2"@)
    } else if h.group_count < 1 {
        Some("ssm.group_count = 0"@)
    } else if h.d_inner % (2 * h.group_count) != 0 {
        Some("d_inner="@ + dec(h.d_inner as nat) + " no es múltiplo de 2×group_count="@ + dec(h.group_count as nat))
    } else if h.time_step_rank < 1 {
        Some("ssm.time_step_rank = 0"@)
    } else if h.state_size != h.linear_head() {
        Some("state_size="@ + dec(h.state_size as nat) + " != head dim lineal "@ + dec(h.linear_head() as nat) + " (este adapter asume estado cuadrado por head)"@)
    } else if h.full_attn_interval < 1 {
        Some("full_attention_interval = 0"@)
    } else if h.rope_sections.len() != 4 {
        Some("rope.dimension_sections tiene "@ + dec(h.rope_sections.len()) + " secciones, IMROPE exige 4 (t,h,w,e)"@)
    } else if h.context_length < 1 {
        Some("context_length = 0"@)
    } else {
        None
    }
}

/// The hyperparameters that metadata describes, or the first refusal that is due: another
/// architecture, missing keys (all of them), a key of another type, or a structural flaw.
pub open spec fn config_of(md: Seq<(Seq<char>, Value)>) -> Result<Hyper, Refusal> {
    match lookup(md, "general.architecture"@) {
        Some(Value::Str(arch)) => if arch != ARCH@ {
            Err(
                Refusal::BadFile(
                    "architecture '"@ + arch + "': este adapter solo acepta 'qwen35'"@,
                ),
            )
        } else {
            let absent = missing(md, required().len());
            if absent.len() > 0 {
                Err(Refusal::MissingConfig { n: absent.len() as int, fields: listed(absent) })
            } else {
                match mistyped(md, required().len()) {
                    Some((key, got)) => Err(
                        Refusal::BadFile(
                            "clave '"@ + key + "': esperaba u32/i32[4]/f32, hay "@ + got,
                        ),
                    ),
                    None => match flaw(extracted(md)) {
                        Some(m) => Err(Refusal::StructCheck(m)),
                        None => Ok(extracted(md)),
                    },
                }
            }
        },
        _ => Err(Refusal::MissingConfig { n: 1, fields: "general.architecture"@ }),
    }
}

fn full_name(suffix: &str) -> (res: String)
    ensures
        res@ == full_key(suffix@),
{
    let mut s = String::from_str("qwen35.");
    s.append(suffix);
    s
}

/// The required keys that a file lacks: how many, and their list.
fn find_missing(r: &GgufReader, keys: &Vec<(&'static str, Want)>) -> (res: (usize, String))
    requires
        keys@.len() == required().len(),
        forall|i: int|
            0 <= i < keys@.len() ==> (#[trigger] keys@[i]).0@ == required()[i].0 && keys@[i].1
                == required()[i].1,
    ensures
        res.0 == missing(r@.metadata, required().len()).len(),
        res.1@ == listed(missing(r@.metadata, required().len())),
{
    let ghost md = r@.metadata;
    let mut n: usize = 0;
    let mut fields = String::new();
    let mut i: usize = 0;
    while i < keys.len()
        invariant
            md == r@.metadata,
            keys@.len() == required().len(),
            forall|i: int|
                0 <= i < keys@.len() ==> (#[trigger] keys@[i]).0@ == required()[i].0 && keys@[i].1
                    == required()[i].1,
            i <= keys@.len(),
            n <= i,
            n == missing(md, i as nat).len(),
            fields@ == listed(missing(md, i as nat)),
        decreases keys@.len() - i,
    {
        let suffix = keys[i].0;
        let name = full_name(suffix);
        proof {
            assert(keys@[i as int].0@ == required()[i as int].0);
        }
        if r.get(name.as_str()).is_none() {
            let ghost before = missing(md, i as nat);
            proof {
                assert(missing(md, (i + 1) as nat) == before.push(suffix@));
                assert(before.push(suffix@).drop_last() =~= before);
            }
            if n > 0 {
                fields.append(", ");
            }
            fields.append(name.as_str());
            proof {
                if n == 0 {
                    assert(Seq::<char>::empty() + full_key(suffix@) =~= full_key(suffix@));
                }
            }
            n += 1;
        }
        i += 1;
    }
    (n, fields)
}

fn fits(v: &GgufValue, want: Want) -> (res: bool)
    ensures
        res == has_type(v@, want),
{
    match want {
        Want::U32 => match v {
            GgufValue::U32(_) => true,
            _ => false,
        },
        Want::F32 => match v {
            GgufValue::F32(_) => true,
            _ => false,
        },
        Want::Sections => match v {
            GgufValue::Arr(GgufArray::I32(s)) => s.len() == 4,
            _ => false,
        },
    }
}

/// The first required key of another type, if there is one.
fn find_mistyped(r: &GgufReader, keys: &Vec<(&'static str, Want)>) -> (res: Option<
    (String, String),
>)
    requires
        keys@.len() == required().len(),
        forall|i: int|
            0 <= i < keys@.len() ==> (#[trigger] keys@[i]).0@ == required()[i].0 && keys@[i].1
                == required()[i].1,
    ensures
        match mistyped(r@.metadata, required().len()) {
            Some((k, g)) => res matches Some((key, got)) && key@ == k && got@ == g,
            None => res is None,
        },
{
    let ghost md = r@.metadata;
    let mut i: usize = 0;
    while i < keys.len()
        invariant
            md == r@.metadata,
            keys@.len() == required().len(),
            forall|i: int|
                0 <= i < keys@.len() ==> (#[trigger] keys@[i]).0@ == required()[i].0 && keys@[i].1
                    == required()[i].1,
            i <= keys@.len(),
            mistyped(md, i as nat) is None,
        decreases keys@.len() - i,
    {
        let (suffix, want) = keys[i];
        let name = full_name(suffix);
        proof {
            assert(keys@[i as int].0@ == required()[i as int].0);
        }
        if let Some(v) = r.get(name.as_str()) {
            if !fits(v, want) {
                proof {
                    lemma_mistyped_stays(md, (i + 1) as nat, required().len());
                }
                return Some((name, value_type_name(v)));
            }
        }
        i += 1;
    }
    None
}

proof fn lemma_mistyped_stays(md: Seq<(Seq<char>, Value)>, m: nat, n: nat)
    requires
        m <= n,
        mistyped(md, m) is Some,
    ensures
        mistyped(md, n) == mistyped(md, m),
    decreases n,
{
    if m < n {
        lemma_mistyped_stays(md, m, (n - 1) as nat);
    }
}

fn number(r: &GgufReader, suffix: &str) -> (res: u32)
    ensures
        res == number_at(r@.metadata, suffix@),
{
    match r.get(full_name(suffix).as_str()) {
        Some(GgufValue::U32(v)) => *v,
        _ => 0,
    }
}

fn float(r: &GgufReader, suffix: &str) -> (res: F32)
    ensures
        res == float_at(r@.metadata, suffix@),
{
    match r.get(full_name(suffix).as_str()) {
        Some(GgufValue::F32(v)) => *v,
        _ => F32 { bits: 0 },
    }
}

fn sections(r: &GgufReader, suffix: &str) -> (res: Vec<i32>)
    ensures
        res@ == sections_at(r@.metadata, suffix@),
{
    match r.get(full_name(suffix).as_str()) {
        Some(GgufValue::Arr(GgufArray::I32(v))) => vstd::slice::slice_to_vec(v.as_slice()),
        _ => Vec::new(),
    }
}

fn struct_check(m: &str) -> (res: LoadError)
    ensures
        res@ == Refusal::StructCheck(m@),
{
    LoadError::StructCheck(String::from_str(m))
}

/// `a`, the numeral of `x`, `b`, the numeral of `y`, `c`.
fn struct_check_2(a: &str, x: u64, b: &str, y: u64, c: &str) -> (res: LoadError)
    ensures
        res@ == Refusal::StructCheck(a@ + dec(x as nat) + b@ + dec(y as nat) + c@),
{
    let mut m = String::from_str(a);
    push_dec(&mut m, x);
    m.append(b);
    push_dec(&mut m, y);
    m.append(c);
    LoadError::StructCheck(m)
}

impl Qwen35Config {
    /// Every count is one that a file can give.
    pub open spec fn small(&self) -> bool {
        &&& self.n_layer <= u32::MAX
        &&& self.n_embd <= u32::MAX
        &&& self.n_ff <= u32::MAX
        &&& self.n_head <= u32::MAX
        &&& self.n_head_kv <= u32::MAX
        &&& self.head_dim <= u32::MAX
        &&& self.head_dim_v <= u32::MAX
        &&& self.n_rot <= u32::MAX
        &&& self.conv_kernel <= u32::MAX
        &&& self.state_size <= u32::MAX
        &&& self.group_count <= u32::MAX
        &&& self.time_step_rank <= u32::MAX
        &&& self.d_inner <= u32::MAX
        &&& self.full_attn_interval <= u32::MAX
        &&& self.context_length <= u32::MAX
    }

    /// Reads the configuration of a file from its metadata.
    pub fn from_gguf(r: &GgufReader) -> (res: Result<Qwen35Config, LoadError>)
        ensures
            match config_of(r@.metadata) {
                Ok(h) => res is Ok && res->Ok_0@ == h && res->Ok_0.small(),
                Err(e) => res is Err && res->Err_0@ == e,
            },
    {
        match r.get_str("general.architecture") {
            Some(arch) => {
                if !same(arch, ARCH) {
                    let mut m = String::from_str("architecture '");
                    m.append(arch);
                    m.append("': este adapter solo acepta 'qwen35'");
                    return Err(LoadError::corrupt(m));
                }
            },
            None => {
                return Err(
                    LoadError::MissingConfig {
                        n: 1,
                        fields: String::from_str("general.architecture"),
                    },
                );
            },
        }
        let keys = required_keys();
        let (n, fields) = find_missing(r, &keys);
        if n > 0 {
            return Err(LoadError::MissingConfig { n, fields });
        }
        if let Some((key, got)) = find_mistyped(r, &keys) {
            let mut m = String::from_str("clave '");
            m.append(key.as_str());
            m.append("': esperaba u32/i32[4]/f32, hay ");
            m.append(got.as_str());
            return Err(LoadError::corrupt(m));
        }
        let cfg = Qwen35Config {
            n_layer: number(r, "block_count") as usize,
            n_embd: number(r, "embedding_length") as usize,
            n_ff: number(r, "feed_forward_length") as usize,
            n_head: number(r, "attention.head_count") as usize,
            n_head_kv: number(r, "attention.head_count_kv") as usize,
            head_dim: number(r, "attention.key_length") as usize,
            head_dim_v: number(r, "attention.value_length") as usize,
            n_rot: number(r, "rope.dimension_count") as usize,
            freq_base: float(r, "rope.freq_base"),
            rms_eps: float(r, "attention.layer_norm_rms_epsilon"),
            conv_kernel: number(r, "ssm.conv_kernel") as usize,
            state_size: number(r, "ssm.state_size") as usize,
            group_count: number(r, "ssm.group_count") as usize,
            time_step_rank: number(r, "ssm.time_step_rank") as usize,
            d_inner: number(r, "ssm.inner_size") as usize,
            full_attn_interval: number(r, "full_attention_interval") as usize,
            rope_sections: sections(r, "rope.dimension_sections"),
            context_length: number(r, "context_length") as usize,
        };
        match cfg.check() {
            Ok(()) => Ok(cfg),
            Err(e) => Err(e),
        }
    }

    /// Holds the configuration to the structural conditions.
    pub fn check(&self) -> (res: Result<(), LoadError>)
        requires
            self.small(),
        ensures
            match flaw(self@) {
                Some(m) => res is Err && res->Err_0@ == Refusal::StructCheck(m),
                None => res is Ok,
            },
    {
        if self.n_layer < 1 {
            return Err(struct_check("block_count = 0"));
        }
        if !(self.n_embd > 0 && self.n_ff > 0) {
            return Err(struct_check("dims de embedding/FFN nulos"));
        }
        if self.n_head < 1 {
            return Err(struct_check("attention.head_count = 0"));
        }
        if !(self.n_head_kv >= 1 && self.n_head % self.n_head_kv == 0) {
            let mut m = String::from_str("GQA inválida: n_head=");
            push_dec(&mut m, self.n_head as u64);
            m.append(" n_head_kv=");
            push_dec(&mut m, self.n_head_kv as u64);
            return Err(LoadError::StructCheck(m));
        }
        proof {
            assert(self.n_head * self.head_dim <= 0xFFFF_FFFF * 0xFFFF_FFFF) by (nonlinear_arith)
                requires
                    0 <= self.n_head <= 0xFFFF_FFFF,
                    0 <= self.head_dim <= 0xFFFF_FFFF,
            ;
        }
        let columns: u64 = self.n_head as u64 * self.head_dim as u64;
        if columns != self.n_embd as u64 {
            return Err(
                struct_check_2(
                    "wq tiene ",
                    columns,
                    " columnas Q, n_embd=",
                    self.n_embd as u64,
                    " (head_count × key_length debe ser exacto)",
                ),
            );
        }
        if self.head_dim != self.head_dim_v {
            return Err(
                struct_check_2(
                    "attention.key_length=",
                    self.head_dim as u64,
                    " != attention.value_length=",
                    self.head_dim_v as u64,
                    " (este adapter asume heads k/v iguales)",
                ),
            );
        }
        if !(self.n_rot % 2 == 0 && self.n_rot <= self.head_dim) {
            return Err(
                struct_check_2(
                    "n_rot=",
                    self.n_rot as u64,
                    " inválido (par y ≤ head_dim=",
                    self.head_dim as u64,
                    ")",
                ),
            );
        }
        if !self.freq_base.is_positive() {
            return Err(struct_check("rope.freq_base <= 0"));
        }
        if !self.rms_eps.is_positive() {
            return Err(struct_check("layer_norm_rms_epsilon <= 0"));
        }
        if self.conv_kernel < 2 {
            return Err(struct_check("ssm.conv_kernel < 2"));
        }
        if self.group_count < 1 {
            return Err(struct_check("ssm.group_count = 0"));
        }
        let pairs: u64 = 2 * self.group_count as u64;
        if self.d_inner as u64 % pairs != 0 {
            let mut m = String::from_str("d_inner=");
            push_dec(&mut m, self.d_inner as u64);
            m.append(" no es múltiplo de 2×group_count=");
            push_dec(&mut m, self.group_count as u64);
            return Err(LoadError::StructCheck(m));
        }
        if self.time_step_rank < 1 {
            return Err(struct_check("ssm.time_step_rank = 0"));
        }
        let head: u64 = self.d_inner as u64 / pairs;
        if self.state_size as u64 != head {
            return Err(
                struct_check_2(
                    "state_size=",
                    self.state_size as u64,
                    " != head dim lineal ",
                    head,
                    " (este adapter asume estado cuadrado por head)",
                ),
            );
        }
        if self.full_attn_interval < 1 {
            return Err(struct_check("full_attention_interval = 0"));
        }
        if self.rope_sections.len() != 4 {
            let mut m = String::from_str("rope.dimension_sections tiene ");
            push_dec(&mut m, self.rope_sections.len() as u64);
            m.append(" secciones, IMROPE exige 4 (t,h,w,e)");
            return Err(LoadError::StructCheck(m));
        }
        if self.context_length < 1 {
            return Err(struct_check("context_length = 0"));
        }
        Ok(())
    }

    /// The query and key heads of the linear part.
    pub fn n_qk_heads(&self) -> (res: usize)
        ensures
            res == self@.group_count,
    {
        self.group_count
    }

    /// The width of a head of the linear part.
    pub fn head_dim_linear(&self) -> (res: usize)
        requires
            1 <= self.group_count,
            2 * self.group_count <= usize::MAX,
        ensures
            res == self@.linear_head(),
    {
        self.d_inner / (2 * self.group_count)
    }

    /// The value heads of the linear part.
    pub fn n_v_heads(&self) -> (res: usize)
        requires
            1 <= self.group_count,
            2 * self.group_count <= usize::MAX,
            self@.linear_head() > 0,
        ensures
            res == self@.value_heads(),
    {
        self.d_inner / self.head_dim_linear()
    }

    /// The width of the convolution: queries, keys and values side by side.
    pub fn d_conv(&self) -> (res: usize)
        requires
            2 * self.d_inner <= usize::MAX,
        ensures
            res == 2 * self@.d_inner,
    {
        2 * self.d_inner
    }

    /// Whether a layer has full attention.
    pub fn is_full_attn(&self, layer: usize) -> (res: bool)
        requires
            layer < usize::MAX,
            self.full_attn_interval > 0,
        ensures
            res == self@.full_attention(layer as int),
    {
        (layer + 1) % self.full_attn_interval == 0
    }
}

/// A configuration that is accepted passes every structural condition; its query heads fill the
/// embedding exactly; and its convolution is as wide as its query, key and value heads together,
/// where the inner width is not zero.
pub proof fn law_accepted_config_is_sound(md: Seq<(Seq<char>, Value)>, h: Hyper)
    requires
        config_of(md) == Ok::<Hyper, Refusal>(h),
    ensures
        flaw(h) is None,
        h.n_layer >= 1,
        h.n_head * h.head_dim == h.n_embd,
        1 <= h.n_head_kv <= h.n_head,
        h.state_size == h.linear_head(),
        h.d_inner > 0 ==> h.value_heads() == 2 * h.group_count && 2 * h.d_inner == h.linear_head() * (
        2 * h.group_count + h.value_heads()),
{
    assert(1 <= h.n_head_kv <= h.n_head) by {
        if h.n_head_kv > h.n_head {
            vstd::arithmetic::div_mod::lemma_small_mod(h.n_head as nat, h.n_head_kv as nat);
        }
    }
    if h.d_inner > 0 {
        let g = 2 * h.group_count;
        let w = h.linear_head();
        vstd::arithmetic::div_mod::lemma_fundamental_div_mod(h.d_inner, g);
        assert(h.d_inner == g * w);
        assert(w > 0) by (nonlinear_arith)
            requires
                h.d_inner == g * w,
                h.d_inner > 0,
                g > 0,
        ;
        vstd::arithmetic::div_mod::lemma_div_multiples_vanish(g, w);
        assert(g * w == w * g) by (nonlinear_arith);
        assert(h.value_heads() == g);
        assert(w * (g + g) == 2 * (g * w)) by (nonlinear_arith);
    }
}

/// The layers of full attention among the first `n`.
pub open spec fn full_layers(h: Hyper, n: nat) -> nat
    decreases n,
{
    if n == 0 {
        0
    } else {
        full_layers(h, (n - 1) as nat) + if h.full_attention(n - 1) {
            1nat
        } else {
            0nat
        }
    }
}

/// One layer in every interval has full attention: as many as whole intervals fit.
pub proof fn law_full_attention_pattern(h: Hyper, n: nat)
    requires
        h.full_attn_interval >= 1,
    ensures
        full_layers(h, n) == n / (h.full_attn_interval as nat),
    decreases n,
{
    let k = h.full_attn_interval;
    if n == 0 {
        vstd::arithmetic::div_mod::lemma_div_of0(k);
    } else {
        law_full_attention_pattern(h, (n - 1) as nat);
        lemma_div_step(n as int, k);
    }
}

proof fn lemma_div_step(n: int, k: int)
    requires
        n >= 1,
        k >= 1,
    ensures
        n / k == (n - 1) / k + (if n % k == 0 {
            1int
        } else {
            0int
        }),
{
    vstd::arithmetic::div_mod::lemma_fundamental_div_mod(n, k);
    vstd::arithmetic::div_mod::lemma_fundamental_div_mod(n - 1, k);
    vstd::arithmetic::div_mod::lemma_mod_bound(n, k);
    vstd::arithmetic::div_mod::lemma_mod_bound(n - 1, k);
    let q = n / k;
    let p = (n - 1) / k;
    let a = n % k;
    let b = (n - 1) % k;
    assert(k * q + a == k * p + b + 1);
    if a == 0 {
        assert(q == p + 1) by (nonlinear_arith)
            requires
                k * q == k * p + b + 1,
                0 <= b < k,
                k >= 1,
        ;
    } else {
        assert(q == p) by (nonlinear_arith)
            requires
                k * q + a == k * p + b + 1,
                0 <= b < k,
                1 <= a < k,
                k >= 1,
        ;
    }
}

proof fn lemma_keys_there(md: Seq<(Seq<char>, Value)>, n: nat, i: int)
    requires
        missing(md, n).len() == 0,
        mistyped(md, n) is None,
        0 <= i < n <= required().len(),
    ensures
        lookup(md, full_key(required()[i].0)) matches Some(v) && has_type(v, required()[i].1),
    decreases n,
{
    if i < n - 1 {
        lemma_keys_there(md, (n - 1) as nat, i);
    }
}

/// What the file says under a key of the model: a number.
pub open spec fn says(md: Seq<(Seq<char>, Value)>, suffix: Seq<char>, n: int) -> bool {
    lookup(md, "qwen35."@ + suffix) matches Some(Value::U32(v)) && v == n
}

/// An accepted configuration holds what the file says, each number under its own key.
pub proof fn law_config_holds_the_file(md: Seq<(Seq<char>, Value)>, h: Hyper)
    requires
        config_of(md) == Ok::<Hyper, Refusal>(h),
    ensures
        says(md, "block_count"@, h.n_layer),
        says(md, "context_length"@, h.context_length),
        says(md, "embedding_length"@, h.n_embd),
        says(md, "feed_forward_length"@, h.n_ff),
        says(md, "attention.head_count"@, h.n_head),
        says(md, "attention.head_count_kv"@, h.n_head_kv),
        says(md, "attention.key_length"@, h.head_dim),
        says(md, "attention.value_length"@, h.head_dim_v),
        says(md, "rope.dimension_count"@, h.n_rot),
        says(md, "ssm.conv_kernel"@, h.conv_kernel),
        says(md, "ssm.state_size"@, h.state_size),
        says(md, "ssm.group_count"@, h.group_count),
        says(md, "ssm.time_step_rank"@, h.time_step_rank),
        says(md, "ssm.inner_size"@, h.d_inner),
        says(md, "full_attention_interval"@, h.full_attn_interval),
        lookup(md, "qwen35."@ + "attention.layer_norm_rms_epsilon"@) == Some(
            Value::F32(h.rms_eps),
        ),
        lookup(md, "qwen35."@ + "rope.freq_base"@) == Some(Value::F32(h.freq_base)),
        lookup(md, "qwen35."@ + "rope.dimension_sections"@) == Some(
            Value::Arr(Array::I32(h.rope_sections)),
        ),
        lookup(md, "general.architecture"@) == Some(Value::Str("qwen35"@)),
{
    let n = required().len();
    lemma_keys_there(md, n, 0);
    assert(required()[0].0 == "block_count"@);
    lemma_keys_there(md, n, 1);
    assert(required()[1].0 == "context_length"@);
    lemma_keys_there(md, n, 2);
    assert(required()[2].0 == "embedding_length"@);
    lemma_keys_there(md, n, 3);
    assert(required()[3].0 == "feed_forward_length"@);
    lemma_keys_there(md, n, 4);
    assert(required()[4].0 == "attention.head_count"@);
    lemma_keys_there(md, n, 5);
    assert(required()[5].0 == "attention.head_count_kv"@);
    lemma_keys_there(md, n, 6);
    assert(required()[6].0 == "attention.key_length"@);
    lemma_keys_there(md, n, 7);
    assert(required()[7].0 == "attention.value_length"@);
    lemma_keys_there(md, n, 8);
    assert(required()[8].0 == "attention.layer_norm_rms_epsilon"@);
    lemma_keys_there(md, n, 9);
    assert(required()[9].0 == "rope.dimension_count"@);
    lemma_keys_there(md, n, 10);
    assert(required()[10].0 == "rope.dimension_sections"@);
    lemma_keys_there(md, n, 11);
    assert(required()[11].0 == "rope.freq_base"@);
    lemma_keys_there(md, n, 12);
    assert(required()[12].0 == "ssm.conv_kernel"@);
    lemma_keys_there(md, n, 13);
    assert(required()[13].0 == "ssm.state_size"@);
    lemma_keys_there(md, n, 14);
    assert(required()[14].0 == "ssm.group_count"@);
    lemma_keys_there(md, n, 15);
    assert(required()[15].0 == "ssm.time_step_rank"@);
    lemma_keys_there(md, n, 16);
    assert(required()[16].0 == "ssm.inner_size"@);
    lemma_keys_there(md, n, 17);
    assert(required()[17].0 == "full_attention_interval"@);
}

/// Hyperparameters have no flaw exactly where all of these hold: there are layers, and rows of an
/// embedding and of a feed-forward part; query heads are a multiple of the heads of keys and
/// values and fill the embedding; all heads are equally wide, and no more of a head is rotated
/// than there is, in pairs; base and epsilon are above zero; the window of the convolution has a
/// past; the linear part has whole heads for twice its groups, with a square state; and the
/// intervals, sections and context make sense.
pub proof fn law_flaws_are_these(h: Hyper)
    requires
        h.n_layer >= 0,
        h.rope_sections.len() >= 0,
    ensures
        flaw(h) is None <==> {
            &&& h.n_layer >= 1
            &&& h.n_embd > 0
            &&& h.n_ff > 0
            &&& h.n_head >= 1
            &&& h.n_head_kv >= 1
            &&& h.n_head % h.n_head_kv == 0
            &&& h.n_head * h.head_dim == h.n_embd
            &&& h.head_dim_v == h.head_dim
            &&& h.n_rot % 2 == 0
            &&& h.n_rot <= h.head_dim
            &&& h.freq_base.above_zero()
            &&& h.rms_eps.above_zero()
            &&& h.conv_kernel >= 2
            &&& h.group_count >= 1
            &&& h.d_inner % (2 * h.group_count) == 0
            &&& h.time_step_rank >= 1
            &&& h.state_size == h.d_inner / (2 * h.group_count)
            &&& h.full_attn_interval >= 1
            &&& h.rope_sections.len() == 4
            &&& h.context_length >= 1
        },
{
}

/// Of every `interval` layers the last has full attention, and only that.
pub proof fn law_last_of_each_interval_has_full_attention(h: Hyper, round: int, i: int)
    requires
        h.full_attn_interval >= 1,
        0 <= round,
        0 <= i < h.full_attn_interval,
    ensures
        h.full_attention(round * h.full_attn_interval + i) <==> i == h.full_attn_interval - 1,
{
    let k = h.full_attn_interval;
    if i == k - 1 {
        assert(round * k + i + 1 == (round + 1) * k) by (nonlinear_arith)
            requires
                i == k - 1,
        ;
        vstd::arithmetic::div_mod::lemma_mod_multiples_basic(round + 1, k);
    } else {
        vstd::arithmetic::div_mod::lemma_fundamental_div_mod_converse(
            round * k + i + 1,
            k,
            round,
            i + 1,
        );
    }
}

} // verus!
