//! The memory that a run will hold, counted before any of it is taken.
//!
//! Weights are views of the mapped file and take none of it. What is counted is what the run
//! keeps on purpose: keys and values, recurrent state, scratch, tokenizer and index.

use vstd::prelude::*;

use crate::budget::{capped, parse_size, size_of, MemoryAccounting};
use crate::error::{LoadError, Refusal};
use crate::gguf::metadata::views;
use crate::gguf::reader::{Gguf, GgufReader};
use crate::gguf::tensor_info::Tensor;
use crate::gguf::value::{debug_text, quoted, texts, Value};
use crate::layers::{lemma_full_layers_bounded, Qwen35Forward};
use crate::qwen35::{flaw, full_layers, Hyper, Qwen35Config};
use crate::session::{count_full, Memory};
use crate::text::utf8_len;
use crate::tokenizer::gpt2::{heap_of, Gpt2Tokenizer};

verus! {

// ---- The index ------------------------------------------------------------------------------

/// The bytes that keys and described values take. Floats are described with the given numerals.
pub open spec fn metadata_cost(md: Seq<(Seq<char>, Value)>, numerals: Seq<Seq<char>>) -> int
    decreases md.len(),
{
    if md.len() == 0 {
        0
    } else {
        let (k, v) = md.last();
        metadata_cost(md.drop_last(), numerals) + utf8_len(k) + utf8_len(
            v.summary(numerals[md.len() - 1]),
        )
    }
}

/// The bytes that a table of tensors takes: its names, and a fixed amount for each entry.
pub open spec fn table_cost(tensors: Seq<Tensor>) -> int
    decreases tensors.len(),
{
    if tensors.len() == 0 {
        0
    } else {
        table_cost(tensors.drop_last()) + utf8_len(tensors.last().name) + 96
    }
}

/// The bytes that the index of a file takes.
pub open spec fn index_cost(g: Gguf, numerals: Seq<Seq<char>>) -> int {
    metadata_cost(g.metadata, numerals) + table_cost(g.tensors)
}

/// A careful estimate of the heap that the index of a file takes. The tensors' data stay in the
/// file. `numerals` holds the text of every float among the values, at its key's place.
pub fn gguf_index_bytes(r: &GgufReader, numerals: &Vec<String>) -> (res: u64)
    requires
        numerals@.len() == r@.metadata.len(),
    ensures
        res == capped(index_cost(r@, texts(numerals@))),
{
    let ghost md = r@.metadata;
    let ghost ts = r@.tensors;
    let ghost ns = texts(numerals@);
    let entries = r.metadata();
    let mut b: u64 = 0;
    let mut i: usize = 0;
    proof {
        assert(md.take(0) =~= Seq::<(Seq<char>, Value)>::empty());
        assert(ts.take(0) =~= Seq::<Tensor>::empty());
    }
    while i < entries.len()
        invariant
            md == views(entries@),
            ns == texts(numerals@),
            numerals@.len() == md.len(),
            i <= entries@.len(),
            0 <= metadata_cost(md.take(i as int), ns),
            b == capped(metadata_cost(md.take(i as int), ns)),
        decreases entries@.len() - i,
    {
        proof {
            assert(md.take(i + 1).drop_last() =~= md.take(i as int));
            assert(md.take(i + 1).last() == entries@[i as int]@);
            assert(ns[i as int] == numerals@[i as int]@);
        }
        let key: u64 = entries[i].0.as_str().as_bytes().len() as u64;
        let text = entries[i].1.describe(numerals[i].as_str());
        b = b.saturating_add(key).saturating_add(text.as_str().as_bytes().len() as u64);
        i += 1;
    }
    proof {
        assert(md.take(i as int) =~= md);
    }
    let tensors = r.tensors();
    let mut j: usize = 0;
    while j < tensors.len()
        invariant
            ts == views(tensors@),
            j <= tensors@.len(),
            0 <= metadata_cost(md, ns),
            0 <= table_cost(ts.take(j as int)),
            b == capped(metadata_cost(md, ns) + table_cost(ts.take(j as int))),
        decreases tensors@.len() - j,
    {
        proof {
            assert(ts.take(j + 1).drop_last() =~= ts.take(j as int));
            assert(ts.take(j + 1).last() == tensors@[j as int]@);
        }
        b = b.saturating_add(tensors[j].name.as_str().as_bytes().len() as u64).saturating_add(96);
        j += 1;
    }
    proof {
        assert(ts.take(j as int) =~= ts);
    }
    b
}

// ---- The run --------------------------------------------------------------------------------

/// The bytes of keys and values for `ctx` tokens: a row of each for every token in every layer of
/// full attention.
pub open spec fn kv_bytes_of(h: Hyper, ctx: int) -> int {
    full_layers(h, h.n_layer as nat) * (h.n_head_kv * h.head_dim_v) * 8 * ctx
}

/// The bytes of the windows and states of the recurrent layers.
pub open spec fn recurrent_bytes_of(h: Hyper) -> int {
    (h.n_layer - full_layers(h, h.n_layer as nat)) * ((h.conv_kernel - 1) * (2 * h.d_inner)
        + h.value_heads() * h.linear_head() * h.linear_head()) * 4
}

/// The numbers that one step holds at once, at most.
pub open spec fn step_elements(h: Hyper, ctx: int) -> int {
    18 * h.n_embd + 3 * h.n_ff + 8 * (2 * h.d_inner) + 5 * h.value_heads() + 2 * (h.n_head_kv
        * h.head_dim_v) + h.n_head * ctx
}

/// The bytes that one step takes, with the logits that are kept beside it.
pub open spec fn scratch_bytes_of(h: Hyper, vocab: int, ctx: int) -> int {
    step_elements(h, ctx) * 4 + 2 * vocab * 4 + vocab * 8
}

/// The room that a run needs: for its prompt and for all that it may generate. A run without a
/// prompt is refused.
pub fn run_context(prompt: &[u32], max_tokens: u32) -> (res: Result<usize, LoadError>)
    requires
        prompt@.len() + max_tokens <= usize::MAX,
    ensures
        if prompt@.len() == 0 {
            res is Err && res->Err_0@ == Refusal::BadFile("prompt vacío"@)
        } else {
            res is Ok && res->Ok_0 == prompt@.len() + max_tokens
        },
{
    if prompt.len() == 0 {
        return Err(LoadError::corrupt(String::from_str("prompt vacío")));
    }
    Ok(prompt.len() + max_tokens as usize)
}

/// The controlled memory of a run, in bytes.
#[derive(Debug, Clone, Copy, PartialEq, Eq, Structural)]
pub struct RunPlan {
    /// Keys and values.
    pub kv_bytes: u64,
    /// Windows and states of the recurrent layers.
    pub recurrent_bytes: u64,
    /// The peak of one step.
    pub scratch_bytes: u64,
    /// Tokenizer, index and recurrent state.
    pub runtime_bytes: u64,
    /// All of it.
    pub mandatory_bytes: u64,
}

/// Whether the counts of a run stay within a `u64`.
pub open spec fn plan_fits(h: Hyper, vocab: int, ctx: int) -> bool {
    &&& kv_bytes_of(h, ctx) <= u64::MAX
    &&& recurrent_bytes_of(h) <= u64::MAX
    &&& scratch_bytes_of(h, vocab, ctx) <= u64::MAX
}

/// The plan of a run whose tokenizer and index take `overhead` bytes.
pub open spec fn plan_of(h: Hyper, vocab: int, ctx: int, overhead: int) -> RunPlan {
    let kv = kv_bytes_of(h, ctx);
    let scratch = scratch_bytes_of(h, vocab, ctx);
    let runtime = capped(overhead + recurrent_bytes_of(h));
    RunPlan {
        kv_bytes: kv as u64,
        recurrent_bytes: recurrent_bytes_of(h) as u64,
        scratch_bytes: scratch as u64,
        runtime_bytes: runtime,
        mandatory_bytes: capped(kv + scratch + runtime),
    }
}

proof fn lemma_bounds(h: Hyper, a: int, b: int)
    requires
        0 <= a <= 0x1_0000_0000,
        0 <= b <= 0x1_0000_0000_0000_0000,
    ensures
        0 <= a * b <= 0x1_0000_0000_0000_0000_0000_0000,
{
    assert(0 <= a * b <= 0x1_0000_0000 * 0x1_0000_0000_0000_0000) by (nonlinear_arith)
        requires
            0 <= a <= 0x1_0000_0000,
            0 <= b <= 0x1_0000_0000_0000_0000,
    ;
}

/// The bytes of keys and values, where a `u64` holds them.
fn kv_bytes(cfg: &Qwen35Config, ctx: usize) -> (res: Option<u64>)
    requires
        cfg.small(),
        flaw(cfg@) is None,
    ensures
        match res {
            Some(b) => b == kv_bytes_of(cfg@, ctx as int),
            None => kv_bytes_of(cfg@, ctx as int) > u64::MAX,
        },
{
    let full: u128 = count_full(cfg) as u128;
    proof {
        let h = cfg@;
        let row = h.n_head_kv * h.head_dim_v;
        lemma_bounds(h, h.n_head_kv, h.head_dim_v);
        assert(0 <= row <= 0x1_0000_0000 * 0x1_0000_0000) by (nonlinear_arith)
            requires
                0 <= h.n_head_kv <= 0x1_0000_0000,
                0 <= h.head_dim_v <= 0x1_0000_0000,
                row == h.n_head_kv * h.head_dim_v,
        ;
        lemma_bounds(h, full as int, row);
    }
    let row: u128 = cfg.n_head_kv as u128 * cfg.head_dim_v as u128;
    let per_token: u128 = full * row * 8;
    match per_token.checked_mul(ctx as u128) {
        Some(b) => if b > u64::MAX as u128 {
            None
        } else {
            Some(b as u64)
        },
        None => None,
    }
}

/// The bytes of the windows and states of the recurrent layers, where a `u64` holds them.
fn recurrent_bytes(cfg: &Qwen35Config) -> (res: Option<u64>)
    requires
        cfg.small(),
        flaw(cfg@) is None,
        cfg.d_inner > 0,
    ensures
        match res {
            Some(b) => b == recurrent_bytes_of(cfg@),
            None => recurrent_bytes_of(cfg@) > u64::MAX,
        },
{
    let full = count_full(cfg);
    let recurrent: u128 = (cfg.n_layer - full) as u128;
    let inner: u128 = cfg.d_inner as u128;
    let width: u128 = inner / (2 * cfg.group_count as u128);
    proof {
        crate::layers::lemma_linear_head(cfg@);
    }
    let heads: u128 = inner / width;
    proof {
        let h = cfg@;
        lemma_bounds(h, h.conv_kernel - 1, 2 * h.d_inner);
        assert((h.conv_kernel - 1) * (2 * h.d_inner) <= 0x1_0000_0000 * 0x2_0000_0000)
            by (nonlinear_arith)
            requires
                0 <= h.conv_kernel - 1 <= 0x1_0000_0000,
                0 <= 2 * h.d_inner <= 0x2_0000_0000,
        ;
        lemma_bounds(h, h.linear_head(), h.d_inner);
        let hw = h.value_heads() * h.linear_head();
        assert(hw == h.d_inner);
        assert(0 <= hw * h.linear_head() <= 0x1_0000_0000 * 0x1_0000_0000) by (nonlinear_arith)
            requires
                0 <= hw <= 0x1_0000_0000,
                0 <= h.linear_head() <= 0x1_0000_0000,
        ;
        let layer = (h.conv_kernel - 1) * (2 * h.d_inner) + hw * h.linear_head();
        assert(0 <= recurrent * layer <= 0x1_0000_0000 * 0x3_0000_0000_0000_0000)
            by (nonlinear_arith)
            requires
                0 <= recurrent <= 0x1_0000_0000,
                0 <= layer <= 0x3_0000_0000_0000_0000,
        ;
    }
    let layer: u128 = (cfg.conv_kernel as u128 - 1) * (2 * inner) + heads * width * width;
    let b: u128 = recurrent * layer * 4;
    if b > u64::MAX as u128 {
        None
    } else {
        Some(b as u64)
    }
}

/// The bytes that one step takes, where a `u64` holds them.
fn scratch_bytes(cfg: &Qwen35Config, vocab: u64, ctx: usize) -> (res: Option<u64>)
    requires
        cfg.small(),
        flaw(cfg@) is None,
        cfg.d_inner > 0,
    ensures
        match res {
            Some(b) => b == scratch_bytes_of(cfg@, vocab as int, ctx as int),
            None => scratch_bytes_of(cfg@, vocab as int, ctx as int) > u64::MAX,
        },
{
    let inner: u128 = cfg.d_inner as u128;
    let width: u128 = inner / (2 * cfg.group_count as u128);
    proof {
        crate::layers::lemma_linear_head(cfg@);
    }
    let heads: u128 = inner / width;
    proof {
        let h = cfg@;
        lemma_bounds(h, h.n_head_kv, h.head_dim_v);
        lemma_bounds(h, h.n_head, ctx as int);
    }
    let elems: u128 = 18 * cfg.n_embd as u128 + 3 * cfg.n_ff as u128 + 8 * (2 * inner) + 5 * heads
        + 2 * (cfg.n_head_kv as u128 * cfg.head_dim_v as u128) + cfg.n_head as u128 * ctx as u128;
    let b: u128 = elems * 4 + 2 * vocab as u128 * 4 + vocab as u128 * 8;
    if b > u64::MAX as u128 {
        None
    } else {
        Some(b as u64)
    }
}

/// The memory of a run of `ctx` tokens beside its keys and values: recurrent state, scratch, and
/// what tokenizer and index take. `None` where a count does not fit a `u64`.
pub fn controlled_plan(
    fwd: &Qwen35Forward,
    tok: &Gpt2Tokenizer,
    reader: &GgufReader,
    numerals: &Vec<String>,
    ctx: usize,
) -> (res: Option<(u64, u64, u64)>)
    requires
        fwd.wf(),
        tok.wf(),
        numerals@.len() == reader@.metadata.len(),
    ensures
        ({
            let h = fwd.model().cfg;
            let scratch = scratch_bytes_of(h, fwd.model().vocab as int, ctx as int);
            match res {
                Some((r, s, overhead)) => {
                    &&& r == recurrent_bytes_of(h)
                    &&& s == scratch
                    &&& overhead == capped(
                        capped(heap_of(tok@)) + capped(index_cost(reader@, texts(numerals@))),
                    )
                },
                None => recurrent_bytes_of(h) > u64::MAX || scratch > u64::MAX,
            }
        }),
{
    proof {
        fwd.law_open_model_is_checked();
    }
    let cfg = fwd.cfg();
    let recurrent: u64 = match recurrent_bytes(cfg) {
        Some(b) => b,
        None => {
            return None;
        },
    };
    let scratch: u64 = match scratch_bytes(cfg, fwd.vocab(), ctx) {
        Some(b) => b,
        None => {
            return None;
        },
    };
    let runtime: u64 = tok.heap_bytes().saturating_add(gguf_index_bytes(reader, numerals));
    Some((recurrent, scratch, runtime))
}

/// The plan of a run of `ctx` tokens. `None` where a count does not fit a `u64`.
pub fn run_plan(
    fwd: &Qwen35Forward,
    tok: &Gpt2Tokenizer,
    reader: &GgufReader,
    numerals: &Vec<String>,
    ctx: usize,
) -> (res: Option<RunPlan>)
    requires
        fwd.wf(),
        tok.wf(),
        numerals@.len() == reader@.metadata.len(),
    ensures
        ({
            let h = fwd.model().cfg;
            let vocab = fwd.model().vocab as int;
            if plan_fits(h, vocab, ctx as int) {
                res == Some(
                    plan_of(
                        h,
                        vocab,
                        ctx as int,
                        capped(
                            capped(heap_of(tok@)) + capped(index_cost(reader@, texts(numerals@))),
                        ) as int,
                    ),
                )
            } else {
                res is None
            }
        }),
{
    proof {
        fwd.law_open_model_is_checked();
    }
    let kv: u64 = match kv_bytes(fwd.cfg(), ctx) {
        Some(b) => b,
        None => {
            return None;
        },
    };
    match controlled_plan(fwd, tok, reader, numerals, ctx) {
        Some((recurrent, scratch, overhead)) => {
            let runtime: u64 = overhead.saturating_add(recurrent);
            let mandatory: u64 = kv.saturating_add(scratch).saturating_add(runtime);
            Some(
                RunPlan {
                    kv_bytes: kv,
                    recurrent_bytes: recurrent,
                    scratch_bytes: scratch,
                    runtime_bytes: runtime,
                    mandatory_bytes: mandatory,
                },
            )
        },
        None => None,
    }
}

/// The accounts of a run within a budget.
pub fn accounts(budget: u64, plan: &RunPlan) -> (res: MemoryAccounting)
    ensures
        res == (MemoryAccounting {
            configured_budget: budget,
            mandatory_bytes: plan.mandatory_bytes,
            weight_buffer_bytes: 0,
            weight_cache_bytes: 0,
            kv_cache_bytes: plan.kv_bytes,
            scratch_bytes: plan.scratch_bytes,
            runtime_bytes: plan.runtime_bytes,
        }),
{
    let mut a = MemoryAccounting::new(budget, plan.mandatory_bytes);
    a.kv_cache_bytes = plan.kv_bytes;
    a.scratch_bytes = plan.scratch_bytes;
    a.runtime_bytes = plan.runtime_bytes;
    a
}

impl MemoryAccounting {
    /// Whether the run has to be refused: the budget does not cover what it cannot do without.
    pub fn must_refuse(&self) -> (res: bool)
        ensures
            res == (self.mandatory_bytes > self.configured_budget),
    {
        self.mandatory_bytes > self.configured_budget
    }
}

/// A run is refused exactly where it would break its budget: one that is not refused uses no more
/// than the budget, and one that is refused would use more.
pub proof fn law_refused_or_within_budget(
    h: Hyper,
    vocab: int,
    ctx: int,
    overhead: int,
    budget: u64,
    a: MemoryAccounting,
)
    requires
        flaw(h) is None,
        h.d_inner > 0,
        vocab >= 0,
        ctx >= 0,
        plan_fits(h, vocab, ctx),
        ({
            let p = plan_of(h, vocab, ctx, overhead);
            a == MemoryAccounting {
                configured_budget: budget,
                mandatory_bytes: p.mandatory_bytes,
                weight_buffer_bytes: 0,
                weight_cache_bytes: 0,
                kv_cache_bytes: p.kv_bytes,
                scratch_bytes: p.scratch_bytes,
                runtime_bytes: p.runtime_bytes,
            }
        }),
    ensures
        a.used() == a.mandatory_bytes,
        a.mandatory_bytes <= a.configured_budget <==> a.respected(),
{
    lemma_plan_counts(h, vocab, ctx);
}

/// No count of a plan is below zero.
proof fn lemma_plan_counts(h: Hyper, vocab: int, ctx: int)
    requires
        flaw(h) is None,
        h.d_inner > 0,
        vocab >= 0,
        ctx >= 0,
    ensures
        0 <= kv_bytes_of(h, ctx),
        0 <= scratch_bytes_of(h, vocab, ctx),
{
    let full = full_layers(h, h.n_layer as nat);
    let row = h.n_head_kv * h.head_dim_v;
    crate::layers::lemma_linear_head(h);
    assert(h.head_dim_v >= 0) by (nonlinear_arith)
        requires
            h.n_head * h.head_dim_v == h.n_embd,
            h.n_head > 0,
            h.n_embd > 0,
    ;
    assert(row >= 0) by (nonlinear_arith)
        requires
            row == h.n_head_kv * h.head_dim_v,
            h.n_head_kv >= 0,
            h.head_dim_v >= 0,
    ;
    assert(full * row * 8 * ctx >= 0) by (nonlinear_arith)
        requires
            full >= 0,
            row >= 0,
            ctx >= 0,
    ;
    assert(h.n_head * ctx >= 0) by (nonlinear_arith)
        requires
            h.n_head >= 0,
            ctx >= 0,
    ;
}

/// The weights do not count, however many bytes they take: two files with the same metadata and
/// the same names of tensors have the same plan, whatever the sizes, types and places of their
/// tensors.
pub proof fn law_weights_do_not_count(
    a: Gguf,
    b: Gguf,
    numerals: Seq<Seq<char>>,
    h: Hyper,
    vocab: int,
    ctx: int,
    tokenizer: int,
)
    requires
        a.metadata == b.metadata,
        a.tensors.len() == b.tensors.len(),
        forall|i: int|
            0 <= i < a.tensors.len() ==> (#[trigger] a.tensors[i]).name == b.tensors[i].name,
    ensures
        index_cost(a, numerals) == index_cost(b, numerals),
        plan_of(h, vocab, ctx, tokenizer + index_cost(a, numerals)) == plan_of(
            h,
            vocab,
            ctx,
            tokenizer + index_cost(b, numerals),
        ),
{
    lemma_names_alone(a.tensors, b.tensors);
}

proof fn lemma_names_alone(a: Seq<Tensor>, b: Seq<Tensor>)
    requires
        a.len() == b.len(),
        forall|i: int| 0 <= i < a.len() ==> (#[trigger] a[i]).name == b[i].name,
    ensures
        table_cost(a) == table_cost(b),
    decreases a.len(),
{
    if a.len() > 0 {
        assert forall|i: int| 0 <= i < a.drop_last().len() implies (
        #[trigger] a.drop_last()[i]).name == b.drop_last()[i].name by {
            assert(a[i].name == b[i].name);
        }
        lemma_names_alone(a.drop_last(), b.drop_last());
        assert(a[a.len() - 1].name == b[b.len() - 1].name);
    }
}

/// The elements of several buffers.
pub open spec fn elements<T>(buffers: Seq<Seq<T>>) -> int
    decreases buffers.len(),
{
    if buffers.len() == 0 {
        0
    } else {
        elements(buffers.drop_last()) + buffers.last().len()
    }
}

proof fn lemma_equal_buffers<T>(buffers: Seq<Seq<T>>, len: int)
    requires
        forall|i: int| 0 <= i < buffers.len() ==> (#[trigger] buffers[i]).len() == len,
    ensures
        elements(buffers) == buffers.len() * len,
    decreases buffers.len(),
{
    let n = buffers.len() as int;
    if n > 0 {
        let front = buffers.drop_last();
        assert forall|i: int| 0 <= i < front.len() implies (#[trigger] front[i]).len() == len by {
            assert(front[i] == buffers[i]);
        }
        lemma_equal_buffers(front, len);
        assert(buffers.last() == buffers[n - 1]);
        assert((n - 1) * len + len == n * len) by (nonlinear_arith);
    } else {
        assert(0 * len == 0) by (nonlinear_arith);
    }
}

/// The plan counts what a session holds: four bytes for every key and value, and four for every
/// number of the windows and states.
pub proof fn law_plan_counts_the_session<T>(h: Hyper, ctx: int, zero: T)
    requires
        flaw(h) is None,
        h.d_inner > 0,
        ctx >= 0,
    ensures
        ({
            let m = Memory::fresh(h, ctx, zero);
            &&& kv_bytes_of(h, ctx) == 4 * (elements(m.keys) + elements(m.values))
            &&& recurrent_bytes_of(h) == 4 * (elements(m.conv) + elements(m.gdn))
        }),
{
    let m = Memory::fresh(h, ctx, zero);
    let full = full_layers(h, h.n_layer as nat);
    lemma_full_layers_bounded(h, h.n_layer as nat);
    crate::layers::lemma_linear_head(h);
    let row = h.n_head_kv * h.head_dim_v;
    assert(h.head_dim_v >= 0) by (nonlinear_arith)
        requires
            h.n_head * h.head_dim_v == h.n_embd,
            h.n_head > 0,
            h.n_embd > 0,
    ;
    assert(row >= 0) by (nonlinear_arith)
        requires
            row == h.n_head_kv * h.head_dim_v,
            h.n_head_kv >= 0,
            h.head_dim_v >= 0,
    ;
    assert(ctx * row >= 0) by (nonlinear_arith)
        requires
            ctx >= 0,
            row >= 0,
    ;
    let window = (h.conv_kernel - 1) * (2 * h.d_inner);
    assert(window >= 0) by (nonlinear_arith)
        requires
            window == (h.conv_kernel - 1) * (2 * h.d_inner),
            h.conv_kernel >= 2,
            h.d_inner >= 0,
    ;
    let state = h.value_heads() * h.linear_head() * h.linear_head();
    assert(state >= 0) by (nonlinear_arith)
        requires
            state == h.value_heads() * h.linear_head() * h.linear_head(),
            h.value_heads() * h.linear_head() >= 0,
            h.linear_head() >= 0,
    ;
    lemma_equal_buffers(m.keys, ctx * row);
    lemma_equal_buffers(m.values, ctx * row);
    lemma_equal_buffers(m.conv, window);
    lemma_equal_buffers(m.gdn, state);
    assert(full * row * 8 * ctx == 4 * (full * (ctx * row) + full * (ctx * row)))
        by (nonlinear_arith);
    let n = h.n_layer - full;
    assert(n * (window + state) * 4 == 4 * (n * window + n * state)) by (nonlinear_arith);
}

// ---- The budget -----------------------------------------------------------------------------

/// The budget that an option gives, or the refusal of what is no size.
pub open spec fn budget_of(arg: Option<Seq<char>>) -> Result<Option<u64>, Refusal> {
    match arg {
        None => Ok(None),
        Some(s) => match size_of(s) {
            Ok(n) => Ok(Some(n as u64)),
            Err(e) => Err(Refusal::BadFile("--memory-budget "@ + quoted(s) + ": "@ + e.message())),
        },
    }
}

/// Reads the budget of a run.
pub fn read_budget(arg: Option<&str>) -> (res: Result<Option<u64>, LoadError>)
    ensures
        match budget_of(
            match arg {
                Some(s) => Some(s@),
                None => None,
            },
        ) {
            Ok(b) => res is Ok && res->Ok_0 == b,
            Err(e) => res is Err && res->Err_0@ == e,
        },
{
    let s = match arg {
        None => {
            return Ok(None);
        },
        Some(s) => s,
    };
    match parse_size(s) {
        Ok(n) => Ok(Some(n)),
        Err(e) => {
            let mut m = String::from_str("--memory-budget ");
            m.append(debug_text(s).as_str());
            m.append(": ");
            m.append(e.message().as_str());
            Err(LoadError::corrupt(m))
        },
    }
}

/// What one step holds grows with each size by a fixed amount: 18 rows of the embedding, three of
/// the feed-forward part, eight of the convolution, five of the value heads, two of keys or values,
/// and for every head the scores of all tokens.
pub proof fn law_scratch_grows(a: Hyper, b: Hyper, ctx: int, more: int)
    ensures
        b == (Hyper { n_embd: b.n_embd, ..a }) ==> step_elements(b, ctx) - step_elements(a, ctx)
            == 18 * (b.n_embd - a.n_embd),
        b == (Hyper { n_ff: b.n_ff, ..a }) ==> step_elements(b, ctx) - step_elements(a, ctx) == 3
            * (b.n_ff - a.n_ff),
        b == (Hyper { d_inner: b.d_inner, ..a }) ==> step_elements(b, ctx) - step_elements(a, ctx)
            == 16 * (b.d_inner - a.d_inner) + 5 * (b.value_heads() - a.value_heads()),
        b == (Hyper { n_head_kv: b.n_head_kv, ..a }) ==> step_elements(b, ctx) - step_elements(
            a,
            ctx,
        ) == 2 * (b.n_head_kv - a.n_head_kv) * a.head_dim_v,
        b == (Hyper { n_head: b.n_head, ..a }) ==> step_elements(b, ctx) - step_elements(a, ctx)
            == (b.n_head - a.n_head) * ctx,
        step_elements(a, more) - step_elements(a, ctx) == a.n_head * (more - ctx),
{
    assert((b.n_head_kv - a.n_head_kv) * a.head_dim_v == b.n_head_kv * a.head_dim_v - a.n_head_kv
        * a.head_dim_v) by (nonlinear_arith);
    assert(2 * (b.n_head_kv - a.n_head_kv) * a.head_dim_v == 2 * ((b.n_head_kv - a.n_head_kv)
        * a.head_dim_v)) by (nonlinear_arith);
    assert((b.n_head - a.n_head) * ctx == b.n_head * ctx - a.n_head * ctx) by (nonlinear_arith);
    assert(a.n_head * (more - ctx) == a.n_head * more - a.n_head * ctx) by (nonlinear_arith);
}

} // verus!
