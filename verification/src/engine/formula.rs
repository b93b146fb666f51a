//! What a layer computes, as equations between rows of numbers.

use vstd::prelude::*;

use super::jobs::{computed, state_computed, DeltaJob, DeltaWork, Job, Work};
use super::laws::lemma_reads;
use super::progress::{
    begun, layer_done, left, op_done, ran, row_of, through, work_of, Dump, Progress, Token,
};
use crate::gguf::reader::Gguf;
use crate::layers::layer_info;
use crate::qwen35::Hyper;
use crate::session::{gates, queries, Memory};
use crate::text::dec;
use crate::wiring::{
    is_there, law_rows_are_made_before_they_are_read, law_rows_are_made_once, ops_of, Op, Reg,
    Weight,
};

verus! {

/// The stages of a layer of full attention.
pub struct AttentionStages<T> {
    pub normed: Seq<T>,
    pub both: Seq<T>,
    pub q_normed: Seq<T>,
    pub q: Seq<T>,
    pub k_raw: Seq<T>,
    pub k_normed: Seq<T>,
    pub k: Seq<T>,
    pub v: Seq<T>,
    pub mixed: Seq<T>,
    pub open: Seq<T>,
    pub gated: Seq<T>,
    pub attn_out: Seq<T>,
    pub residual: Seq<T>,
}

/// The stages of the feed-forward part.
pub struct FeedStages<T> {
    pub normed: Seq<T>,
    pub gate: Seq<T>,
    pub up: Seq<T>,
    pub act: Seq<T>,
    pub down: Seq<T>,
}

/// The feed-forward part of layer `il`: the row is normed and projected twice, the second
/// projection is gated by the first, projected back, and added onto the row.
pub open spec fn feeds_forward<T, F: Fn(usize, u64, Job<T>) -> Vec<T>>(
    f: F,
    il: usize,
    h: Hyper,
    x: Seq<T>,
    st: FeedStages<T>,
    out: Seq<T>,
) -> bool {
    let n = h.n_embd as u64;
    let wide = h.n_ff as u64;
    &&& computed(f, il, n, Work::Norm { x, weight: Weight::PostNorm }, st.normed)
    &&& computed(f, il, wide, Work::Project { x: st.normed, weight: Weight::FfnGate }, st.gate)
    &&& computed(f, il, wide, Work::Project { x: st.normed, weight: Weight::FfnUp }, st.up)
    &&& computed(f, il, wide, Work::Swiglu { x: st.gate, y: st.up }, st.act)
    &&& computed(f, il, n, Work::Project { x: st.act, weight: Weight::FfnDown }, st.down)
    &&& computed(f, il, n, Work::Add { x, y: st.down }, out)
}

/// The attention of layer `il` up to the row that the feed-forward part takes: queries and keys are
/// normed and rotated by the position of the token, keys and values are written down, all tokens
/// up to this one are attended to, and the outcome is gated, projected and added onto what came in.
pub open spec fn attends<T, F: Fn(usize, u64, Job<T>) -> Vec<T>>(
    f: F,
    il: usize,
    h: Hyper,
    slot: int,
    before: Memory<T>,
    after: Memory<T>,
    x: Seq<T>,
    st: AttentionStages<T>,
) -> bool {
    let n = h.n_embd as u64;
    let kv = (h.n_head_kv * h.head_dim_v) as u64;
    let heads = h.n_head as nat;
    let width = h.head_dim_v as nat;
    let position = before.position;
    &&& computed(f, il, n, Work::Norm { x, weight: Weight::AttnNorm }, st.normed)
    &&& computed(
        f,
        il,
        (2 * h.n_embd) as u64,
        Work::Project { x: st.normed, weight: Weight::AttnQ },
        st.both,
    )
    &&& computed(
        f,
        il,
        n,
        Work::Norm { x: queries(st.both, heads, width), weight: Weight::AttnQNorm },
        st.q_normed,
    )
    &&& computed(f, il, n, Work::Turn { x: st.q_normed, position }, st.q)
    &&& computed(f, il, kv, Work::Project { x: st.normed, weight: Weight::AttnK }, st.k_raw)
    &&& computed(f, il, kv, Work::Norm { x: st.k_raw, weight: Weight::AttnKNorm }, st.k_normed)
    &&& computed(f, il, kv, Work::Turn { x: st.k_normed, position }, st.k)
    &&& computed(f, il, kv, Work::Project { x: st.normed, weight: Weight::AttnV }, st.v)
    &&& after == before.stored(slot, st.k, st.v)
    &&& computed(
        f,
        il,
        n,
        Work::Attend {
            q: st.q,
            keys: after.keys[slot],
            values: after.values[slot],
            tokens: position + 1,
        },
        st.mixed,
    )
    &&& computed(f, il, n, Work::Sigmoid { x: gates(st.both, heads, width) }, st.open)
    &&& computed(f, il, n, Work::Mul { x: st.mixed, y: st.open }, st.gated)
    &&& computed(f, il, n, Work::Project { x: st.gated, weight: Weight::AttnOutput }, st.attn_out)
    &&& computed(f, il, n, Work::Add { x, y: st.attn_out }, st.residual)
}

/// The stages of a recurrent layer.
pub struct RecurrentStages<T> {
    pub normed: Seq<T>,
    pub qkv: Seq<T>,
    pub z: Seq<T>,
    pub beta_raw: Seq<T>,
    pub beta: Seq<T>,
    pub alpha: Seq<T>,
    pub biased: Seq<T>,
    pub soft: Seq<T>,
    pub decay: Seq<T>,
    pub conv: Seq<T>,
    pub mix: Seq<T>,
    pub q: Seq<T>,
    pub k: Seq<T>,
    pub next: Seq<T>,
    pub made: Seq<T>,
    pub made_normed: Seq<T>,
    pub z_silu: Seq<T>,
    pub gated: Seq<T>,
    pub attn_out: Seq<T>,
    pub residual: Seq<T>,
}

/// A row of `n` numbers that begins with `x` and goes on with blanks.
pub open spec fn blank_behind<T>(x: Seq<T>, n: int, blank: T, row: Seq<T>) -> bool {
    &&& x.is_prefix_of(row)
    &&& x.len() <= n ==> row.len() == n
    &&& forall|i: int| x.len() <= i < row.len() ==> #[trigger] row[i] == blank
}

/// The recurrent part of layer `il` up to the row that the feed-forward part takes: the window of
/// the layer is convolved, cut into queries, keys and values, and taken into the state, whose
/// outcome is normed, gated, projected and added onto what came in.
pub open spec fn recurs<
    T,
    F: Fn(usize, u64, Job<T>) -> Vec<T>,
    G: Fn(usize, DeltaJob<T>) -> (Vec<T>, Vec<T>),
>(
    f: F,
    g: G,
    blank: T,
    il: usize,
    h: Hyper,
    slot: int,
    before: Memory<T>,
    after: Memory<T>,
    x: Seq<T>,
    st: RecurrentStages<T>,
) -> bool {
    let n = h.n_embd as u64;
    let inner = h.d_inner as u64;
    let conv = (2 * h.d_inner) as u64;
    let heads = h.value_heads() as u64;
    let side = h.group_count * h.linear_head();
    let window = before.conv[slot] + st.qkv;
    &&& computed(f, il, n, Work::Norm { x, weight: Weight::AttnNorm }, st.normed)
    &&& computed(f, il, conv, Work::Project { x: st.normed, weight: Weight::AttnQkv }, st.qkv)
    &&& computed(f, il, n, Work::Project { x: st.normed, weight: Weight::AttnGate }, st.z)
    &&& computed(f, il, heads, Work::Project { x: st.normed, weight: Weight::SsmBeta }, st.beta_raw)
    &&& computed(f, il, heads, Work::Sigmoid { x: st.beta_raw }, st.beta)
    &&& computed(f, il, heads, Work::Project { x: st.normed, weight: Weight::SsmAlpha }, st.alpha)
    &&& computed(f, il, heads, Work::AddWeight { x: st.alpha, weight: Weight::SsmDt }, st.biased)
    &&& computed(f, il, heads, Work::Softplus { x: st.biased }, st.soft)
    &&& computed(f, il, heads, Work::MulWeight { x: st.soft, weight: Weight::SsmA }, st.decay)
    &&& computed(f, il, conv, Work::Conv { window, weight: Weight::SsmConv }, st.conv)
    &&& computed(f, il, conv, Work::Silu { x: st.conv }, st.mix)
    &&& computed(f, il, side as u64, Work::Unit { x: st.mix.subrange(0, side) }, st.q)
    &&& computed(f, il, side as u64, Work::Unit { x: st.mix.subrange(side, 2 * side) }, st.k)
    &&& state_computed(
        g,
        il,
        DeltaWork {
            state: before.gdn[slot],
            q: st.q,
            k: st.k,
            v: st.mix.subrange(2 * side, 2 * side + h.d_inner),
            decay: st.decay,
            beta: st.beta,
        },
        st.next,
        st.made,
    )
    &&& after == (Memory {
        conv: before.conv.update(slot, window.skip(before.conv_row)),
        gdn: before.gdn.update(slot, st.next),
        ..before
    })
    &&& computed(f, il, inner, Work::Norm { x: st.made, weight: Weight::SsmNorm }, st.made_normed)
    &&& computed(f, il, n, Work::Silu { x: st.z }, st.z_silu)
    &&& exists|row: Seq<T>| #[trigger]
        blank_behind(st.made_normed, h.n_embd, blank, row) && computed(
            f,
            il,
            n,
            Work::Mul { x: row, y: st.z_silu },
            st.gated,
        )
    &&& computed(f, il, n, Work::Project { x: st.gated, weight: Weight::SsmOut }, st.attn_out)
    &&& computed(f, il, n, Work::Add { x, y: st.attn_out }, st.residual)
}

// ---- Traces ---------------------------------------------------------------------------------

/// `s` holds a layer's progress before and after each of its operations.
spec fn traced<
    T,
    F: Fn(usize, u64, Job<T>) -> Vec<T>,
    G: Fn(usize, DeltaJob<T>) -> (Vec<T>, Vec<T>),
>(
    f: F,
    g: G,
    blank: T,
    h: Hyper,
    slot: int,
    il: usize,
    ops: Seq<Op>,
    s: Seq<Progress<T>>,
) -> bool {
    &&& s.len() == ops.len() + 1
    &&& forall|k: int|
        0 <= k < ops.len() ==> op_done(f, g, blank, h, slot, il, #[trigger] ops[k], s[k], s[k + 1])
}

proof fn lemma_trace<
    T,
    F: Fn(usize, u64, Job<T>) -> Vec<T>,
    G: Fn(usize, DeltaJob<T>) -> (Vec<T>, Vec<T>),
>(
    f: F,
    g: G,
    blank: T,
    h: Hyper,
    slot: int,
    il: usize,
    ops: Seq<Op>,
    a: Progress<T>,
    b: Progress<T>,
) -> (s: Seq<Progress<T>>)
    requires
        ran(f, g, blank, h, slot, il, ops, a, b),
    ensures
        traced(f, g, blank, h, slot, il, ops, s),
        s[0] == a,
        s.last() == b,
    decreases ops.len(),
{
    if ops.len() == 0 {
        seq![a]
    } else {
        let m = choose|m: Progress<T>|
            #[trigger] op_done(f, g, blank, h, slot, il, ops.last(), m, b) && ran(
                f,
                g,
                blank,
                h,
                slot,
                il,
                ops.drop_last(),
                a,
                m,
            );
        let front = lemma_trace(f, g, blank, h, slot, il, ops.drop_last(), a, m);
        let s = front.push(b);
        assert forall|k: int| 0 <= k < ops.len() implies op_done(
            f,
            g,
            blank,
            h,
            slot,
            il,
            #[trigger] ops[k],
            s[k],
            s[k + 1],
        ) by {
            if k < ops.len() - 1 {
                assert(ops.drop_last()[k] == ops[k]);
            }
        }
        s
    }
}

/// An operation makes the row that it writes, and leaves all others.
proof fn lemma_rows_grow<
    T,
    F: Fn(usize, u64, Job<T>) -> Vec<T>,
    G: Fn(usize, DeltaJob<T>) -> (Vec<T>, Vec<T>),
>(
    f: F,
    g: G,
    blank: T,
    h: Hyper,
    slot: int,
    il: usize,
    op: Op,
    a: Progress<T>,
    b: Progress<T>,
    r: Reg,
)
    requires
        op_done(f, g, blank, h, slot, il, op, a, b),
        op.writes() != Some(r),
    ensures
        row_of(b.rows, r) == row_of(a.rows, r),
{
    if let Some(out) = op.writes() {
        assert(b.rows.last().0 == out && b.rows.drop_last() =~= a.rows);
    }
}

/// A row that is there stays as it is.
proof fn lemma_settled<
    T,
    F: Fn(usize, u64, Job<T>) -> Vec<T>,
    G: Fn(usize, DeltaJob<T>) -> (Vec<T>, Vec<T>),
>(
    f: F,
    g: G,
    blank: T,
    h: Hyper,
    slot: int,
    il: usize,
    full: bool,
    s: Seq<Progress<T>>,
    n: int,
    m: int,
    r: Reg,
)
    requires
        traced(f, g, blank, h, slot, il, ops_of(full), s),
        0 <= n <= m <= ops_of(full).len(),
        is_there(ops_of(full), n, r),
    ensures
        row_of(s[m].rows, r) == row_of(s[n].rows, r),
    decreases m - n,
{
    if n < m {
        let ops = ops_of(full);
        lemma_settled(f, g, blank, h, slot, il, full, s, n, m - 1, r);
        assert(op_done(f, g, blank, h, slot, il, ops[m - 1], s[m - 1], s[m - 1 + 1]));
        if ops[m - 1].writes() == Some(r) {
            if r == Reg::Input {
                lemma_never_input(full, m - 1);
            } else {
                let j = choose|j: int| 0 <= j < n && (#[trigger] ops[j]).writes() == Some(r);
                law_rows_are_made_once(full, j, m - 1);
            }
        }
        lemma_rows_grow(f, g, blank, h, slot, il, ops[m - 1], s[m - 1], s[m], r);
    }
}

proof fn lemma_never_input(full: bool, k: int)
    requires
        0 <= k < ops_of(full).len(),
    ensures
        ops_of(full)[k].writes() != Some(Reg::Input),
{
}

/// Operation `k` found the rows that it reads as they are in the end, and the row that it made is
/// there in the end.
proof fn lemma_op_settled<
    T,
    F: Fn(usize, u64, Job<T>) -> Vec<T>,
    G: Fn(usize, DeltaJob<T>) -> (Vec<T>, Vec<T>),
>(
    f: F,
    g: G,
    blank: T,
    h: Hyper,
    slot: int,
    il: usize,
    full: bool,
    s: Seq<Progress<T>>,
    k: int,
)
    requires
        traced(f, g, blank, h, slot, il, ops_of(full), s),
        0 <= k < ops_of(full).len(),
    ensures
        op_done(f, g, blank, h, slot, il, ops_of(full)[k], s[k], s[k + 1]),
        forall|r: Reg| #[trigger]
            ops_of(full)[k].reads().contains(r) ==> s[k].row(r) == s.last().row(r),
        ops_of(full)[k].writes() matches Some(r) ==> s[k + 1].row(r) == s.last().row(r),
{
    let ops = ops_of(full);
    assert(op_done(f, g, blank, h, slot, il, ops[k], s[k], s[k + 1]));
    law_rows_are_made_before_they_are_read(full, k);
    assert forall|r: Reg| #[trigger] ops[k].reads().contains(r) implies s[k].row(r)
        == s.last().row(r) by {
        lemma_settled(f, g, blank, h, slot, il, full, s, k, ops.len() as int, r);
    }
    if let Some(r) = ops[k].writes() {
        assert(is_there(ops, k + 1, r));
        lemma_settled(f, g, blank, h, slot, il, full, s, k + 1, ops.len() as int, r);
    }
}

/// An operation that is none of those that keep something leaves the memory.
proof fn lemma_memory_left<
    T,
    F: Fn(usize, u64, Job<T>) -> Vec<T>,
    G: Fn(usize, DeltaJob<T>) -> (Vec<T>, Vec<T>),
>(
    f: F,
    g: G,
    blank: T,
    h: Hyper,
    slot: int,
    il: usize,
    full: bool,
    s: Seq<Progress<T>>,
    n: int,
    m: int,
)
    requires
        traced(f, g, blank, h, slot, il, ops_of(full), s),
        0 <= n <= m <= ops_of(full).len(),
        forall|k: int|
            n <= k < m ==> !((#[trigger] ops_of(full)[k]) is Store) && !(ops_of(full)[k] is Conv)
                && !(ops_of(full)[k] is Delta),
    ensures
        s[m].memory == s[n].memory,
    decreases m - n,
{
    if n < m {
        lemma_memory_left(f, g, blank, h, slot, il, full, s, n, m - 1);
        let op = ops_of(full)[m - 1];
        assert(op_done(f, g, blank, h, slot, il, op, s[m - 1], s[m - 1 + 1]));
    }
}

/// The row that operation `k` made with float work, in terms of the rows in the end.
proof fn lemma_row_by_work<
    T,
    F: Fn(usize, u64, Job<T>) -> Vec<T>,
    G: Fn(usize, DeltaJob<T>) -> (Vec<T>, Vec<T>),
>(
    f: F,
    g: G,
    blank: T,
    h: Hyper,
    slot: int,
    il: usize,
    full: bool,
    s: Seq<Progress<T>>,
    k: int,
)
    requires
        traced(f, g, blank, h, slot, il, ops_of(full), s),
        0 <= k < ops_of(full).len(),
        work_of(ops_of(full)[k], s[k], slot) is Some,
    ensures
        computed(
            f,
            il,
            crate::wiring::width(h, ops_of(full)[k].writes()->0) as u64,
            work_of(
                ops_of(full)[k],
                Progress { rows: s.last().rows, memory: s[k].memory, seen: s[k].seen },
                slot,
            )->0,
            s.last().row(ops_of(full)[k].writes()->0),
        ),
{
    let op = ops_of(full)[k];
    lemma_op_settled(f, g, blank, h, slot, il, full, s, k);
    lemma_reads(op);
    let out = op.writes()->0;
    assert(s[k + 1].rows.last().0 == out);
}

/// What a layer of full attention computes: from the row that came in to the row that goes out, and
/// to what is kept.
#[verifier::rlimit(80)]
#[verifier::spinoff_prover]
pub proof fn law_attention_layer<
    T,
    F: Fn(usize, u64, Job<T>) -> Vec<T>,
    G: Fn(usize, DeltaJob<T>) -> (Vec<T>, Vec<T>),
>(
    f: F,
    g: G,
    blank: T,
    h: Hyper,
    slot: int,
    il: usize,
    x: Seq<T>,
    before: Memory<T>,
    seen: Option<Seq<Seq<(Seq<char>, Seq<T>)>>>,
    p: Progress<T>,
)
    requires
        ran(
            f,
            g,
            blank,
            h,
            slot,
            il,
            ops_of(true),
            Progress { rows: seq![(Reg::Input, x)], memory: before, seen },
            p,
        ),
    ensures
        exists|st: AttentionStages<T>, fs: FeedStages<T>|
            {
                &&& #[trigger] attends(f, il, h, slot, before, p.memory, x, st)
                &&& #[trigger] feeds_forward(f, il, h, st.residual, fs, p.row(Reg::Out))
                &&& p.row(Reg::Residual) == st.residual
                &&& p.row(Reg::AttnOut) == st.attn_out
            },
{
    let full = true;
    let s = lemma_trace(
        f,
        g,
        blank,
        h,
        slot,
        il,
        ops_of(full),
        Progress { rows: seq![(Reg::Input, x)], memory: before, seen },
        p,
    );
    let ops = ops_of(full);
    let m = ops.len() as int;
    assert(row_of(s[0].rows, Reg::Input) == Some(x));
    lemma_settled(f, g, blank, h, slot, il, full, s, 0, m, Reg::Input);
    lemma_memory_left(f, g, blank, h, slot, il, full, s, 0, 8);
    lemma_memory_left(f, g, blank, h, slot, il, full, s, 0, 9);
    lemma_memory_left(f, g, blank, h, slot, il, full, s, 0, 10);
    lemma_memory_left(f, g, blank, h, slot, il, full, s, 11, 11);
    lemma_memory_left(f, g, blank, h, slot, il, full, s, 11, m);
    lemma_op_settled(f, g, blank, h, slot, il, full, s, 2);
    lemma_reads(ops[2]);
    lemma_op_settled(f, g, blank, h, slot, il, full, s, 3);
    lemma_reads(ops[3]);
    lemma_op_settled(f, g, blank, h, slot, il, full, s, 10);
    lemma_reads(ops[10]);
    lemma_row_by_work(f, g, blank, h, slot, il, full, s, 0);
    lemma_row_by_work(f, g, blank, h, slot, il, full, s, 1);
    lemma_row_by_work(f, g, blank, h, slot, il, full, s, 4);
    lemma_row_by_work(f, g, blank, h, slot, il, full, s, 5);
    lemma_row_by_work(f, g, blank, h, slot, il, full, s, 6);
    lemma_row_by_work(f, g, blank, h, slot, il, full, s, 7);
    lemma_row_by_work(f, g, blank, h, slot, il, full, s, 8);
    lemma_row_by_work(f, g, blank, h, slot, il, full, s, 9);
    lemma_row_by_work(f, g, blank, h, slot, il, full, s, 11);
    lemma_row_by_work(f, g, blank, h, slot, il, full, s, 12);
    lemma_row_by_work(f, g, blank, h, slot, il, full, s, 13);
    lemma_row_by_work(f, g, blank, h, slot, il, full, s, 14);
    lemma_row_by_work(f, g, blank, h, slot, il, full, s, 15);
    lemma_row_by_work(f, g, blank, h, slot, il, full, s, 16);
    lemma_row_by_work(f, g, blank, h, slot, il, full, s, 17);
    lemma_row_by_work(f, g, blank, h, slot, il, full, s, 18);
    lemma_row_by_work(f, g, blank, h, slot, il, full, s, 19);
    lemma_row_by_work(f, g, blank, h, slot, il, full, s, 20);
    lemma_row_by_work(f, g, blank, h, slot, il, full, s, 21);
    let st = AttentionStages {
        normed: p.row(Reg::Normed),
        both: p.row(Reg::QueryFull),
        q_normed: p.row(Reg::QueryNormed),
        q: p.row(Reg::QueryTurned),
        k_raw: p.row(Reg::KeyRaw),
        k_normed: p.row(Reg::KeyNormed),
        k: p.row(Reg::KeyTurned),
        v: p.row(Reg::Value),
        mixed: p.row(Reg::Mixed),
        open: p.row(Reg::GateSig),
        gated: p.row(Reg::Gated),
        attn_out: p.row(Reg::AttnOut),
        residual: p.row(Reg::Residual),
    };
    let fs = FeedStages {
        normed: p.row(Reg::PostNormed),
        gate: p.row(Reg::FfnGate),
        up: p.row(Reg::FfnUp),
        act: p.row(Reg::FfnAct),
        down: p.row(Reg::FfnOut),
    };
    assert(attends(f, il, h, slot, before, p.memory, x, st));
    assert(feeds_forward(f, il, h, st.residual, fs, p.row(Reg::Out)));
}

/// What a recurrent layer computes: from the row that came in to the row that goes out, and to
/// what is kept.
#[verifier::rlimit(100)]
#[verifier::spinoff_prover]
pub proof fn law_recurrent_layer<
    T,
    F: Fn(usize, u64, Job<T>) -> Vec<T>,
    G: Fn(usize, DeltaJob<T>) -> (Vec<T>, Vec<T>),
>(
    f: F,
    g: G,
    blank: T,
    h: Hyper,
    slot: int,
    il: usize,
    x: Seq<T>,
    before: Memory<T>,
    seen: Option<Seq<Seq<(Seq<char>, Seq<T>)>>>,
    p: Progress<T>,
)
    requires
        ran(
            f,
            g,
            blank,
            h,
            slot,
            il,
            ops_of(false),
            Progress { rows: seq![(Reg::Input, x)], memory: before, seen },
            p,
        ),
    ensures
        exists|st: RecurrentStages<T>, fs: FeedStages<T>|
            {
                &&& #[trigger] recurs(f, g, blank, il, h, slot, before, p.memory, x, st)
                &&& #[trigger] feeds_forward(f, il, h, st.residual, fs, p.row(Reg::Out))
                &&& p.row(Reg::Residual) == st.residual
                &&& p.row(Reg::AttnOut) == st.attn_out
            },
{
    let full = false;
    let s = lemma_trace(
        f,
        g,
        blank,
        h,
        slot,
        il,
        ops_of(full),
        Progress { rows: seq![(Reg::Input, x)], memory: before, seen },
        p,
    );
    let ops = ops_of(full);
    let m = ops.len() as int;
    assert(row_of(s[0].rows, Reg::Input) == Some(x));
    lemma_settled(f, g, blank, h, slot, il, full, s, 0, m, Reg::Input);
    lemma_memory_left(f, g, blank, h, slot, il, full, s, 0, 17);
    lemma_memory_left(f, g, blank, h, slot, il, full, s, 18, 32);
    lemma_memory_left(f, g, blank, h, slot, il, full, s, 33, m);
    lemma_op_settled(f, g, blank, h, slot, il, full, s, 17);
    lemma_reads(ops[17]);
    lemma_op_settled(f, g, blank, h, slot, il, full, s, 21);
    lemma_reads(ops[21]);
    lemma_op_settled(f, g, blank, h, slot, il, full, s, 22);
    lemma_reads(ops[22]);
    lemma_op_settled(f, g, blank, h, slot, il, full, s, 23);
    lemma_reads(ops[23]);
    lemma_op_settled(f, g, blank, h, slot, il, full, s, 32);
    lemma_reads(ops[32]);
    lemma_op_settled(f, g, blank, h, slot, il, full, s, 36);
    lemma_reads(ops[36]);
    lemma_row_by_work(f, g, blank, h, slot, il, full, s, 0);
    lemma_row_by_work(f, g, blank, h, slot, il, full, s, 2);
    lemma_row_by_work(f, g, blank, h, slot, il, full, s, 3);
    lemma_row_by_work(f, g, blank, h, slot, il, full, s, 6);
    lemma_row_by_work(f, g, blank, h, slot, il, full, s, 7);
    lemma_row_by_work(f, g, blank, h, slot, il, full, s, 8);
    lemma_row_by_work(f, g, blank, h, slot, il, full, s, 9);
    lemma_row_by_work(f, g, blank, h, slot, il, full, s, 10);
    lemma_row_by_work(f, g, blank, h, slot, il, full, s, 11);
    lemma_row_by_work(f, g, blank, h, slot, il, full, s, 17);
    lemma_row_by_work(f, g, blank, h, slot, il, full, s, 18);
    lemma_row_by_work(f, g, blank, h, slot, il, full, s, 27);
    lemma_row_by_work(f, g, blank, h, slot, il, full, s, 28);
    lemma_row_by_work(f, g, blank, h, slot, il, full, s, 35);
    lemma_row_by_work(f, g, blank, h, slot, il, full, s, 37);
    lemma_row_by_work(f, g, blank, h, slot, il, full, s, 38);
    lemma_row_by_work(f, g, blank, h, slot, il, full, s, 40);
    lemma_row_by_work(f, g, blank, h, slot, il, full, s, 41);
    lemma_row_by_work(f, g, blank, h, slot, il, full, s, 44);
    lemma_row_by_work(f, g, blank, h, slot, il, full, s, 46);
    lemma_row_by_work(f, g, blank, h, slot, il, full, s, 47);
    lemma_row_by_work(f, g, blank, h, slot, il, full, s, 48);
    lemma_row_by_work(f, g, blank, h, slot, il, full, s, 52);
    lemma_row_by_work(f, g, blank, h, slot, il, full, s, 54);
    let work = DeltaWork {
        state: s[32].memory.gdn[slot],
        q: s[32].row(Reg::QUnit),
        k: s[32].row(Reg::KUnit),
        v: s[32].row(Reg::VConv),
        decay: s[32].row(Reg::Decay),
        beta: s[32].row(Reg::Beta),
    };
    let (next, made) = choose|next: Seq<T>, made: Seq<T>|
        #[trigger] state_computed(g, il, work, next, made) && s[33] == s[32].with_memory(
            Memory { gdn: s[32].memory.gdn.update(slot, next), ..s[32].memory },
        ).with_row(Reg::Delta, made);
    assert(s[33].rows.last() == (Reg::Delta, made));
    let st = RecurrentStages {
        normed: p.row(Reg::Normed),
        qkv: p.row(Reg::Qkv),
        z: p.row(Reg::Z),
        beta_raw: p.row(Reg::BetaRaw),
        beta: p.row(Reg::Beta),
        alpha: p.row(Reg::Alpha),
        biased: p.row(Reg::Biased),
        soft: p.row(Reg::Soft),
        decay: p.row(Reg::Decay),
        conv: p.row(Reg::ConvOut),
        mix: p.row(Reg::Mix),
        q: p.row(Reg::QUnit),
        k: p.row(Reg::KUnit),
        next,
        made,
        made_normed: p.row(Reg::DeltaNormed),
        z_silu: p.row(Reg::ZSilu),
        gated: p.row(Reg::Gated),
        attn_out: p.row(Reg::AttnOut),
        residual: p.row(Reg::Residual),
    };
    let fs = FeedStages {
        normed: p.row(Reg::PostNormed),
        gate: p.row(Reg::FfnGate),
        up: p.row(Reg::FfnUp),
        act: p.row(Reg::FfnAct),
        down: p.row(Reg::FfnOut),
    };
    assert(blank_behind(st.made_normed, h.n_embd, blank, p.row(Reg::NormedRow)));
    assert(p.memory.conv =~= before.conv.update(
        slot,
        (before.conv[slot] + st.qkv).skip(before.conv_row),
    ));
    assert(recurs(f, g, blank, il, h, slot, before, p.memory, x, st));
    assert(feeds_forward(f, il, h, st.residual, fs, p.row(Reg::Out)));
}

// ---- Layer after layer ----------------------------------------------------------------------

/// `ts` holds a token before the first of `n` layers and after each.
pub open spec fn passes<
    T,
    F: Fn(usize, u64, Job<T>) -> Vec<T>,
    G: Fn(usize, DeltaJob<T>) -> (Vec<T>, Vec<T>),
>(f: F, g: G, blank: T, file: Gguf, h: Hyper, n: nat, ts: Seq<Token<T>>) -> bool {
    &&& ts.len() == n + 1
    &&& forall|il: int|
        0 <= il < n ==> layer_done(f, g, blank, file, h, il, #[trigger] ts[il], ts[il + 1])
}

/// A token goes through every layer once, from the first to the last; each takes what the one
/// before it gave.
pub proof fn law_layers_follow_each_other<
    T,
    F: Fn(usize, u64, Job<T>) -> Vec<T>,
    G: Fn(usize, DeltaJob<T>) -> (Vec<T>, Vec<T>),
>(f: F, g: G, blank: T, file: Gguf, h: Hyper, n: nat, a: Token<T>, b: Token<T>)
    requires
        through(f, g, blank, file, h, n, a, b),
    ensures
        exists|ts: Seq<Token<T>>|
            #[trigger] passes(f, g, blank, file, h, n, ts) && ts[0] == a && ts.last() == b,
    decreases n,
{
    if n == 0 {
        assert(passes(f, g, blank, file, h, n, seq![a]));
    } else {
        let m = choose|m: Token<T>|
            #[trigger] layer_done(f, g, blank, file, h, n - 1, m, b) && through(
                f,
                g,
                blank,
                file,
                h,
                (n - 1) as nat,
                a,
                m,
            );
        law_layers_follow_each_other(f, g, blank, file, h, (n - 1) as nat, a, m);
        let front = choose|ts: Seq<Token<T>>|
            #[trigger] passes(f, g, blank, file, h, (n - 1) as nat, ts) && ts[0] == a && ts.last()
                == m;
        let ts = front.push(b);
        assert forall|il: int| 0 <= il < n implies layer_done(
            f,
            g,
            blank,
            file,
            h,
            il,
            #[trigger] ts[il],
            ts[il + 1],
        ) by {
            if il < n - 1 {
                assert(layer_done(f, g, blank, file, h, il, front[il], front[il + 1]));
            }
        }
        assert(passes(f, g, blank, file, h, n, ts));
    }
}

/// A layer takes the row and the memory of the token, runs the operations of its sort in its own
/// place of the memory, and hands on the row that goes out.
pub proof fn law_layer_takes_and_gives<
    T,
    F: Fn(usize, u64, Job<T>) -> Vec<T>,
    G: Fn(usize, DeltaJob<T>) -> (Vec<T>, Vec<T>),
>(f: F, g: G, blank: T, file: Gguf, h: Hyper, il: int, a: Token<T>, b: Token<T>)
    requires
        layer_done(f, g, blank, file, h, il, a, b),
    ensures
        exists|p: Progress<T>|
            {
                &&& #[trigger] ran(
                    f,
                    g,
                    blank,
                    h,
                    layer_info(file, h, il).slot as int,
                    il as usize,
                    ops_of(h.full_attention(il)),
                    Progress { rows: seq![(Reg::Input, a.x)], memory: a.memory, seen: a.seen },
                    p,
                )
                &&& b.x == p.row(Reg::Out)
                &&& b.memory == p.memory
                &&& b.seen == p.seen
                &&& b.dump is Some <==> a.dump is Some
            },
{
    let info = layer_info(file, h, il);
    let p = choose|p: Progress<T>|
        #[trigger] ran(
            f,
            g,
            blank,
            h,
            info.slot as int,
            il as usize,
            ops_of(info.full),
            begun(a),
            p,
        ) && b == left(h, info.full, il, blank, a, p);
    assert(begun(a) == Progress {
        rows: seq![(Reg::Input, a.x)],
        memory: a.memory,
        seen: a.seen,
    });
}

/// What is noted of layer `il` stands in the part of that layer, and the parts of all other layers
/// stay as they were: the row that goes out, the row before the feed-forward part, and what a
/// recurrent layer adds; where attention is full, the last is blank.
pub proof fn law_outcomes_are_noted_in_their_places<T>(
    h: Hyper,
    full: bool,
    il: int,
    blank: T,
    t: Token<T>,
    p: Progress<T>,
    d: Dump<T>,
    i: int,
)
    requires
        t.dump == Some(d),
        0 <= il < h.n_layer,
        0 < h.n_embd,
        p.row(Reg::Out).len() == h.n_embd,
        p.row(Reg::Residual).len() == h.n_embd,
        p.row(Reg::AttnOut).len() == h.n_embd,
        d.l_out.len() == h.n_layer * h.n_embd,
        d.residual.len() == h.n_layer * h.n_embd,
        d.linear.len() == h.n_layer * h.n_embd,
        0 <= i < h.n_layer * h.n_embd,
    ensures
        ({
            let e = left(h, full, il, blank, t, p).dump->0;
            let at = i % h.n_embd;
            &&& left(h, full, il, blank, t, p).dump is Some
            &&& e.l_out.len() == d.l_out.len()
            &&& e.residual.len() == d.residual.len()
            &&& e.linear.len() == d.linear.len()
            &&& i / h.n_embd == il ==> {
                &&& e.l_out[i] == p.row(Reg::Out)[at]
                &&& e.residual[i] == p.row(Reg::Residual)[at]
                &&& e.linear[i] == if full {
                    blank
                } else {
                    p.row(Reg::AttnOut)[at]
                }
            }
            &&& i / h.n_embd != il ==> {
                &&& e.l_out[i] == d.l_out[i]
                &&& e.residual[i] == d.residual[i]
                &&& e.linear[i] == d.linear[i]
            }
        }),
{
    let n = h.n_embd;
    let at = il * n;
    assert(0 <= at && at + n <= h.n_layer * n) by (nonlinear_arith)
        requires
            at == il * n,
            0 <= il < h.n_layer,
            n > 0,
    ;
    let q = i / n;
    let r = i % n;
    assert(i == q * n + r && 0 <= r < n) by (nonlinear_arith)
        requires
            q == i / n,
            r == i % n,
            n > 0,
    ;
    if q == il {
        assert(i == at + r);
    } else {
        assert(i < at || i >= at + n) by (nonlinear_arith)
            requires
                i == q * n + r,
                0 <= r < n,
                at == il * n,
                q != il,
        ;
    }
}

/// A row that is shown goes to the token at hand, behind what was shown of it before, under its
/// name with the layer's number; what was shown of earlier tokens stays. Where nobody looks,
/// nothing is kept.
pub proof fn law_shown_rows_go_to_the_token_at_hand<
    T,
    F: Fn(usize, u64, Job<T>) -> Vec<T>,
    G: Fn(usize, DeltaJob<T>) -> (Vec<T>, Vec<T>),
>(
    f: F,
    g: G,
    blank: T,
    h: Hyper,
    slot: int,
    il: usize,
    name: &'static str,
    x: Reg,
    a: Progress<T>,
    b: Progress<T>,
)
    requires
        op_done(f, g, blank, h, slot, il, Op::Show { name, x }, a, b),
    ensures
        b.rows == a.rows,
        b.memory == a.memory,
        a.seen is None ==> b.seen is None,
        a.seen matches Some(s) ==> s.len() > 0 ==> {
            let t = b.seen->0;
            &&& b.seen is Some
            &&& t.len() == s.len()
            &&& forall|i: int| 0 <= i < s.len() - 1 ==> #[trigger] t[i] == s[i]
            &&& t.last() == s.last().push((name@ + "-"@ + dec(il as nat), a.row(x)))
        },
{
}

} // verus!
