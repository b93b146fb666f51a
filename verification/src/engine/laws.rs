//! What every operation keeps.

use vstd::prelude::*;

use super::jobs::{
    able, computed, proper, proper_step, state_computed, DeltaJob, DeltaWork, Job, Work,
};
use super::progress::{
    cut_of, memory_after, op_done, row_made, row_of, work_of, Progress,
};
use crate::layers::{lemma_full_layers_bounded, lemma_linear_head};
use crate::qwen35::{flaw, full_layers, Hyper};
use crate::session::{gates, law_stored_rows_are_read_back, queries, Memory};
use crate::wiring::{
    fits, has_weight, is_there, law_rows_are_made_before_they_are_read, law_state_belongs,
    law_weights_are_checked, law_widths_agree, ops_of, part_start, width, Op, Reg, Side,
};

verus! {

/// Counts as a file can give them.
pub open spec fn countable(h: Hyper) -> bool {
    &&& 0 <= h.n_embd <= u32::MAX
    &&& 0 <= h.n_ff <= u32::MAX
    &&& 0 <= h.n_head_kv <= u32::MAX
    &&& 0 <= h.head_dim_v <= u32::MAX
    &&& 0 <= h.d_inner <= u32::MAX
}

/// A memory of the sizes that a model asks for.
pub open spec fn serves<T>(h: Hyper, m: Memory<T>) -> bool {
    let full = full_layers(h, h.n_layer as nat);
    &&& m.wf()
    &&& m.conv_row == 2 * h.d_inner
    &&& m.kv_row == h.n_head_kv * h.head_dim_v
    &&& m.conv.len() == h.n_layer - full
    &&& m.keys.len() == full
    &&& forall|s: int|
        0 <= s < m.conv.len() ==> (#[trigger] m.conv[s]).len() == (h.conv_kernel - 1)
            * m.conv_row
    &&& forall|s: int|
        0 <= s < m.gdn.len() ==> (#[trigger] m.gdn[s]).len() == h.value_heads()
            * h.linear_head() * h.linear_head()
}

/// A token changes nothing of what is kept of the tokens before it: their keys and values, their
/// number, and the sizes of everything.
pub open spec fn past_kept<T>(a: Memory<T>, b: Memory<T>) -> bool {
    &&& b.position == a.position
    &&& b.ctx == a.ctx
    &&& b.conv_row == a.conv_row
    &&& b.kv_row == a.kv_row
    &&& b.conv.len() == a.conv.len()
    &&& b.keys.len() == a.keys.len()
    &&& forall|s: int, p: int|
        0 <= s < a.keys.len() && 0 <= p < a.position ==> #[trigger] a.row_of(b.keys[s], p)
            == a.row_of(a.keys[s], p)
    &&& forall|s: int, p: int|
        0 <= s < a.keys.len() && 0 <= p < a.position ==> #[trigger] a.row_of(b.values[s], p)
            == a.row_of(a.values[s], p)
}

/// Every row that is there before operation `k` has its width.
pub open spec fn rows_right<T>(h: Hyper, ops: Seq<Op>, k: int, rows: Seq<(Reg, Seq<T>)>) -> bool {
    forall|r: Reg| #[trigger]
        is_there(ops, k, r) ==> row_of(rows, r) is Some && row_of(rows, r)->0.len() == width(h, r)
}

proof fn lemma_width_fits(h: Hyper, r: Reg)
    requires
        flaw(h) is None,
        h.d_inner > 0,
        countable(h),
    ensures
        0 <= width(h, r) <= u64::MAX,
{
    lemma_linear_head(h);
    let g = h.group_count;
    let w = h.linear_head();
    assert(0 <= g * w <= h.d_inner) by (nonlinear_arith)
        requires
            (2 * g) * w == h.d_inner,
            g >= 0,
            w >= 0,
    ;
    let a = h.n_head_kv;
    let b = h.head_dim_v;
    assert(0 <= a * b <= 0xFFFF_FFFF * 0xFFFF_FFFF) by (nonlinear_arith)
        requires
            0 <= a <= 0xFFFF_FFFF,
            0 <= b <= 0xFFFF_FFFF,
    ;
}

proof fn lemma_row_pushed<T>(rows: Seq<(Reg, Seq<T>)>, out: Reg, row: Seq<T>, r: Reg)
    ensures
        row_of(rows.push((out, row)), r) == if out == r {
            Some(row)
        } else {
            row_of(rows, r)
        },
{
    assert(rows.push((out, row)).drop_last() =~= rows);
}

proof fn lemma_rows_right_pushed<T>(
    h: Hyper,
    ops: Seq<Op>,
    k: int,
    rows: Seq<(Reg, Seq<T>)>,
    out: Reg,
    row: Seq<T>,
)
    requires
        0 <= k < ops.len(),
        rows_right(h, ops, k, rows),
        ops[k].writes() == Some(out),
        row.len() == width(h, out),
    ensures
        rows_right(h, ops, k + 1, rows.push((out, row))),
{
    assert forall|r: Reg| #[trigger] is_there(ops, k + 1, r) implies row_of(
        rows.push((out, row)),
        r,
    ) is Some && row_of(rows.push((out, row)), r)->0.len() == width(h, r) by {
        lemma_row_pushed(rows, out, row, r);
        if r != out {
            lemma_there_before(ops, k, r);
        }
    }
}

proof fn lemma_there_before(ops: Seq<Op>, k: int, r: Reg)
    requires
        0 <= k < ops.len(),
        is_there(ops, k + 1, r),
        ops[k].writes() != Some(r),
    ensures
        is_there(ops, k, r),
{
    if r != Reg::Input {
        let j = choose|j: int| 0 <= j < k + 1 && (#[trigger] ops[j]).writes() == Some(r);
        assert(j < k);
    }
}

proof fn lemma_rows_right_kept<T>(h: Hyper, ops: Seq<Op>, k: int, rows: Seq<(Reg, Seq<T>)>)
    requires
        0 <= k < ops.len(),
        rows_right(h, ops, k, rows),
        ops[k].writes() is None,
    ensures
        rows_right(h, ops, k + 1, rows),
{
    assert forall|r: Reg| #[trigger] is_there(ops, k + 1, r) implies row_of(rows, r) is Some
        && row_of(rows, r)->0.len() == width(h, r) by {
        lemma_there_before(ops, k, r);
    }
}

/// The slot of a layer is one that the memory has.
pub open spec fn slot_there<T>(m: Memory<T>, full: bool, slot: int) -> bool {
    0 <= slot < if full {
        m.keys.len()
    } else {
        m.conv.len()
    }
}

proof fn lemma_row_made<T, F: Fn(usize, u64, Job<T>) -> Vec<T>, G: Fn(usize, DeltaJob<T>) -> (
    Vec<T>,
    Vec<T>,
)>(
    f: F,
    g: G,
    il: usize,
    h: Hyper,
    work: Work<T>,
    out: Reg,
    a: Progress<T>,
    b: Progress<T>,
) -> (made: Seq<T>)
    requires
        able(f, g, h),
        flaw(h) is None,
        h.d_inner > 0,
        countable(h),
        proper(h, il as int, width(h, out), work),
        row_made(f, il, h, work, out, a, b),
    ensures
        made.len() == width(h, out),
        b == a.with_row(out, made),
{
    lemma_width_fits(h, out);
    choose|made: Seq<T>|
        #[trigger] computed(f, il, width(h, out) as u64, work, made) && b == a.with_row(out, made)
}

/// Every operation gives its row its width, keeps the memory fit for the model, and leaves what is
/// kept of earlier tokens as it was.
pub proof fn law_operations_keep_the_past<
    T,
    F: Fn(usize, u64, Job<T>) -> Vec<T>,
    G: Fn(usize, DeltaJob<T>) -> (Vec<T>, Vec<T>),
>(
    f: F,
    g: G,
    blank: T,
    h: Hyper,
    full: bool,
    slot: int,
    il: usize,
    k: int,
    a: Progress<T>,
    b: Progress<T>,
)
    requires
        able(f, g, h),
        flaw(h) is None,
        0 < h.d_inner,
        !full ==> h.d_inner <= h.n_embd,
        countable(h),
        il < h.n_layer,
        full == h.full_attention(il as int),
        0 <= k < ops_of(full).len(),
        rows_right(h, ops_of(full), k, a.rows),
        serves(h, a.memory),
        a.memory.position < a.memory.ctx,
        slot_there(a.memory, full, slot),
        op_done(f, g, blank, h, slot, il, ops_of(full)[k], a, b),
    ensures
        rows_right(h, ops_of(full), k + 1, b.rows),
        serves(h, b.memory),
        past_kept(a.memory, b.memory),
{
    law_rows_are_made_before_they_are_read(full, k);
    law_widths_agree(h, full, k);
    law_state_belongs(full, k);
    law_weights_are_checked(h, il as int, k);
    lemma_op_keeps(f, g, blank, h, ops_of(full), full, slot, il, k, a, b);
}

/// An operation that layer `il` can run: its rows have the widths that it works on, it touches
/// only what belongs to the layer's sort, and its weight is one that the layer has.
pub open spec fn at_home(h: Hyper, il: int, full: bool, op: Op) -> bool {
    &&& 0 <= il < h.n_layer
    &&& full == h.full_attention(il)
    &&& fits(h, op)
    &&& in_place(op, full)
    &&& op.uses() matches Some(w) ==> has_weight(h, il, w)
}

/// The rows that an operation reads are there, each with its width.
pub open spec fn reads_right<T>(h: Hyper, op: Op, rows: Seq<(Reg, Seq<T>)>) -> bool {
    forall|r: Reg| #[trigger]
        op.reads().contains(r) ==> row_of(rows, r) is Some && row_of(rows, r)->0.len() == width(h, r)
}

/// The work that an operation hands out is proper.
pub proof fn lemma_work_proper<T>(
    h: Hyper,
    full: bool,
    slot: int,
    il: int,
    op: Op,
    a: Progress<T>,
)
    requires
        at_home(h, il, full, op),
        reads_right(h, op, a.rows),
        serves(h, a.memory),
        a.memory.position < a.memory.ctx,
        slot_there(a.memory, full, slot),
    ensures
        work_of(op, a, slot) matches Some(work) ==> proper(h, il, width(h, op.writes()->0), work),
        op matches Op::Delta { q, k, v, decay, beta, .. } ==> proper_step(
            h,
            il,
            DeltaWork {
                state: a.memory.gdn[slot],
                q: a.row(q),
                k: a.row(k),
                v: a.row(v),
                decay: a.row(decay),
                beta: a.row(beta),
            },
        ),
{
    lemma_reads(op);
    let m = a.memory;
    match op {
        Op::Conv { x, .. } => {
            assert(m.conv[slot].len() == (h.conv_kernel - 1) * m.conv_row);
            assert((h.conv_kernel - 1) * m.conv_row + m.conv_row == h.conv_kernel * m.conv_row)
                by (nonlinear_arith);
        },
        Op::Attend { .. } => {
            assert(m.keys[slot].len() == m.ctx * m.kv_row);
            assert(m.values[slot].len() == m.ctx * m.kv_row);
            assert((m.position + 1) * m.kv_row <= m.ctx * m.kv_row) by (nonlinear_arith)
                requires
                    m.position + 1 <= m.ctx,
                    m.kv_row >= 0,
            ;
        },
        Op::Delta { .. } => {
            assert(m.gdn[slot].len() == h.value_heads() * h.linear_head() * h.linear_head());
        },
        _ => {},
    }
}

/// An operation touches only what belongs to its sort of layer.
pub open spec fn in_place(op: Op, full: bool) -> bool {
    &&& op is Store || op is Attend ==> full
    &&& op is Conv || op is Delta ==> !full
    &&& op matches Op::Conv { x, .. } ==> x == Reg::Qkv
    &&& op matches Op::Store { k, v } ==> k == Reg::KeyTurned && v == Reg::Value
}

/// An operation that fits gives its row its width, keeps the memory fit for the model, and leaves
/// what is kept of earlier tokens as it was.
#[verifier::rlimit(60)]
#[verifier::spinoff_prover]
pub proof fn lemma_op_keeps<
    T,
    F: Fn(usize, u64, Job<T>) -> Vec<T>,
    G: Fn(usize, DeltaJob<T>) -> (Vec<T>, Vec<T>),
>(
    f: F,
    g: G,
    blank: T,
    h: Hyper,
    ops: Seq<Op>,
    full: bool,
    slot: int,
    il: usize,
    k: int,
    a: Progress<T>,
    b: Progress<T>,
)
    requires
        able(f, g, h),
        flaw(h) is None,
        0 < h.d_inner,
        countable(h),
        0 <= k < ops.len(),
        at_home(h, il as int, full, ops[k]),
        forall|r: Reg| #[trigger] ops[k].reads().contains(r) ==> is_there(ops, k, r),
        rows_right(h, ops, k, a.rows),
        serves(h, a.memory),
        a.memory.position < a.memory.ctx,
        slot_there(a.memory, full, slot),
        op_done(f, g, blank, h, slot, il, ops[k], a, b),
    ensures
        rows_right(h, ops, k + 1, b.rows),
        serves(h, b.memory),
        past_kept(a.memory, b.memory),
{
    let op = ops[k];
    lemma_reads(op);
    assert(forall|r: Reg| op.reads().contains(r) ==> is_there(ops, k, r));
    lemma_work_proper(h, full, slot, il as int, op, a);
    match op {
        Op::Delta { out, q, k: key, v, decay, beta } => {
            let work = DeltaWork {
                state: a.memory.gdn[slot],
                q: a.row(q),
                k: a.row(key),
                v: a.row(v),
                decay: a.row(decay),
                beta: a.row(beta),
            };
            assert(ops[k].reads().contains(v));
            let (next, made) = choose|next: Seq<T>, made: Seq<T>|
                #[trigger] state_computed(g, il, work, next, made) && b == a.with_memory(
                    Memory { gdn: a.memory.gdn.update(slot, next), ..a.memory },
                ).with_row(out, made);
            assert(next.len() == a.memory.gdn[slot].len());
            assert(made.len() == a.row(v).len());
            lemma_rows_right_pushed(h, ops, k, a.rows, out, made);
        },
        Op::Store { k: key, v } => {
            assert(ops[k].reads().contains(key) && ops[k].reads().contains(v));
            lemma_rows_right_kept(h, ops, k, a.rows);
            lemma_stored(h, a.memory, slot, a.row(key), a.row(v));
        },
        Op::Show { name, x } => {
            lemma_rows_right_kept(h, ops, k, a.rows);
        },
        Op::Part { out, x, part } => {
            assert(ops[k].reads().contains(x));
            lemma_width_fits(h, out);
            lemma_part_inside(h, part);
            lemma_rows_right_pushed(h, ops, k, a.rows, out, cut_of(op, a, h, blank)->0);
        },
        Op::Pad { out, x } => {
            assert(ops[k].reads().contains(x));
            lemma_rows_right_pushed(h, ops, k, a.rows, out, cut_of(op, a, h, blank)->0);
        },
        Op::Queries { out, x } | Op::Gates { out, x } => {
            assert(ops[k].reads().contains(x));
            lemma_twice(h.n_head, h.head_dim_v);
            lemma_heads_split(a.row(x), h.n_head as nat, h.head_dim_v as nat);
            lemma_rows_right_pushed(h, ops, k, a.rows, out, cut_of(op, a, h, blank)->0);
        },
        _ => {
            let kept = a.with_memory(memory_after(op, a, slot));
            let out = op.writes()->0;
            let made = lemma_row_made(f, g, il, h, work_of(op, a, slot)->0, out, kept, b);
            lemma_rows_right_pushed(h, ops, k, a.rows, out, made);
            if let Op::Conv { x, .. } = op {
                assert(ops[k].reads().contains(x));
                lemma_shifted(h, a.memory, slot, a.row(x));
            }
        },
    }
}

/// No part begins before the row.
pub proof fn lemma_part_inside(h: Hyper, part: Side)
    requires
        flaw(h) is None,
        h.d_inner > 0,
    ensures
        0 <= part_start(h, part),
{
    lemma_linear_head(h);
    assert(0 <= h.group_count * h.linear_head()) by (nonlinear_arith)
        requires
            h.group_count >= 0,
            h.linear_head() >= 0,
    ;
}

proof fn lemma_shifted<T>(h: Hyper, m: Memory<T>, slot: int, row: Seq<T>)
    requires
        serves(h, m),
        0 <= slot < m.conv.len(),
        row.len() == m.conv_row,
    ensures
        serves(h, m.shifted(slot, row)),
        past_kept(m, m.shifted(slot, row)),
{
    let n = m.shifted(slot, row);
    assert(m.conv[slot].len() >= m.conv_row);
    assert forall|s: int| 0 <= s < n.conv.len() implies (#[trigger] n.conv[s]).len() == (
    h.conv_kernel - 1) * n.conv_row by {
        assert(m.conv[s].len() == (h.conv_kernel - 1) * m.conv_row);
    }
}

proof fn lemma_stored<T>(h: Hyper, m: Memory<T>, slot: int, k: Seq<T>, v: Seq<T>)
    requires
        serves(h, m),
        m.position < m.ctx,
        0 <= slot < m.keys.len(),
        k.len() == m.kv_row,
        v.len() == m.kv_row,
    ensures
        serves(h, m.stored(slot, k, v)),
        past_kept(m, m.stored(slot, k, v)),
{
    let n = m.stored(slot, k, v);
    let at = m.position * m.kv_row;
    assert(0 <= at && at + m.kv_row <= m.ctx * m.kv_row) by (nonlinear_arith)
        requires
            at == m.position * m.kv_row,
            0 <= m.position < m.ctx,
            m.kv_row >= 0,
    ;
    assert(m.keys[slot].len() == m.ctx * m.kv_row);
    assert(m.values[slot].len() == m.ctx * m.kv_row);
    assert forall|s: int, p: int| 0 <= s < m.keys.len() && 0 <= p < m.position implies
        #[trigger] m.row_of(n.keys[s], p) == m.row_of(m.keys[s], p) by {
        law_stored_rows_are_read_back(m, slot, k, v, p, s);
    }
    assert forall|s: int, p: int| 0 <= s < m.keys.len() && 0 <= p < m.position implies
        #[trigger] m.row_of(n.values[s], p) == m.row_of(m.values[s], p) by {
        law_stored_rows_are_read_back(m, slot, k, v, p, s);
    }
}

/// Twice a product.
pub proof fn lemma_twice(a: int, b: int)
    ensures
        a * 2 * b == 2 * (a * b),
{
    assert(a * 2 * b == 2 * (a * b)) by (nonlinear_arith);
}

/// Queries and gates of all heads make up half of a projection each.
proof fn lemma_heads_split<T>(full: Seq<T>, heads: nat, w: nat)
    requires
        heads * 2 * w <= full.len(),
    ensures
        queries(full, heads, w).len() == heads * w,
        gates(full, heads, w).len() == heads * w,
    decreases heads,
{
    if heads > 0 {
        let n = (heads - 1) as nat;
        assert(n * 2 * w + 2 * w == heads * 2 * w) by (nonlinear_arith)
            requires
                n == heads - 1,
        ;
        assert(0 <= n * 2 * w) by (nonlinear_arith)
            requires
                n >= 0,
                w >= 0,
        ;
        lemma_heads_split(full, n, w);
        assert(n * w + w == heads * w) by (nonlinear_arith)
            requires
                n == heads - 1,
        ;
    } else {
        assert(0 * w == 0) by (nonlinear_arith);
    }
}

/// The rows that an operation reads, by name.
pub proof fn lemma_reads(op: Op)
    ensures
        match op {
            Op::Norm { x, .. } | Op::Project { x, .. } | Op::AddWeight { x, .. }
            | Op::MulWeight { x, .. } | Op::Conv { x, .. } | Op::Sigmoid { x, .. }
            | Op::Silu { x, .. } | Op::Softplus { x, .. } | Op::Part { x, .. } | Op::Unit { x, .. }
            | Op::Pad { x, .. } | Op::Queries { x, .. } | Op::Gates { x, .. } | Op::Turn { x, .. }
            | Op::Show { x, .. } => op.reads().contains(x),
            Op::Attend { q, .. } => op.reads().contains(q),
            Op::Mul { x, y, .. } | Op::Add { x, y, .. } | Op::Swiglu { x, y, .. } =>
                op.reads().contains(x) && op.reads().contains(y),
            Op::Store { k, v } => op.reads().contains(k) && op.reads().contains(v),
            Op::Delta { q, k, v, decay, beta, .. } => {
                &&& op.reads().contains(q)
                &&& op.reads().contains(k)
                &&& op.reads().contains(v)
                &&& op.reads().contains(decay)
                &&& op.reads().contains(beta)
            },
        },
{
    let r = op.reads();
    assert(r.len() > 0 ==> r.contains(r[0]));
    assert(r.len() > 1 ==> r.contains(r[1]));
    assert(r.len() > 2 ==> r.contains(r[2]));
    assert(r.len() > 3 ==> r.contains(r[3]));
    assert(r.len() > 4 ==> r.contains(r[4]));
}

/// What two changes after each other leave as it was, both together do.
pub proof fn lemma_past_carries<T>(a: Memory<T>, b: Memory<T>, c: Memory<T>)
    requires
        past_kept(a, b),
        past_kept(b, c),
    ensures
        past_kept(a, c),
{
    assert forall|s: int, p: int| 0 <= s < a.keys.len() && 0 <= p < a.position implies
        #[trigger] a.row_of(c.keys[s], p) == a.row_of(a.keys[s], p) by {
        assert(b.row_of(c.keys[s], p) == b.row_of(b.keys[s], p));
        assert(a.row_of(b.keys[s], p) == a.row_of(a.keys[s], p));
    }
    assert forall|s: int, p: int| 0 <= s < a.keys.len() && 0 <= p < a.position implies
        #[trigger] a.row_of(c.values[s], p) == a.row_of(a.values[s], p) by {
        assert(b.row_of(c.values[s], p) == b.row_of(b.values[s], p));
        assert(a.row_of(b.values[s], p) == a.row_of(a.values[s], p));
    }
}

/// The rows that a layer hands on are made by its operations.
pub proof fn lemma_outcomes_there(full: bool)
    ensures
        is_there(ops_of(full), ops_of(full).len() as int, Reg::Out),
        is_there(ops_of(full), ops_of(full).len() as int, Reg::Residual),
        is_there(ops_of(full), ops_of(full).len() as int, Reg::AttnOut),
{
    let ops = ops_of(full);
    if full {
        assert(ops[14].writes() == Some(Reg::AttnOut));
        assert(ops[15].writes() == Some(Reg::Residual));
        assert(ops[21].writes() == Some(Reg::Out));
    } else {
        assert(ops[40].writes() == Some(Reg::AttnOut));
        assert(ops[41].writes() == Some(Reg::Residual));
        assert(ops[54].writes() == Some(Reg::Out));
    }
}

/// The memory that a session begins with has the sizes that its model asks for.
pub proof fn law_fresh_memory_serves<T>(h: Hyper, ctx: int, zero: T)
    requires
        flaw(h) is None,
        h.d_inner > 0,
        h.head_dim_v >= 0,
        ctx >= 0,
    ensures
        serves(h, Memory::fresh(h, ctx, zero)),
{
    let m = Memory::fresh(h, ctx, zero);
    lemma_full_layers_bounded(h, h.n_layer as nat);
    lemma_linear_head(h);
    let row = h.n_head_kv * h.head_dim_v;
    assert(row >= 0) by (nonlinear_arith)
        requires
            row == h.n_head_kv * h.head_dim_v,
            h.n_head_kv >= 0,
            h.head_dim_v >= 0,
    ;
    assert(ctx * row >= 0) by (nonlinear_arith)
        requires
            ctx >= 0,
            row >= 0,
    ;
    let conv = 2 * h.d_inner;
    assert((h.conv_kernel - 1) * conv >= conv) by (nonlinear_arith)
        requires
            h.conv_kernel >= 2,
            conv >= 0,
    ;
    let state = h.value_heads() * h.linear_head() * h.linear_head();
    assert(state >= 0) by (nonlinear_arith)
        requires
            state == h.value_heads() * h.linear_head() * h.linear_head(),
            h.value_heads() * h.linear_head() >= 0,
            h.linear_head() >= 0,
    ;
}

} // verus!
