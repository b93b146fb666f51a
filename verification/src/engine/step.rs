//! Running operations, layers, and one token.

use vstd::prelude::*;
use vstd::slice::{slice_subrange, slice_to_vec};

use super::jobs::{able, computed, proper, state_computed, DeltaJob, Job};
use super::laws::{
    at_home, lemma_op_keeps, lemma_outcomes_there, lemma_part_inside, lemma_past_carries,
    lemma_reads, lemma_twice, lemma_work_proper, past_kept, rows_right, serves, slot_there,
};
use super::progress::{
    begun, filled_up, layer_done, left, op_done, ran, row_of, through, work_of, Dump, Progress,
    Token,
};
use crate::error::LoadError;
use crate::layers::{layer_info, lemma_slot_below, LayerInfo, Qwen35Forward};
use crate::qwen35::{flaw, Hyper, Qwen35Config};
use crate::session::{
    context_full, filled, overwritten, split_queries, LayerDump, Memory, NodeCapture,
    Qwen35Session,
};
use crate::wiring::{
    is_there, law_rows_are_made_before_they_are_read, law_state_belongs,
    law_weights_are_checked, law_widths_agree, layer_ops, ops_of, part_start_of, width, width_of, Op, Reg,
};

verus! {

spec fn row_views<T>(rows: Seq<(Reg, Vec<T>)>) -> Seq<(Reg, Seq<T>)> {
    rows.map_values(|p: (Reg, Vec<T>)| (p.0, p.1@))
}

spec fn progress<T: Copy>(
    rows: Seq<(Reg, Vec<T>)>,
    memory: Memory<T>,
    nodes: Option<NodeCapture<T>>,
) -> Progress<T> {
    Progress { rows: row_views(rows), memory, seen: captured(nodes) }
}

fn find_row<'a, T: Copy>(rows: &'a Vec<(Reg, Vec<T>)>, r: Reg) -> (res: &'a [T])
    requires
        row_of(row_views(rows@), r) is Some,
    ensures
        res@ == row_of(row_views(rows@), r)->0,
{
    let ghost all = row_views(rows@);
    let mut i: usize = rows.len();
    proof {
        assert(all.take(i as int) =~= all);
    }
    while i > 0
        invariant
            all == row_views(rows@),
            i <= rows@.len(),
            row_of(all.take(i as int), r) is Some,
            row_of(all.take(i as int), r) == row_of(all, r),
        decreases i,
    {
        proof {
            assert(all.take(i as int).drop_last() =~= all.take(i - 1));
            assert(all.take(i as int).last() == all[i - 1]);
        }
        if rows[i - 1].0 == r {
            return rows[i - 1].1.as_slice();
        }
        i -= 1;
    }
    rows[0].1.as_slice()
}

fn push_row<T: Copy>(rows: &mut Vec<(Reg, Vec<T>)>, out: Reg, row: Vec<T>)
    ensures
        row_views(final(rows)@) == row_views(old(rows)@).push((out, row@)),
{
    let ghost before = rows@;
    rows.push((out, row));
    proof {
        assert(row_views(rows@) =~= row_views(before).push((out, row@)));
    }
}

fn do_job<
    T: Copy,
    F: Fn(usize, u64, Job<T>) -> Vec<T>,
    G: Fn(usize, DeltaJob<T>) -> (Vec<T>, Vec<T>),
>(cfg: &Qwen35Config, il: usize, out: Reg, job: Job<T>, f: &F, g: &G) -> (made: Vec<T>)
    requires
        able(*f, *g, cfg@),
        cfg.small(),
        flaw(cfg@) is None,
        cfg@.d_inner > 0,
        proper(cfg@, il as int, width(cfg@, out), job@),
    ensures
        computed(*f, il, width(cfg@, out) as u64, job@, made@),
{
    let w: u64 = width_of(cfg, out);
    proof {
        assert(f.requires((il, w, job)));
    }
    let made = f(il, w, job);
    proof {
        assert(f.ensures((il, w, job), made));
    }
    made
}

/// The outcome of the float work that an operation hands out.
fn row_by_work<
    T: Copy,
    F: Fn(usize, u64, Job<T>) -> Vec<T>,
    G: Fn(usize, DeltaJob<T>) -> (Vec<T>, Vec<T>),
>(
    cfg: &Qwen35Config,
    slot: usize,
    il: usize,
    op: Op,
    out: Reg,
    rows: &Vec<(Reg, Vec<T>)>,
    s: &Qwen35Session<T>,
    f: &F,
    g: &G,
) -> (made: Vec<T>)
    requires
        able(*f, *g, cfg@),
        cfg.small(),
        flaw(cfg@) is None,
        cfg@.d_inner > 0,
        s@.position < s@.ctx,
        op is Attend ==> slot < s@.keys.len() && slot < s@.values.len(),
        op is Conv ==> slot < s@.conv.len(),
        forall|r: Reg| #[trigger]
            op.reads().contains(r) ==> row_of(row_views(rows@), r) is Some,
        work_of(op, progress::<T>(rows@, s@, None), slot as int) matches Some(work) && proper(
            cfg@,
            il as int,
            width(cfg@, out),
            work,
        ),
    ensures
        computed(
            *f,
            il,
            width(cfg@, out) as u64,
            work_of(op, progress::<T>(rows@, s@, None), slot as int)->0,
            made@,
        ),
{
    proof {
        lemma_reads(op);
    }
    match op {
        Op::Norm { x, weight, .. } => {
            do_job(cfg, il, out, Job::Norm { x: find_row(rows, x), weight }, f, g)
        },
        Op::Project { x, weight, .. } => {
            do_job(cfg, il, out, Job::Project { x: find_row(rows, x), weight }, f, g)
        },
        Op::AddWeight { x, weight, .. } => {
            do_job(cfg, il, out, Job::AddWeight { x: find_row(rows, x), weight }, f, g)
        },
        Op::MulWeight { x, weight, .. } => {
            do_job(cfg, il, out, Job::MulWeight { x: find_row(rows, x), weight }, f, g)
        },
        Op::Conv { x, weight, .. } => {
            let window = s.conv_window(slot, find_row(rows, x));
            do_job(cfg, il, out, Job::Conv { window: window.as_slice(), weight }, f, g)
        },
        Op::Sigmoid { x, .. } => {
            do_job(cfg, il, out, Job::Sigmoid { x: find_row(rows, x) }, f, g)
        },
        Op::Silu { x, .. } => do_job(cfg, il, out, Job::Silu { x: find_row(rows, x) }, f, g),
        Op::Softplus { x, .. } => {
            do_job(cfg, il, out, Job::Softplus { x: find_row(rows, x) }, f, g)
        },
        Op::Unit { x, .. } => do_job(cfg, il, out, Job::Unit { x: find_row(rows, x) }, f, g),
        Op::Turn { x, .. } => {
            let job = Job::Turn { x: find_row(rows, x), position: s.position() };
            do_job(cfg, il, out, job, f, g)
        },
        Op::Attend { q, .. } => {
            let job = Job::Attend {
                q: find_row(rows, q),
                keys: s.keys(slot),
                values: s.values(slot),
                tokens: s.tokens_at_hand(),
            };
            do_job(cfg, il, out, job, f, g)
        },
        Op::Mul { x, y, .. } => {
            let job = Job::Mul { x: find_row(rows, x), y: find_row(rows, y) };
            do_job(cfg, il, out, job, f, g)
        },
        Op::Add { x, y, .. } => {
            let job = Job::Add { x: find_row(rows, x), y: find_row(rows, y) };
            do_job(cfg, il, out, job, f, g)
        },
        Op::Swiglu { x, y, .. } => {
            let job = Job::Swiglu { x: find_row(rows, x), y: find_row(rows, y) };
            do_job(cfg, il, out, job, f, g)
        },
        _ => Vec::new(),
    }
}

fn run_op<
    T: Copy,
    F: Fn(usize, u64, Job<T>) -> Vec<T>,
    G: Fn(usize, DeltaJob<T>) -> (Vec<T>, Vec<T>),
>(
    cfg: &Qwen35Config,
    full: bool,
    slot: usize,
    il: usize,
    op: Op,
    ops: Ghost<Seq<Op>>,
    k: Ghost<int>,
    rows: &mut Vec<(Reg, Vec<T>)>,
    s: &mut Qwen35Session<T>,
    nodes: &mut Option<NodeCapture<T>>,
    blank: T,
    f: &F,
    g: &G,
)
    requires
        able(*f, *g, cfg@),
        cfg.small(),
        flaw(cfg@) is None,
        0 < cfg@.d_inner,
        0 <= k@ < ops@.len(),
        op == ops@[k@],
        at_home(cfg@, il as int, full, op),
        forall|r: Reg| #[trigger] ops@[k@].reads().contains(r) ==> is_there(ops@, k@, r),
        rows_right(cfg@, ops@, k@, row_views(old(rows)@)),
        serves(cfg@, old(s)@),
        old(s)@.position < old(s)@.ctx,
        slot_there(old(s)@, full, slot as int),
        *old(nodes) matches Some(c) ==> c.seen().len() > 0,
    ensures
        op_done(
            *f,
            *g,
            blank,
            cfg@,
            slot as int,
            il,
            op,
            progress(old(rows)@, old(s)@, *old(nodes)),
            progress(final(rows)@, final(s)@, *final(nodes)),
        ),
        *final(nodes) matches Some(c) ==> c.seen().len() > 0,
{
    let ghost a = progress(rows@, s@, *nodes);
    let ghost h = cfg@;
    proof {
        assert forall|r: Reg| #[trigger] op.reads().contains(r) implies row_of(
            row_views(rows@),
            r,
        ) is Some && row_of(row_views(rows@), r)->0.len() == width(h, r) by {
            assert(ops@[k@].reads().contains(r));
            assert(is_there(ops@, k@, r));
        }
        lemma_reads(op);
        lemma_work_proper(h, full, slot as int, il as int, op, a);
    }
    match op {
        Op::Delta { out, q, k: key, v, decay, beta } => {
            let state = s.gdn_state(slot);
            let job = DeltaJob {
                state: state.as_slice(),
                q: find_row(rows, q),
                k: find_row(rows, key),
                v: find_row(rows, v),
                decay: find_row(rows, decay),
                beta: find_row(rows, beta),
            };
            proof {
                assert(g.requires((il, job)));
            }
            let (next, made) = g(il, job);
            proof {
                assert(g.ensures((il, job), (next, made)));
                assert(state_computed(*g, il, job@, next@, made@));
            }
            s.set_gdn_state(slot, next);
            push_row(rows, out, made);
        },
        Op::Pad { out, x } => {
            let w: u64 = width_of(cfg, out);
            let made = fill_up(slice_to_vec(find_row(rows, x)), w, blank);
            push_row(rows, out, made);
        },
        Op::Store { k: key, v } => {
            s.store(slot, find_row(rows, key), find_row(rows, v));
        },
        Op::Show { name, x } => {
            match nodes {
                Some(c) => {
                    c.push_node(il, name, find_row(rows, x));
                },
                None => {},
            }
        },
        Op::Part { out, x, part } => {
            let row = find_row(rows, x);
            let from: u64 = part_start_of(cfg, part);
            let w: u64 = width_of(cfg, out);
            proof {
                lemma_part_inside(h, part);
                assert(row@.len() == row.len());
            }
            let made = slice_to_vec(slice_subrange(row, from as usize, from as usize + w as usize));
            push_row(rows, out, made);
        },
        Op::Queries { out, x } => {
            proof {
                lemma_twice(h.n_head, h.head_dim_v);
            }
            let (made, _) = split_queries(find_row(rows, x), cfg.n_head, cfg.head_dim_v);
            push_row(rows, out, made);
        },
        Op::Gates { out, x } => {
            proof {
                lemma_twice(h.n_head, h.head_dim_v);
            }
            let (_, made) = split_queries(find_row(rows, x), cfg.n_head, cfg.head_dim_v);
            push_row(rows, out, made);
        },
        _ => {
            if let Some(out) = op.made() {
                let made = row_by_work(cfg, slot, il, op, out, rows, s, f, g);
                if let Op::Conv { x, .. } = op {
                    s.conv_shift(slot, find_row(rows, x));
                }
                push_row(rows, out, made);
            }
        },
    }
}

fn fill_up<T: Copy>(row: Vec<T>, w: u64, blank: T) -> (res: Vec<T>)
    requires
        row@.len() <= w,
    ensures
        res@ == filled_up(row@, w as int, blank),
{
    let ghost short = row@;
    let mut made = row;
    proof {
        assert(made@ =~= filled_up(short, made@.len() as int, blank));
    }
    while (made.len() as u64) < w
        invariant
            short.len() <= made@.len() <= w,
            made@ == filled_up(short, made@.len() as int, blank),
        decreases w - made@.len(),
    {
        made.push(blank);
        proof {
            assert(made@ =~= filled_up(short, made@.len() as int, blank));
        }
    }
    made
}

/// The rows that a layer hands on.
struct LayerRows<T> {
    out: Vec<T>,
    residual: Vec<T>,
    attn_out: Vec<T>,
}

fn run_layer<
    T: Copy,
    F: Fn(usize, u64, Job<T>) -> Vec<T>,
    G: Fn(usize, DeltaJob<T>) -> (Vec<T>, Vec<T>),
>(
    cfg: &Qwen35Config,
    info: LayerInfo,
    il: usize,
    x: &[T],
    s: &mut Qwen35Session<T>,
    nodes: &mut Option<NodeCapture<T>>,
    blank: T,
    f: &F,
    g: &G,
) -> (res: LayerRows<T>)
    requires
        able(*f, *g, cfg@),
        cfg.small(),
        flaw(cfg@) is None,
        0 < cfg@.d_inner,
        !info.full ==> cfg@.d_inner <= cfg@.n_embd,
        il < cfg@.n_layer,
        info.full == cfg@.full_attention(il as int),
        x@.len() == cfg@.n_embd,
        serves(cfg@, old(s)@),
        old(s)@.position < old(s)@.ctx,
        slot_there(old(s)@, info.full, info.slot as int),
        *old(nodes) matches Some(c) ==> c.seen().len() > 0,
    ensures
        exists|p: Progress<T>|
            {
                &&& #[trigger] ran(
                    *f,
                    *g,
                    blank,
                    cfg@,
                    info.slot as int,
                    il,
                    ops_of(info.full),
                    Progress {
                        rows: seq![(Reg::Input, x@)],
                        memory: old(s)@,
                        seen: captured(*old(nodes)),
                    },
                    p,
                )
                &&& p.memory == final(s)@
                &&& p.seen == captured(*final(nodes))
                &&& res.out@ == p.row(Reg::Out)
                &&& res.residual@ == p.row(Reg::Residual)
                &&& res.attn_out@ == p.row(Reg::AttnOut)
            },
        res.out@.len() == cfg@.n_embd,
        res.residual@.len() == cfg@.n_embd,
        res.attn_out@.len() == cfg@.n_embd,
        serves(cfg@, final(s)@),
        past_kept(old(s)@, final(s)@),
        *final(nodes) matches Some(c) ==> c.seen().len() > 0,
{
    let ghost h = cfg@;
    let ghost slot = info.slot as int;
    let ghost all = ops_of(info.full);
    let ghost start = Progress {
        rows: seq![(Reg::Input, x@)],
        memory: s@,
        seen: captured(*nodes),
    };
    let ops = layer_ops(info.full);
    let mut rows: Vec<(Reg, Vec<T>)> = Vec::new();
    push_row(&mut rows, Reg::Input, slice_to_vec(x));
    let mut k: usize = 0;
    proof {
        assert(row_views(rows@) =~= start.rows);
        assert(all.take(0) =~= Seq::<Op>::empty());
        assert(progress(rows@, s@, *nodes) =~= start);
        assert forall|r: Reg| #[trigger] is_there(all, 0, r) implies row_of(
            row_views(rows@),
            r,
        ) is Some && row_of(row_views(rows@), r)->0.len() == width(h, r) by {
            assert(r == Reg::Input);
            assert(row_views(rows@).last().0 == Reg::Input);
        }
    }
    while k < ops.len()
        invariant
            able(*f, *g, h),
            il < h.n_layer,
            info.full == h.full_attention(il as int),
            cfg.small(),
            flaw(h) is None,
            0 < h.d_inner,
            !info.full ==> h.d_inner <= h.n_embd,
            h == cfg@,
            slot == info.slot,
            all == ops_of(info.full),
            ops@ == all,
            k <= all.len(),
            ran(
                *f,
                *g,
                blank,
                h,
                slot,
                il,
                all.take(k as int),
                start,
                progress(rows@, s@, *nodes),
            ),
            rows_right(h, all, k as int, row_views(rows@)),
            serves(h, s@),
            s@.position < s@.ctx,
            slot_there(s@, info.full, slot),
            past_kept(start.memory, s@),
            *nodes matches Some(c) ==> c.seen().len() > 0,
        decreases all.len() - k,
    {
        let op = ops[k];
        let ghost before = progress(rows@, s@, *nodes);
        proof {
            law_rows_are_made_before_they_are_read(info.full, k as int);
            law_widths_agree(h, info.full, k as int);
            law_state_belongs(info.full, k as int);
            law_weights_are_checked(h, il as int, k as int);
        }
        run_op(
            cfg,
            info.full,
            info.slot,
            il,
            op,
            Ghost(all),
            Ghost(k as int),
            &mut rows,
            s,
            nodes,
            blank,
            f,
            g,
        );
        let ghost after = progress(rows@, s@, *nodes);
        proof {
            lemma_op_keeps(*f, *g, blank, h, all, info.full, slot, il, k as int, before, after);
            lemma_past_carries(start.memory, before.memory, after.memory);
            assert(all.take(k + 1).drop_last() =~= all.take(k as int));
            assert(all.take(k + 1).last() == op);
            assert(op_done(*f, *g, blank, h, slot, il, all.take(k + 1).last(), before, after));
        }
        k += 1;
    }
    let ghost p = progress(rows@, s@, *nodes);
    proof {
        assert(all.take(k as int) =~= all);
        lemma_outcomes_there(info.full);
        assert(p.rows == row_views(rows@));
    }
    let out = slice_to_vec(find_row(&rows, Reg::Out));
    let residual = slice_to_vec(find_row(&rows, Reg::Residual));
    let attn_out = slice_to_vec(find_row(&rows, Reg::AttnOut));
    proof {
        assert(ran(*f, *g, blank, h, slot, il, all, start, p));
    }
    LayerRows { out, residual, attn_out }
}

/// The outcomes noted in a [`LayerDump`].
pub open spec fn noted<T>(dump: Option<LayerDump<T>>) -> Option<Dump<T>> {
    match dump {
        None => None,
        Some(d) => Some(
            Dump { l_out: d.l_out@, residual: d.attn_residual@, linear: d.linear_attn_out@ },
        ),
    }
}

/// What has been shown, with a new token begun.
pub open spec fn new_token<T>(seen: Option<Seq<Seq<(Seq<char>, Seq<T>)>>>) -> Option<
    Seq<Seq<(Seq<char>, Seq<T>)>>,
> {
    match seen {
        None => None,
        Some(s) => Some(s.push(Seq::empty())),
    }
}

/// What a capture has shown, if there is one.
pub open spec fn captured<T: Copy>(nodes: Option<NodeCapture<T>>) -> Option<
    Seq<Seq<(Seq<char>, Seq<T>)>>,
> {
    match nodes {
        Some(c) => Some(c.seen()),
        None => None,
    }
}

/// A dump has a row for every layer.
pub open spec fn dump_fits<T>(h: Hyper, dump: Option<Dump<T>>) -> bool {
    dump matches Some(d) ==> {
        &&& h.n_layer * h.n_embd <= d.l_out.len()
        &&& h.n_layer * h.n_embd <= d.residual.len()
        &&& h.n_layer * h.n_embd <= d.linear.len()
    }
}

/// Notes the outcome of a layer.
fn note<T: Copy>(dump: &mut Option<LayerDump<T>>, il: usize, rows: &LayerRows<T>, linear: &[T], n: Ghost<
    int,
>)
    requires
        rows.out@.len() == n@,
        rows.residual@.len() == n@,
        linear@.len() == n@,
        noted(*old(dump)) matches Some(d) ==> {
            &&& il * n@ + n@ <= d.l_out.len()
            &&& il * n@ + n@ <= d.residual.len()
            &&& il * n@ + n@ <= d.linear.len()
        },
    ensures
        noted(*final(dump)) == match noted(*old(dump)) {
            None => None,
            Some(d) => Some(
                Dump {
                    l_out: overwritten(d.l_out, il * n@, rows.out@),
                    residual: overwritten(d.residual, il * n@, rows.residual@),
                    linear: overwritten(d.linear, il * n@, linear@),
                },
            ),
        },
{
    match dump {
        Some(d) => {
            d.push(il, rows.out.as_slice(), rows.residual.as_slice(), linear);
        },
        None => {},
    }
}

impl<'m> Qwen35Forward<'m> {
    /// One token through all layers. The outcome of the last layer comes back, and the session
    /// moves on by one token; a token for which there is no room is refused, and nothing changes.
    /// Outcomes and rows are noted where that is asked for. A model with recurrent layers must have
    /// a linear part that is no wider than its embedding.
    pub fn step<
        T: Copy,
        F: Fn(usize, u64, Job<T>) -> Vec<T>,
        G: Fn(usize, DeltaJob<T>) -> (Vec<T>, Vec<T>),
    >(
        &self,
        s: &mut Qwen35Session<T>,
        x_in: &[T],
        dump: &mut Option<LayerDump<T>>,
        nodes: &mut Option<NodeCapture<T>>,
        blank: T,
        f: &F,
        g: &G,
    ) -> (res: Result<Vec<T>, LoadError>)
        requires
            self.wf(),
            able(*f, *g, self.model().cfg),
            self.model().cfg.full_attn_interval != 1 ==> self.model().cfg.d_inner
                <= self.model().cfg.n_embd,
            x_in@.len() == self.model().cfg.n_embd,
            serves(self.model().cfg, old(s)@),
            dump_fits(self.model().cfg, noted(*old(dump))),
        ensures
            old(s)@.position >= old(s)@.ctx ==> {
                &&& res is Err
                &&& res->Err_0@ == context_full(old(s)@.position, old(s)@.ctx)
                &&& final(s)@ == old(s)@
                &&& *final(dump) == *old(dump)
                &&& *final(nodes) == *old(nodes)
            },
            old(s)@.position < old(s)@.ctx ==> {
                &&& res is Ok
                &&& res->Ok_0@.len() == self.model().cfg.n_embd
                &&& serves(self.model().cfg, final(s)@)
                &&& exists|t: Token<T>|
                    {
                        &&& #[trigger] through(
                            *f,
                            *g,
                            blank,
                            self.index(),
                            self.model().cfg,
                            self.model().cfg.n_layer as nat,
                            Token {
                                x: x_in@,
                                memory: old(s)@,
                                seen: new_token(captured(*old(nodes))),
                                dump: noted(*old(dump)),
                            },
                            t,
                        )
                        &&& res->Ok_0@ == t.x
                        &&& final(s)@ == (Memory { position: t.memory.position + 1, ..t.memory })
                        &&& captured(*final(nodes)) == t.seen
                        &&& noted(*final(dump)) == t.dump
                        &&& past_kept(old(s)@, t.memory)
                    }
            },
    {
        if let Err(e) = s.begin() {
            return Err(e);
        }
        let ghost file = self.index();
        let ghost h = self.model().cfg;
        proof {
            self.law_open_model_is_checked();
        }
        let cfg = self.cfg();
        let ghost start = Token {
            x: x_in@,
            memory: s@,
            seen: new_token(captured(*nodes)),
            dump: noted(*dump),
        };
        match nodes {
            Some(c) => {
                c.begin_token();
            },
            None => {},
        }
        let mut x = slice_to_vec(x_in);
        let mut il: usize = 0;
        let ghost mut now = start;
        while il < cfg.n_layer
            invariant
                self.wf(),
                able(*f, *g, h),
                cfg.small(),
                h == cfg@,
                h == self.model().cfg,
                file == self.index(),
                flaw(h) is None,
                0 < h.d_inner,
                h.full_attn_interval != 1 ==> h.d_inner <= h.n_embd,
                il <= cfg.n_layer,
                through(*f, *g, blank, file, h, il as nat, start, now),
                now == (Token {
                    x: x@,
                    memory: s@,
                    seen: captured(*nodes),
                    dump: noted(*dump),
                }),
                x@.len() == h.n_embd,
                serves(h, s@),
                s@.position < s@.ctx,
                past_kept(start.memory, s@),
                dump_fits(h, noted(*dump)),
                *nodes matches Some(c) ==> c.seen().len() > 0,
            decreases cfg.n_layer - il,
        {
            let info = self.layer(il);
            let ghost before = now;
            let ghost memory = s@;
            proof {
                lemma_slot_below(file, h, il as int);
                assert(h.full_attn_interval == 1 ==> h.full_attention(il as int));
                assert(0 <= il * h.n_embd && il * h.n_embd + h.n_embd <= h.n_layer * h.n_embd)
                    by (nonlinear_arith)
                    requires
                        0 <= il < h.n_layer,
                        h.n_embd >= 0,
                ;
            }
            let rows = run_layer(cfg, info, il, x.as_slice(), s, nodes, blank, f, g);
            let ghost p = choose|p: Progress<T>|
                {
                    &&& #[trigger] ran(
                        *f,
                        *g,
                        blank,
                        h,
                        info.slot as int,
                        il,
                        ops_of(info.full),
                        begun(before),
                        p,
                    )
                    &&& p.memory == s@
                    &&& p.seen == captured(*nodes)
                    &&& rows.out@ == p.row(Reg::Out)
                    &&& rows.residual@ == p.row(Reg::Residual)
                    &&& rows.attn_out@ == p.row(Reg::AttnOut)
                };
            if info.full {
                let zeros = filled(blank, cfg.n_embd);
                note(dump, il, &rows, zeros.as_slice(), Ghost(h.n_embd));
            } else {
                note(dump, il, &rows, rows.attn_out.as_slice(), Ghost(h.n_embd));
            }
            x = rows.out;
            proof {
                now = Token { x: x@, memory: s@, seen: captured(*nodes), dump: noted(*dump) };
                assert(begun(before) =~= Progress {
                    rows: seq![(Reg::Input, before.x)],
                    memory,
                    seen: before.seen,
                });
                assert(now =~= left(h, info.full, il as int, blank, before, p));
                assert(ran(
                    *f,
                    *g,
                    blank,
                    h,
                    layer_info(file, h, il as int).slot as int,
                    (il as int) as usize,
                    ops_of(layer_info(file, h, il as int).full),
                    begun(before),
                    p,
                ));
                let n = (il + 1) as nat;
                assert(layer_done(*f, *g, blank, file, h, n - 1, before, now));
                assert(through(*f, *g, blank, file, h, (n - 1) as nat, start, before));
                assert(through(*f, *g, blank, file, h, n, start, now));
                lemma_past_carries(start.memory, memory, s@);
            }
            il += 1;
        }
        s.advance();
        Ok(x)
    }
}

} // verus!
