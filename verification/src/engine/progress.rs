//! What operations, layers and all layers together make of a token.

use vstd::prelude::*;

use super::jobs::{computed, state_computed, DeltaJob, DeltaWork, Job, Work};
use crate::gguf::reader::Gguf;
use crate::layers::layer_info;
use crate::qwen35::Hyper;
use crate::session::{gates, node_name, overwritten, queries, Memory};
use crate::wiring::{ops_of, part_start, width, Op, Reg};

verus! {

/// How far a layer has come: the rows that it has made, what is kept, and what has been shown.
#[verifier::ext_equal]
pub struct Progress<T> {
    pub rows: Seq<(Reg, Seq<T>)>,
    pub memory: Memory<T>,
    pub seen: Option<Seq<Seq<(Seq<char>, Seq<T>)>>>,
}

/// The row last made under a name.
pub open spec fn row_of<T>(rows: Seq<(Reg, Seq<T>)>, r: Reg) -> Option<Seq<T>>
    decreases rows.len(),
{
    if rows.len() == 0 {
        None
    } else if rows.last().0 == r {
        Some(rows.last().1)
    } else {
        row_of(rows.drop_last(), r)
    }
}

/// A row with blanks behind it, up to a width.
pub open spec fn filled_up<T>(row: Seq<T>, w: int, blank: T) -> Seq<T> {
    row + Seq::new((w - row.len()) as nat, |i: int| blank)
}

impl<T> Progress<T> {
    /// The row last made under a name.
    pub open spec fn row(self, r: Reg) -> Seq<T> {
        row_of(self.rows, r)->0
    }

    /// A new row.
    pub open spec fn with_row(self, r: Reg, row: Seq<T>) -> Progress<T> {
        Progress { rows: self.rows.push((r, row)), ..self }
    }

    /// Another memory.
    pub open spec fn with_memory(self, memory: Memory<T>) -> Progress<T> {
        Progress { memory, ..self }
    }

    /// A row shown under a name.
    pub open spec fn with_shown(self, name: Seq<char>, il: int, row: Seq<T>) -> Progress<T> {
        match self.seen {
            None => self,
            Some(s) => Progress {
                seen: Some(
                    s.drop_last().push(s.last().push((node_name(name, il), row))),
                ),
                ..self
            },
        }
    }
}

/// A piece of work was done, and its outcome is a new row.
pub open spec fn row_made<T, F: Fn(usize, u64, Job<T>) -> Vec<T>>(
    f: F,
    il: usize,
    h: Hyper,
    work: Work<T>,
    out: Reg,
    a: Progress<T>,
    b: Progress<T>,
) -> bool {
    exists|made: Seq<T>|
        #[trigger] computed(f, il, width(h, out) as u64, work, made) && b == a.with_row(out, made)
}

/// A step of the state of a layer was made.
pub open spec fn state_made<T, G: Fn(usize, DeltaJob<T>) -> (Vec<T>, Vec<T>)>(
    g: G,
    il: usize,
    slot: int,
    work: DeltaWork<T>,
    out: Reg,
    a: Progress<T>,
    b: Progress<T>,
) -> bool {
    exists|next: Seq<T>, made: Seq<T>|
        #[trigger] state_computed(g, il, work, next, made) && b == a.with_memory(
            Memory { gdn: a.memory.gdn.update(slot, next), ..a.memory },
        ).with_row(out, made)
}

/// The piece of float work that an operation hands out; `None` for one that hands out none, or
/// that makes a step of a state.
pub open spec fn work_of<T>(op: Op, a: Progress<T>, slot: int) -> Option<Work<T>> {
    match op {
        Op::Norm { x, weight, .. } => Some(Work::Norm { x: a.row(x), weight }),
        Op::Project { x, weight, .. } => Some(Work::Project { x: a.row(x), weight }),
        Op::AddWeight { x, weight, .. } => Some(Work::AddWeight { x: a.row(x), weight }),
        Op::MulWeight { x, weight, .. } => Some(Work::MulWeight { x: a.row(x), weight }),
        Op::Conv { x, weight, .. } => Some(
            Work::Conv { window: a.memory.conv[slot] + a.row(x), weight },
        ),
        Op::Sigmoid { x, .. } => Some(Work::Sigmoid { x: a.row(x) }),
        Op::Silu { x, .. } => Some(Work::Silu { x: a.row(x) }),
        Op::Softplus { x, .. } => Some(Work::Softplus { x: a.row(x) }),
        Op::Unit { x, .. } => Some(Work::Unit { x: a.row(x) }),
        Op::Turn { x, .. } => Some(Work::Turn { x: a.row(x), position: a.memory.position }),
        Op::Attend { q, .. } => Some(
            Work::Attend {
                q: a.row(q),
                keys: a.memory.keys[slot],
                values: a.memory.values[slot],
                tokens: a.memory.position + 1,
            },
        ),
        Op::Mul { x, y, .. } => Some(Work::Mul { x: a.row(x), y: a.row(y) }),
        Op::Add { x, y, .. } => Some(Work::Add { x: a.row(x), y: a.row(y) }),
        Op::Swiglu { x, y, .. } => Some(Work::Swiglu { x: a.row(x), y: a.row(y) }),
        Op::Part { .. } | Op::Delta { .. } | Op::Pad { .. } | Op::Queries { .. }
        | Op::Gates { .. } | Op::Store { .. } | Op::Show { .. } => None,
    }
}

/// The row that an operation makes of another without float work: it cuts it out, or fills it up.
pub open spec fn cut_of<T>(op: Op, a: Progress<T>, h: Hyper, blank: T) -> Option<Seq<T>> {
    match op {
        Op::Part { out, x, part } => Some(
            a.row(x).subrange(
                part_start(h, part),
                part_start(h, part) + width(h, out),
            ),
        ),
        Op::Pad { out, x } => Some(filled_up(a.row(x), width(h, out), blank)),
        Op::Queries { x, .. } => Some(
            queries(a.row(x), h.n_head as nat, h.head_dim_v as nat),
        ),
        Op::Gates { x, .. } => Some(gates(a.row(x), h.n_head as nat, h.head_dim_v as nat)),
        _ => None,
    }
}

/// What is kept after an operation that is no step of a state: a convolution takes its row into
/// the window, and keys and values are written down.
pub open spec fn memory_after<T>(op: Op, a: Progress<T>, slot: int) -> Memory<T> {
    match op {
        Op::Conv { x, .. } => a.memory.shifted(slot, a.row(x)),
        Op::Store { k, v } => a.memory.stored(slot, a.row(k), a.row(v)),
        _ => a.memory,
    }
}

/// What operation `op` of layer `il` makes of a layer's progress.
pub open spec fn op_done<
    T,
    F: Fn(usize, u64, Job<T>) -> Vec<T>,
    G: Fn(usize, DeltaJob<T>) -> (Vec<T>, Vec<T>),
>(
    f: F,
    g: G,
    blank: T,
    h: Hyper,
    slot: int,
    il: usize,
    op: Op,
    a: Progress<T>,
    b: Progress<T>,
) -> bool {
    let kept = a.with_memory(memory_after(op, a, slot));
    match op {
        Op::Delta { out, q, k, v, decay, beta } => state_made(
            g,
            il,
            slot,
            DeltaWork {
                state: a.memory.gdn[slot],
                q: a.row(q),
                k: a.row(k),
                v: a.row(v),
                decay: a.row(decay),
                beta: a.row(beta),
            },
            out,
            a,
            b,
        ),
        Op::Store { .. } => b == kept,
        Op::Show { name, x } => b == a.with_shown(name@, il as int, a.row(x)),
        Op::Part { out, .. } | Op::Pad { out, .. } | Op::Queries { out, .. }
        | Op::Gates { out, .. } => b == a.with_row(out, cut_of(op, a, h, blank)->0),
        _ => row_made(f, il, h, work_of(op, a, slot)->0, op.writes()->0, kept, b),
    }
}

/// What operations make of a layer's progress, one after the other.
pub open spec fn ran<
    T,
    F: Fn(usize, u64, Job<T>) -> Vec<T>,
    G: Fn(usize, DeltaJob<T>) -> (Vec<T>, Vec<T>),
>(
    f: F,
    g: G,
    blank: T,
    h: Hyper,
    slot: int,
    il: usize,
    ops: Seq<Op>,
    a: Progress<T>,
    b: Progress<T>,
) -> bool
    decreases ops.len(),
{
    if ops.len() == 0 {
        b == a
    } else {
        exists|m: Progress<T>|
            #[trigger] op_done(f, g, blank, h, slot, il, ops.last(), m, b) && ran(
                f,
                g,
                blank,
                h,
                slot,
                il,
                ops.drop_last(),
                a,
                m,
            )
    }
}

/// The outcomes of the layers so far, a row for each.
#[verifier::ext_equal]
pub struct Dump<T> {
    pub l_out: Seq<T>,
    pub residual: Seq<T>,
    pub linear: Seq<T>,
}

/// A token on its way through the layers: its row, what is kept, and what has been noted of it.
#[verifier::ext_equal]
pub struct Token<T> {
    pub x: Seq<T>,
    pub memory: Memory<T>,
    pub seen: Option<Seq<Seq<(Seq<char>, Seq<T>)>>>,
    pub dump: Option<Dump<T>>,
}

/// The progress of a layer that has only its input.
pub open spec fn begun<T>(t: Token<T>) -> Progress<T> {
    Progress { rows: seq![(Reg::Input, t.x)], memory: t.memory, seen: t.seen }
}

/// A token after layer `il`, given how far the layer has come.
pub open spec fn left<T>(
    h: Hyper,
    full: bool,
    il: int,
    blank: T,
    t: Token<T>,
    p: Progress<T>,
) -> Token<T> {
    let linear = if full {
        Seq::new(h.n_embd as nat, |i: int| blank)
    } else {
        p.row(Reg::AttnOut)
    };
    let at = il * h.n_embd;
    Token {
        x: p.row(Reg::Out),
        memory: p.memory,
        seen: p.seen,
        dump: match t.dump {
            None => None,
            Some(d) => Some(
                Dump {
                    l_out: overwritten(d.l_out, at, p.row(Reg::Out)),
                    residual: overwritten(d.residual, at, p.row(Reg::Residual)),
                    linear: overwritten(d.linear, at, linear),
                },
            ),
        },
    }
}

/// What layer `il` makes of a token.
pub open spec fn layer_done<
    T,
    F: Fn(usize, u64, Job<T>) -> Vec<T>,
    G: Fn(usize, DeltaJob<T>) -> (Vec<T>, Vec<T>),
>(f: F, g: G, blank: T, file: Gguf, h: Hyper, il: int, a: Token<T>, b: Token<T>) -> bool {
    let info = layer_info(file, h, il);
    exists|p: Progress<T>|
        #[trigger] ran(
            f,
            g,
            blank,
            h,
            info.slot as int,
            il as usize,
            ops_of(info.full),
            begun(a),
            p,
        ) && b == left(h, info.full, il, blank, a, p)
}

/// What the first `n` layers make of a token.
pub open spec fn through<
    T,
    F: Fn(usize, u64, Job<T>) -> Vec<T>,
    G: Fn(usize, DeltaJob<T>) -> (Vec<T>, Vec<T>),
>(f: F, g: G, blank: T, file: Gguf, h: Hyper, n: nat, a: Token<T>, b: Token<T>) -> bool
    decreases n,
{
    if n == 0 {
        b == a
    } else {
        exists|m: Token<T>|
            #[trigger] layer_done(f, g, blank, file, h, n - 1, m, b) && through(
                f,
                g,
                blank,
                file,
                h,
                (n - 1) as nat,
                a,
                m,
            )
    }
}

} // verus!
