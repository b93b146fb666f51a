//! Pieces of float work, and what is asked of the arithmetic that does them.

use vstd::prelude::*;

use crate::qwen35::Hyper;
use crate::wiring::{has_weight, Weight};

verus! {

/// A piece of float work, with the rows that it works on.
pub enum Job<'a, T> {
    Norm { x: &'a [T], weight: Weight },
    Project { x: &'a [T], weight: Weight },
    AddWeight { x: &'a [T], weight: Weight },
    MulWeight { x: &'a [T], weight: Weight },
    /// A convolution over a window whose last row is the one at hand.
    Conv { window: &'a [T], weight: Weight },
    Sigmoid { x: &'a [T] },
    Silu { x: &'a [T] },
    Softplus { x: &'a [T] },
    Unit { x: &'a [T] },
    Turn { x: &'a [T], position: usize },
    /// Attention over the first `tokens` rows of keys and values.
    Attend { q: &'a [T], keys: &'a [T], values: &'a [T], tokens: usize },
    Mul { x: &'a [T], y: &'a [T] },
    Add { x: &'a [T], y: &'a [T] },
    Swiglu { x: &'a [T], y: &'a [T] },
}

/// What a [`Job`] holds.
pub enum Work<T> {
    Norm { x: Seq<T>, weight: Weight },
    Project { x: Seq<T>, weight: Weight },
    AddWeight { x: Seq<T>, weight: Weight },
    MulWeight { x: Seq<T>, weight: Weight },
    Conv { window: Seq<T>, weight: Weight },
    Sigmoid { x: Seq<T> },
    Silu { x: Seq<T> },
    Softplus { x: Seq<T> },
    Unit { x: Seq<T> },
    Turn { x: Seq<T>, position: int },
    Attend { q: Seq<T>, keys: Seq<T>, values: Seq<T>, tokens: int },
    Mul { x: Seq<T>, y: Seq<T> },
    Add { x: Seq<T>, y: Seq<T> },
    Swiglu { x: Seq<T>, y: Seq<T> },
}

impl<'a, T> View for Job<'a, T> {
    type V = Work<T>;

    open spec fn view(&self) -> Work<T> {
        match *self {
            Job::Norm { x, weight } => Work::Norm { x: x@, weight },
            Job::Project { x, weight } => Work::Project { x: x@, weight },
            Job::AddWeight { x, weight } => Work::AddWeight { x: x@, weight },
            Job::MulWeight { x, weight } => Work::MulWeight { x: x@, weight },
            Job::Conv { window, weight } => Work::Conv { window: window@, weight },
            Job::Sigmoid { x } => Work::Sigmoid { x: x@ },
            Job::Silu { x } => Work::Silu { x: x@ },
            Job::Softplus { x } => Work::Softplus { x: x@ },
            Job::Unit { x } => Work::Unit { x: x@ },
            Job::Turn { x, position } => Work::Turn { x: x@, position: position as int },
            Job::Attend { q, keys, values, tokens } => Work::Attend {
                q: q@,
                keys: keys@,
                values: values@,
                tokens: tokens as int,
            },
            Job::Mul { x, y } => Work::Mul { x: x@, y: y@ },
            Job::Add { x, y } => Work::Add { x: x@, y: y@ },
            Job::Swiglu { x, y } => Work::Swiglu { x: x@, y: y@ },
        }
    }
}

/// One step of a recurrent state.
pub struct DeltaJob<'a, T> {
    pub state: &'a [T],
    pub q: &'a [T],
    pub k: &'a [T],
    pub v: &'a [T],
    pub decay: &'a [T],
    pub beta: &'a [T],
}

/// What a [`DeltaJob`] holds.
pub struct DeltaWork<T> {
    pub state: Seq<T>,
    pub q: Seq<T>,
    pub k: Seq<T>,
    pub v: Seq<T>,
    pub decay: Seq<T>,
    pub beta: Seq<T>,
}

impl<'a, T> View for DeltaJob<'a, T> {
    type V = DeltaWork<T>;

    open spec fn view(&self) -> DeltaWork<T> {
        DeltaWork {
            state: self.state@,
            q: self.q@,
            k: self.k@,
            v: self.v@,
            decay: self.decay@,
            beta: self.beta@,
        }
    }
}

/// A piece of work that layer `il` of a model may hand out, for a row of width `w`: its rows have
/// the lengths that the work is defined on, and a weight is one that the layer has, with as many
/// elements as the work takes.
pub open spec fn proper<T>(h: Hyper, il: int, w: int, work: Work<T>) -> bool {
    let kv_row = h.n_head_kv * h.head_dim_v;
    &&& 0 <= il < h.n_layer
    &&& match work {
        Work::Norm { x, weight } => {
            &&& has_weight(h, il, weight)
            &&& x.len() == w
            &&& 0 < weight.elems(h) <= w
            &&& w % weight.elems(h) == 0
        },
        Work::Project { x, weight } => {
            &&& has_weight(h, il, weight)
            &&& weight.elems(h) == x.len() * w
        },
        Work::AddWeight { x, weight } | Work::MulWeight { x, weight } => {
            &&& has_weight(h, il, weight)
            &&& x.len() == w
            &&& weight.elems(h) == w
        },
        Work::Conv { window, weight } => {
            &&& has_weight(h, il, weight)
            &&& window.len() == h.conv_kernel * w
            &&& weight.elems(h) == h.conv_kernel * w
        },
        Work::Sigmoid { x } | Work::Silu { x } | Work::Softplus { x } => x.len() == w,
        Work::Unit { x } => x.len() == w && w == h.group_count * h.linear_head(),
        Work::Turn { x, position } => {
            &&& x.len() == w
            &&& 0 < h.head_dim_v
            &&& h.n_rot <= h.head_dim_v
            &&& w % h.head_dim_v == 0
            &&& 0 <= position
        },
        Work::Attend { q, keys, values, tokens } => {
            &&& q.len() == w
            &&& w == h.n_head * h.head_dim_v
            &&& 0 < tokens
            &&& tokens * kv_row <= keys.len()
            &&& tokens * kv_row <= values.len()
        },
        Work::Mul { x, y } | Work::Add { x, y } | Work::Swiglu { x, y } => x.len() == w && y.len()
            == w,
    }
}

/// A step of a state that layer `il` of a model may hand out: the layer is a recurrent one, and
/// state and rows have the lengths of its heads.
pub open spec fn proper_step<T>(h: Hyper, il: int, work: DeltaWork<T>) -> bool {
    &&& 0 <= il < h.n_layer
    &&& !h.full_attention(il)
    &&& work.state.len() == h.value_heads() * h.linear_head() * h.linear_head()
    &&& work.q.len() == h.group_count * h.linear_head()
    &&& work.k.len() == h.group_count * h.linear_head()
    &&& work.v.len() == h.value_heads() * h.linear_head()
    &&& work.decay.len() == h.value_heads()
    &&& work.beta.len() == h.value_heads()
}

/// The float arithmetic of a model takes the work that its layers may hand out, gives rows of the
/// width that it is then asked for, and keeps the size of a state.
pub open spec fn able<
    T,
    F: Fn(usize, u64, Job<T>) -> Vec<T>,
    G: Fn(usize, DeltaJob<T>) -> (Vec<T>, Vec<T>),
>(f: F, g: G, h: Hyper) -> bool {
    &&& forall|il: usize, w: u64, j: Job<T>|
        proper(h, il as int, w as int, j@) ==> #[trigger] f.requires((il, w, j))
    &&& forall|il: usize, w: u64, j: Job<T>, v: Vec<T>|
        proper(h, il as int, w as int, j@) && #[trigger] f.ensures((il, w, j), v) ==> v@.len() == w
    &&& forall|il: usize, j: DeltaJob<T>|
        proper_step(h, il as int, j@) ==> #[trigger] g.requires((il, j))
    &&& forall|il: usize, j: DeltaJob<T>, r: (Vec<T>, Vec<T>)|
        proper_step(h, il as int, j@) && #[trigger] g.ensures((il, j), r) ==> r.0@.len()
            == j.state@.len() && r.1@.len() == j.v@.len()
}

/// `out` is what the arithmetic may make of a piece of work in layer `il`.
pub open spec fn computed<T, F: Fn(usize, u64, Job<T>) -> Vec<T>>(
    f: F,
    il: usize,
    w: u64,
    work: Work<T>,
    out: Seq<T>,
) -> bool {
    exists|j: Job<T>, v: Vec<T>| j@ == work && v@ == out && #[trigger] f.ensures((il, w, j), v)
}

/// `next` and `out` are what the arithmetic may make of a step of a state in layer `il`.
pub open spec fn state_computed<T, G: Fn(usize, DeltaJob<T>) -> (Vec<T>, Vec<T>)>(
    g: G,
    il: usize,
    work: DeltaWork<T>,
    next: Seq<T>,
    out: Seq<T>,
) -> bool {
    exists|j: DeltaJob<T>, r: (Vec<T>, Vec<T>)|
        j@ == work && r.0@ == next && r.1@ == out && #[trigger] g.ensures((il, j), r)
}

} // verus!
