//! What the operations of a layer amount to: the outcome of each as a term over what came in.
//!
//! A term says by which operations a row came about, down to the row that entered the layer. The
//! names of rows do not occur in it.

use vstd::prelude::*;

use crate::engine::laws::lemma_reads;
use crate::wiring::{law_rows_are_made_once, ops_of, Op, Reg, Side, Weight};

verus! {

/// How a row came about.
pub enum Term {
    Input,
    Norm(Box<Term>, Weight),
    Project(Box<Term>, Weight),
    AddWeight(Box<Term>, Weight),
    MulWeight(Box<Term>, Weight),
    Conv(Box<Term>, Weight),
    Sigmoid(Box<Term>),
    Silu(Box<Term>),
    Softplus(Box<Term>),
    Part(Box<Term>, Side),
    Unit(Box<Term>),
    Delta { q: Box<Term>, k: Box<Term>, v: Box<Term>, decay: Box<Term>, beta: Box<Term> },
    Pad(Box<Term>),
    Queries(Box<Term>),
    Gates(Box<Term>),
    Turn(Box<Term>),
    /// Attention of queries over keys and values, those that were written down last among them.
    Attend { q: Box<Term>, k: Box<Term>, v: Box<Term> },
    Mul(Box<Term>, Box<Term>),
    Add(Box<Term>, Box<Term>),
    Swiglu(Box<Term>, Box<Term>),
    /// Nothing made the row.
    Missing,
}

impl Term {
    pub open spec fn norm(self, w: Weight) -> Term {
        Term::Norm(Box::new(self), w)
    }

    pub open spec fn project(self, w: Weight) -> Term {
        Term::Project(Box::new(self), w)
    }

    pub open spec fn part(self, side: Side) -> Term {
        Term::Part(Box::new(self), side)
    }

    pub open spec fn unit(self) -> Term {
        Term::Unit(Box::new(self))
    }

    pub open spec fn pad(self) -> Term {
        Term::Pad(Box::new(self))
    }

    pub open spec fn silu(self) -> Term {
        Term::Silu(Box::new(self))
    }

    pub open spec fn sigmoid(self) -> Term {
        Term::Sigmoid(Box::new(self))
    }

    pub open spec fn turn(self) -> Term {
        Term::Turn(Box::new(self))
    }

    pub open spec fn times(self, other: Term) -> Term {
        Term::Mul(Box::new(self), Box::new(other))
    }

    pub open spec fn plus(self, other: Term) -> Term {
        Term::Add(Box::new(self), Box::new(other))
    }
}

/// How row `r` came about in the first `n` operations: the last of them that makes it says so.
pub open spec fn made_of(ops: Seq<Op>, n: int, r: Reg) -> Term
    decreases n, 0int,
{
    if n <= 0 {
        if r == Reg::Input {
            Term::Input
        } else {
            Term::Missing
        }
    } else if ops[n - 1].writes() == Some(r) {
        op_term(ops, n - 1)
    } else {
        made_of(ops, n - 1, r)
    }
}

/// The keys and values that were written down last in the first `n` operations.
pub open spec fn kept(ops: Seq<Op>, n: int) -> (Term, Term)
    decreases n, 0int,
{
    if n <= 0 {
        (Term::Missing, Term::Missing)
    } else {
        match ops[n - 1] {
            Op::Store { k, v } => (made_of(ops, n - 1, k), made_of(ops, n - 1, v)),
            _ => kept(ops, n - 1),
        }
    }
}

/// What operation `k` makes.
pub open spec fn op_term(ops: Seq<Op>, k: int) -> Term
    decreases k, 1int,
{
    match ops[k] {
        Op::Norm { x, weight, .. } => Term::Norm(Box::new(made_of(ops, k, x)), weight),
        Op::Project { x, weight, .. } => Term::Project(Box::new(made_of(ops, k, x)), weight),
        Op::AddWeight { x, weight, .. } => Term::AddWeight(Box::new(made_of(ops, k, x)), weight),
        Op::MulWeight { x, weight, .. } => Term::MulWeight(Box::new(made_of(ops, k, x)), weight),
        Op::Conv { x, weight, .. } => Term::Conv(Box::new(made_of(ops, k, x)), weight),
        Op::Sigmoid { x, .. } => Term::Sigmoid(Box::new(made_of(ops, k, x))),
        Op::Silu { x, .. } => Term::Silu(Box::new(made_of(ops, k, x))),
        Op::Softplus { x, .. } => Term::Softplus(Box::new(made_of(ops, k, x))),
        Op::Part { x, part, .. } => Term::Part(Box::new(made_of(ops, k, x)), part),
        Op::Unit { x, .. } => Term::Unit(Box::new(made_of(ops, k, x))),
        Op::Delta { q, k: key, v, decay, beta, .. } => Term::Delta {
            q: Box::new(made_of(ops, k, q)),
            k: Box::new(made_of(ops, k, key)),
            v: Box::new(made_of(ops, k, v)),
            decay: Box::new(made_of(ops, k, decay)),
            beta: Box::new(made_of(ops, k, beta)),
        },
        Op::Pad { x, .. } => Term::Pad(Box::new(made_of(ops, k, x))),
        Op::Queries { x, .. } => Term::Queries(Box::new(made_of(ops, k, x))),
        Op::Gates { x, .. } => Term::Gates(Box::new(made_of(ops, k, x))),
        Op::Turn { x, .. } => Term::Turn(Box::new(made_of(ops, k, x))),
        Op::Attend { q, .. } => Term::Attend {
            q: Box::new(made_of(ops, k, q)),
            k: Box::new(kept(ops, k).0),
            v: Box::new(kept(ops, k).1),
        },
        Op::Mul { x, y, .. } => Term::Mul(
            Box::new(made_of(ops, k, x)),
            Box::new(made_of(ops, k, y)),
        ),
        Op::Add { x, y, .. } => Term::Add(
            Box::new(made_of(ops, k, x)),
            Box::new(made_of(ops, k, y)),
        ),
        Op::Swiglu { x, y, .. } => Term::Swiglu(
            Box::new(made_of(ops, k, x)),
            Box::new(made_of(ops, k, y)),
        ),
        Op::Store { .. } | Op::Show { .. } => Term::Missing,
    }
}

/// How what goes out of a layer came about.
pub open spec fn outcome(full: bool) -> Term {
    made_of(ops_of(full), ops_of(full).len() as int, Reg::Out)
}

/// The feed-forward part, on a row and added onto it.
pub open spec fn fed_forward(x: Term) -> Term {
    let n = x.norm(Weight::PostNorm);
    let act = Term::Swiglu(
        Box::new(n.project(Weight::FfnGate)),
        Box::new(n.project(Weight::FfnUp)),
    );
    x.plus(act.project(Weight::FfnDown))
}

/// A projected row, normed head by head and rotated by its position.
pub open spec fn placed(x: Term, w: Weight) -> Term {
    x.norm(w).turn()
}

proof fn lemma_made(full: bool, k: int, n: int)
    requires
        0 <= k < n <= ops_of(full).len(),
        ops_of(full)[k].writes() is Some,
    ensures
        made_of(ops_of(full), n, ops_of(full)[k].writes()->0) == op_term(ops_of(full), k),
    decreases n,
{
    if n - 1 > k {
        law_rows_are_made_once(full, k, n - 1);
        lemma_made(full, k, n - 1);
    }
}

proof fn lemma_input(full: bool, n: int)
    requires
        0 <= n <= ops_of(full).len(),
    ensures
        made_of(ops_of(full), n, Reg::Input) == Term::Input,
    decreases n,
{
    if n > 0 {
        lemma_input(full, n - 1);
        if ops_of(full)[n - 1].writes() == Some(Reg::Input) {
            lemma_never_input(full, n - 1);
        }
    }
}

proof fn lemma_never_input(full: bool, k: int)
    requires
        0 <= k < ops_of(full).len(),
    ensures
        ops_of(full)[k].writes() != Some(Reg::Input),
{
}

/// In a layer of full attention, queries and keys are both normed head by head and then rotated by
/// their position; the keys and the values of the token are written down before it attends; what
/// it attends to is gated by the other half of the query projection, projected, and added onto
/// what came in; and the feed-forward part follows.
pub proof fn law_attention_dataflow()
    ensures
        ({
            let x = Term::Input;
            let n = x.norm(Weight::AttnNorm);
            let both = n.project(Weight::AttnQ);
            let q = placed(Term::Queries(Box::new(both)), Weight::AttnQNorm);
            let k = placed(n.project(Weight::AttnK), Weight::AttnKNorm);
            let v = n.project(Weight::AttnV);
            let mixed = Term::Attend { q: Box::new(q), k: Box::new(k), v: Box::new(v) };
            let gated = mixed.times(Term::Gates(Box::new(both)).sigmoid());
            &&& outcome(true) == fed_forward(x.plus(gated.project(Weight::AttnOutput)))
            &&& kept(ops_of(true), ops_of(true).len() as int) == (k, v)
        }),
{
    let ops = ops_of(true);
    lemma_input(true, 0);
    lemma_made(true, 0, 1);
    lemma_made(true, 1, 2);
    lemma_made(true, 1, 3);
    lemma_made(true, 2, 4);
    lemma_made(true, 0, 5);
    lemma_made(true, 5, 6);
    lemma_made(true, 0, 7);
    lemma_made(true, 4, 8);
    lemma_made(true, 6, 9);
    lemma_made(true, 9, 10);
    lemma_made(true, 7, 10);
    lemma_made(true, 8, 11);
    lemma_made(true, 3, 12);
    lemma_made(true, 11, 13);
    lemma_made(true, 12, 13);
    lemma_made(true, 13, 14);
    lemma_input(true, 15);
    lemma_made(true, 14, 15);
    lemma_made(true, 15, 16);
    lemma_made(true, 16, 17);
    lemma_made(true, 16, 18);
    lemma_made(true, 17, 19);
    lemma_made(true, 18, 19);
    lemma_made(true, 19, 20);
    lemma_made(true, 15, 21);
    lemma_made(true, 20, 21);
    lemma_made(true, 21, 22);
    reveal_with_fuel(kept, 13);
}

/// In a recurrent layer one projection goes through the convolution and is cut into queries, keys
/// and values, of which queries and keys are brought to length one; the state makes a step with
/// them, with a decay from a biased and bent projection and a share from another; what is read out
/// is normed, gated by a further projection, projected, and added onto what came in; and the
/// feed-forward part follows.
pub proof fn law_recurrent_dataflow()
    ensures
        ({
            let x = Term::Input;
            let n = x.norm(Weight::AttnNorm);
            let qkv = n.project(Weight::AttnQkv);
            let z = n.project(Weight::AttnGate);
            let beta_raw = n.project(Weight::SsmBeta);
            let beta = beta_raw.sigmoid();
            let alpha = n.project(Weight::SsmAlpha);
            let soft = Term::Softplus(Box::new(Term::AddWeight(Box::new(alpha), Weight::SsmDt)));
            let decay = Term::MulWeight(Box::new(soft), Weight::SsmA);
            let conv = Term::Conv(Box::new(qkv), Weight::SsmConv);
            let mix = conv.silu();
            let q = mix.part(Side::Query).unit();
            let k = mix.part(Side::Key).unit();
            let v = mix.part(Side::Value);
            let made = Term::Delta {
                q: Box::new(q),
                k: Box::new(k),
                v: Box::new(v),
                decay: Box::new(decay),
                beta: Box::new(beta),
            };
            let gated = made.norm(Weight::SsmNorm).pad().times(z.silu());
            let out = gated.project(Weight::SsmOut);
            let res = x.plus(out);
            outcome(false) == fed_forward(res)
        }),
{
    lemma_input(false, 0);
    lemma_input(false, 41);
    lemma_made(false, 0, 2);
    lemma_made(false, 0, 3);
    lemma_made(false, 0, 6);
    lemma_made(false, 0, 7);
    lemma_made(false, 6, 8);
    lemma_made(false, 7, 9);
    lemma_made(false, 9, 10);
    lemma_made(false, 10, 11);
    lemma_made(false, 2, 17);
    lemma_made(false, 17, 18);
    lemma_made(false, 18, 21);
    lemma_made(false, 18, 22);
    lemma_made(false, 18, 23);
    lemma_made(false, 21, 27);
    lemma_made(false, 22, 28);
    lemma_made(false, 27, 32);
    lemma_made(false, 28, 32);
    lemma_made(false, 23, 32);
    lemma_made(false, 11, 32);
    lemma_made(false, 8, 32);
    lemma_made(false, 32, 33);
    lemma_made(false, 32, 35);
    lemma_made(false, 35, 36);
    lemma_made(false, 3, 37);
    lemma_made(false, 36, 38);
    lemma_made(false, 37, 38);
    lemma_made(false, 38, 40);
    lemma_made(false, 40, 41);
    lemma_made(false, 41, 44);
    lemma_made(false, 44, 46);
    lemma_made(false, 44, 47);
    lemma_made(false, 46, 48);
    lemma_made(false, 47, 48);
    lemma_made(false, 48, 52);
    lemma_made(false, 41, 54);
    lemma_made(false, 52, 54);
    lemma_made(false, 54, 56);
}

/// The row by which the feed-forward part is gated.
pub open spec fn gate_row(x: Term) -> Term {
    x.norm(Weight::PostNorm).project(Weight::FfnGate)
}

/// The row that is gated in the feed-forward part.
pub open spec fn up_row(x: Term) -> Term {
    x.norm(Weight::PostNorm).project(Weight::FfnUp)
}

/// The two, combined.
pub open spec fn act_row(x: Term) -> Term {
    Term::Swiglu(Box::new(gate_row(x)), Box::new(up_row(x)))
}

/// The rows that the first `n` operations show: each under its name, in their order.
pub open spec fn shown(ops: Seq<Op>, n: int) -> Seq<(&'static str, Term)>
    decreases n,
{
    if n <= 0 {
        Seq::empty()
    } else {
        match ops[n - 1] {
            Op::Show { name, x } => shown(ops, n - 1).push((name, made_of(ops, n - 1, x))),
            _ => shown(ops, n - 1),
        }
    }
}

/// What a recurrent layer shows: every stage of the computation, under its name. A layer of full
/// attention shows nothing.
#[verifier::rlimit(60)]
pub proof fn law_shown_rows_are_what_they_are_called()
    ensures
        shown(ops_of(true), ops_of(true).len() as int) == Seq::<(&'static str, Term)>::empty(),
        ({
            let x = Term::Input;
            let n = x.norm(Weight::AttnNorm);
            let qkv = n.project(Weight::AttnQkv);
            let z = n.project(Weight::AttnGate);
            let beta_raw = n.project(Weight::SsmBeta);
            let beta = beta_raw.sigmoid();
            let alpha = n.project(Weight::SsmAlpha);
            let soft = Term::Softplus(Box::new(Term::AddWeight(Box::new(alpha), Weight::SsmDt)));
            let decay = Term::MulWeight(Box::new(soft), Weight::SsmA);
            let conv = Term::Conv(Box::new(qkv), Weight::SsmConv);
            let mix = conv.silu();
            let q = mix.part(Side::Query).unit();
            let k = mix.part(Side::Key).unit();
            let v = mix.part(Side::Value);
            let made = Term::Delta {
                q: Box::new(q),
                k: Box::new(k),
                v: Box::new(v),
                decay: Box::new(decay),
                beta: Box::new(beta),
            };
            let gated = made.norm(Weight::SsmNorm).pad().times(z.silu());
            let out = gated.project(Weight::SsmOut);
            let res = x.plus(out);
            shown(ops_of(false), ops_of(false).len() as int) == seq![
                ("attn_norm", n),
                ("linear_attn_qkv_mixed", qkv),
                ("z", z),
                ("beta", beta_raw),
                ("beta_sigmoid", beta),
                ("alpha", alpha),
                ("a_softplus", soft),
                ("gate", decay),
                ("conv_output_raw", conv),
                ("conv_output_silu", mix),
                ("q_conv", mix.part(Side::Query)),
                ("k_conv", mix.part(Side::Key)),
                ("v_conv", v),
                ("q_conv_predelta", q),
                ("k_conv_predelta", k),
                ("v_conv_predelta", v),
                ("attn_output", made.pad()),
                ("final_output", gated),
                ("linear_attn_out", out),
                ("attn_residual", res),
                ("attn_post_norm", res.norm(Weight::PostNorm)),
                ("ffn_gate", gate_row(res)),
                ("ffn_up", up_row(res)),
                ("ffn_swiglu", act_row(res)),
                ("ffn_out", act_row(res).project(Weight::FfnDown)),
                ("l_out", fed_forward(res)),
            ]
        }),
{
    let ops = ops_of(false);
    lemma_input(false, 0);
    lemma_input(false, 41);
    lemma_made(false, 0, 2);
    lemma_made(false, 0, 3);
    lemma_made(false, 0, 6);
    lemma_made(false, 0, 7);
    lemma_made(false, 6, 8);
    lemma_made(false, 7, 9);
    lemma_made(false, 9, 10);
    lemma_made(false, 10, 11);
    lemma_made(false, 2, 17);
    lemma_made(false, 17, 18);
    lemma_made(false, 18, 21);
    lemma_made(false, 18, 22);
    lemma_made(false, 18, 23);
    lemma_made(false, 21, 27);
    lemma_made(false, 22, 28);
    lemma_made(false, 27, 32);
    lemma_made(false, 28, 32);
    lemma_made(false, 23, 32);
    lemma_made(false, 11, 32);
    lemma_made(false, 8, 32);
    lemma_made(false, 32, 33);
    lemma_made(false, 32, 35);
    lemma_made(false, 35, 36);
    lemma_made(false, 3, 37);
    lemma_made(false, 36, 38);
    lemma_made(false, 37, 38);
    lemma_made(false, 38, 40);
    lemma_made(false, 40, 41);
    lemma_made(false, 41, 44);
    lemma_made(false, 44, 46);
    lemma_made(false, 44, 47);
    lemma_made(false, 46, 48);
    lemma_made(false, 47, 48);
    lemma_made(false, 48, 52);
    lemma_made(false, 41, 54);
    lemma_made(false, 52, 54);
    lemma_made(false, 0, 1);
    lemma_made(false, 2, 4);
    lemma_made(false, 3, 5);
    lemma_made(false, 6, 12);
    lemma_made(false, 8, 13);
    lemma_made(false, 7, 14);
    lemma_made(false, 10, 15);
    lemma_made(false, 11, 16);
    lemma_made(false, 17, 19);
    lemma_made(false, 18, 20);
    lemma_made(false, 21, 24);
    lemma_made(false, 22, 25);
    lemma_made(false, 23, 26);
    lemma_made(false, 27, 29);
    lemma_made(false, 28, 30);
    lemma_made(false, 23, 31);
    lemma_made(false, 33, 34);
    lemma_made(false, 38, 39);
    lemma_made(false, 40, 42);
    lemma_made(false, 41, 43);
    lemma_made(false, 44, 45);
    lemma_made(false, 46, 49);
    lemma_made(false, 47, 50);
    lemma_made(false, 48, 51);
    lemma_made(false, 52, 53);
    lemma_made(false, 54, 55);
    reveal_with_fuel(shown, 57);
}

/// Every row that is made is read by a later operation that does not merely show it. What goes out
/// is excepted, and so is the filled-up row of what a state gave, which is there to be shown.
pub proof fn law_every_row_is_used(full: bool, k: int)
    requires
        0 <= k < ops_of(full).len(),
        ops_of(full)[k].writes() matches Some(r) && r != Reg::Out && r != Reg::DeltaRow,
    ensures
        exists|j: int|
            k < j < ops_of(full).len() && !(ops_of(full)[j] is Show) && (
            #[trigger] ops_of(full)[j]).reads().contains(ops_of(full)[k].writes()->0),
{
    let ops = ops_of(full);
    let j = if full {
        if k == 0 {
            1
        } else if k == 1 {
            2
        } else if k == 2 {
            4
        } else if k == 3 {
            12
        } else if k == 4 {
            8
        } else if k == 5 {
            6
        } else if k == 6 {
            9
        } else if k == 7 {
            10
        } else if k == 8 {
            11
        } else if k == 9 {
            10
        } else if k == 11 {
            13
        } else if k == 12 {
            13
        } else if k == 13 {
            14
        } else if k == 14 {
            15
        } else if k == 15 {
            16
        } else if k == 16 {
            17
        } else if k == 17 {
            19
        } else if k == 18 {
            19
        } else if k == 19 {
            20
        } else if k == 20 {
            21
        } else {
            21
        }
    } else {
        if k == 0 {
            2
        } else if k == 2 {
            17
        } else if k == 3 {
            37
        } else if k == 6 {
            8
        } else if k == 7 {
            9
        } else if k == 8 {
            32
        } else if k == 9 {
            10
        } else if k == 10 {
            11
        } else if k == 11 {
            32
        } else if k == 17 {
            18
        } else if k == 18 {
            21
        } else if k == 21 {
            27
        } else if k == 22 {
            28
        } else if k == 23 {
            32
        } else if k == 27 {
            32
        } else if k == 28 {
            32
        } else if k == 32 {
            33
        } else if k == 35 {
            36
        } else if k == 36 {
            38
        } else if k == 37 {
            38
        } else if k == 38 {
            40
        } else if k == 40 {
            41
        } else if k == 41 {
            44
        } else if k == 44 {
            46
        } else if k == 46 {
            48
        } else if k == 47 {
            48
        } else if k == 48 {
            52
        } else if k == 52 {
            54
        } else {
            54
        }
    };
    lemma_reads(ops[j]);
    assert(ops[j].reads().contains(ops[k].writes()->0));
}

} // verus!
