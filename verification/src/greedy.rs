//! Greedy generation: always the most likely token, until the end token or a limit.
//!
//! The loop does not know the model. It hands tokens to a function that gives the logits after
//! each.

use vstd::prelude::*;

use crate::error::{LoadError, Refusal};
use crate::ieee::F32;
use crate::order::{comes_before, in_order, lemma_order_complete, stable_order};
use crate::text::{dec, push_dec};
use crate::tokenizer::gpt2::TokenError;

verus! {

/// The place of the greatest among the first `n` values, the first of them where several are
/// equal. A value that is not a number is never greater than another, nor another than it.
pub open spec fn best_of(v: Seq<F32>, n: nat) -> int
    decreases n,
{
    if n <= 1 {
        0
    } else {
        let b = best_of(v, (n - 1) as nat);
        if v[n - 1].above(v[b]) {
            n - 1
        } else {
            b
        }
    }
}

/// The place of the greatest value; the first where several are equal.
pub fn argmax(v: &[F32]) -> (res: usize)
    requires
        v@.len() > 0,
    ensures
        res == best_of(v@, v@.len()),
        res < v@.len(),
{
    let mut best: usize = 0;
    let mut i: usize = 1;
    while i < v.len()
        invariant
            1 <= i <= v@.len(),
            best < i,
            best == best_of(v@, i as nat),
        decreases v@.len() - i,
    {
        if v[i].is_above(v[best]) {
            best = i;
        }
        i += 1;
    }
    best
}

/// Among numbers, no value is greater than the chosen one, and every earlier value is less.
pub proof fn law_argmax_is_first_greatest(v: Seq<F32>, n: nat)
    requires
        1 <= n <= v.len(),
        forall|i: int| 0 <= i < n ==> !(#[trigger] v[i]).nan(),
    ensures
        0 <= best_of(v, n) < n,
        forall|i: int| 0 <= i < n ==> !(#[trigger] v[i]).above(v[best_of(v, n)]),
        forall|i: int| 0 <= i < best_of(v, n) ==> v[best_of(v, n)].above(#[trigger] v[i]),
    decreases n,
{
    if n > 1 {
        law_argmax_is_first_greatest(v, (n - 1) as nat);
    }
}

// ---- The best few ---------------------------------------------------------------------------

/// Keys by which greater values come first.
pub open spec fn falling(v: Seq<F32>) -> Seq<u64> {
    v.map_values(|x: F32| (0x8000_0000 - x.place()) as u64)
}

/// The best five values with their places, the best first and equal ones in their order; and the
/// place of the best.
pub fn top5(v: &[F32]) -> (res: (usize, Vec<(usize, F32)>))
    requires
        v@.len() > 0,
        forall|i: int| 0 <= i < v@.len() ==> !(#[trigger] v@[i]).nan(),
    ensures
        exists|order: Seq<usize>|
            {
                &&& #[trigger] in_order(falling(v@), order)
                &&& res.0 == order[0]
                &&& res.1@ == Seq::new(
                    if v@.len() < 5 {
                        v@.len()
                    } else {
                        5
                    },
                    |i: int| (order[i], v@[order[i] as int]),
                )
            },
{
    let mut keys: Vec<u64> = Vec::new();
    let mut i: usize = 0;
    while i < v.len()
        invariant
            i <= v@.len(),
            keys@ == falling(v@).take(i as int),
            forall|i: int| 0 <= i < v@.len() ==> !(#[trigger] v@[i]).nan(),
        decreases v@.len() - i,
    {
        let bits: u32 = v[i].bits;
        let key: u64 = if bits < 0x8000_0000u32 {
            0x8000_0000u64 - bits as u64
        } else {
            bits as u64
        };
        proof {
            assert(!v@[i as int].nan());
            assert(falling(v@)[i as int] == key);
            assert(falling(v@).take(i + 1) =~= falling(v@).take(i as int).push(key));
        }
        keys.push(key);
        i += 1;
    }
    proof {
        assert(falling(v@).take(i as int) =~= falling(v@));
    }
    let order = stable_order(&keys);
    let ghost n: nat = if v@.len() < 5 {
        v@.len()
    } else {
        5
    };
    let mut top: Vec<(usize, F32)> = Vec::new();
    let mut j: usize = 0;
    while j < order.len() && j < 5
        invariant
            j <= n,
            n <= order@.len(),
            in_order(falling(v@), order@),
            n == if v@.len() < 5 {
                v@.len()
            } else {
                5
            },
            top@ == Seq::new(j as nat, |i: int| (order@[i], v@[order@[i] as int])),
        decreases 5 - j,
    {
        let p: usize = order[j];
        top.push((p, v[p]));
        j += 1;
        proof {
            assert(top@ =~= Seq::new(j as nat, |i: int| (order@[i], v@[order@[i] as int])));
        }
    }
    proof {
        assert(in_order(falling(v@), order@));
    }
    (order[0], top)
}

/// The first of the best is the one that greedy generation takes.
pub proof fn law_top_is_argmax(v: Seq<F32>, order: Seq<usize>)
    requires
        v.len() > 0,
        forall|i: int| 0 <= i < v.len() ==> !(#[trigger] v[i]).nan(),
        in_order(falling(v), order),
    ensures
        order[0] == best_of(v, v.len()),
{
    let b = best_of(v, v.len());
    law_argmax_is_first_greatest(v, v.len());
    let keys = falling(v);
    lemma_order_complete(keys, order, b);
    let a = choose|a: int| 0 <= a < order.len() && #[trigger] order[a] == b;
    if a > 0 {
        let t = order[0] as int;
        assert(comes_before(keys, t, b));
        assert(!v[t].nan() && !v[b].nan());
        assert(!v[t].above(v[b]));
        if t < b {
            assert(v[b].above(v[t]));
        }
    }
}

// ---- The loop -------------------------------------------------------------------------------

/// Where a greedy loop stands.
pub struct Greedy {
    /// The token that ends the text.
    pub eos: Option<u32>,
    /// How many tokens may still come.
    pub remaining: int,
    /// The logits after the last token that the model has seen.
    pub logits: Seq<F32>,
    /// Whether the end token has come.
    pub stopped: bool,
}

impl Greedy {
    /// Whether no token will come any more.
    pub open spec fn done(self) -> bool {
        self.stopped || self.remaining == 0
    }

    /// The token that comes next, if any.
    pub open spec fn pick(self) -> Option<u32> {
        if self.done() {
            None
        } else {
            Some(best_of(self.logits, self.logits.len()) as u32)
        }
    }

    /// Where the loop stands once its next token has been taken, before the model has seen it.
    pub open spec fn taken(self) -> Greedy {
        Greedy {
            remaining: self.remaining - 1,
            stopped: self.stopped || self.pick() == self.eos,
            ..self
        }
    }

    /// Whether the model has to see the next token: it does not where none follows.
    pub open spec fn feeds(self) -> bool {
        !self.done() && !self.taken().done()
    }
}

/// A greedy loop over a model, which gives the logits after the token that it is handed.
pub struct GreedyLoop<F> {
    forward: F,
    eos: Option<u32>,
    remaining: u32,
    logits: Vec<F32>,
    stopped_by_eos: bool,
    fed: Ghost<Seq<u32>>,
}

/// A model that can be handed any token.
pub open spec fn callable<F: Fn(u32) -> Result<Vec<F32>, LoadError>>(forward: F) -> bool {
    forall|t: u32| #[trigger] forward.requires((t,))
}

/// A model that can be handed any token, and whose logits are never empty.
pub open spec fn answers<F: Fn(u32) -> Result<Vec<F32>, LoadError>>(forward: F) -> bool {
    &&& callable(forward)
    &&& forall|t: u32, r: Result<Vec<F32>, LoadError>| #[trigger]
        forward.ensures((t,), r) ==> (r is Ok ==> r->Ok_0@.len() > 0)
}

/// What the model may answer to a token.
pub open spec fn answer_of<F: Fn(u32) -> Result<Vec<F32>, LoadError>>(
    forward: F,
    token: u32,
    r: Result<Vec<F32>, LoadError>,
) -> bool {
    forward.ensures((token,), r)
}

/// The answers of the model to tokens, one for each, and none of them a refusal.
pub open spec fn took<F: Fn(u32) -> Result<Vec<F32>, LoadError>>(
    forward: F,
    tokens: Seq<u32>,
    answers: Seq<Result<Vec<F32>, LoadError>>,
) -> bool {
    &&& answers.len() == tokens.len()
    &&& forall|i: int|
        0 <= i < tokens.len() ==> #[trigger] answer_of(forward, tokens[i], answers[i])
            && answers[i] is Ok
}

/// The refusal of an empty prompt.
pub open spec fn empty_prompt() -> Refusal {
    Refusal::BadFile("greedy: prompt vacío — no hay logits para arrancar el decode"@)
}

impl<F: Fn(u32) -> Result<Vec<F32>, LoadError>> GreedyLoop<F> {
    /// The model.
    pub closed spec fn model(&self) -> F {
        self.forward
    }

    /// Where the loop stands.
    pub closed spec fn state(&self) -> Greedy {
        Greedy {
            eos: self.eos,
            remaining: self.remaining as int,
            logits: self.logits@,
            stopped: self.stopped_by_eos,
        }
    }

    /// The tokens that the model has been handed, in order.
    pub closed spec fn fed(&self) -> Seq<u32> {
        self.fed@
    }

    /// A loop that will give at most `max_tokens` tokens.
    pub fn new(forward: F, eos: Option<u32>, max_tokens: u32) -> (res: GreedyLoop<F>)
        ensures
            res.model() == forward,
            res.state() == (Greedy {
                eos,
                remaining: max_tokens as int,
                logits: Seq::empty(),
                stopped: false,
            }),
            res.fed() == Seq::<u32>::empty(),
    {
        let res = GreedyLoop {
            forward,
            eos,
            remaining: max_tokens,
            logits: Vec::new(),
            stopped_by_eos: false,
            fed: Ghost(Seq::empty()),
        };
        proof {
            assert(res.logits@ =~= Seq::<F32>::empty());
        }
        res
    }

    /// Hands one token to the model.
    fn feed(&mut self, token: u32) -> (res: Result<(), LoadError>)
        requires
            callable(old(self).model()),
        ensures
            final(self).model() == old(self).model(),
            final(self).fed() == old(self).fed().push(token),
            exists|r: Result<Vec<F32>, LoadError>| #[trigger] answer_of(
                    old(self).model(),
                    token,
                    r,
                ) && match r {
                    Ok(logits) => res is Ok && final(self).state() == (Greedy {
                        logits: logits@,
                        ..old(self).state()
                    }),
                    Err(e) => res == Err::<(), LoadError>(e) && final(self).state() == old(self).state(),
                },
    {
        self.fed = Ghost(self.fed@.push(token));
        let r = (self.forward)(token);
        let ghost outcome = r;
        match r {
            Ok(logits) => {
                self.logits = logits;
                proof {
                    assert(answer_of(old(self).model(), token, outcome));
                }
                Ok(())
            },
            Err(e) => {
                proof {
                    assert(answer_of(old(self).model(), token, outcome));
                }
                Err(e)
            },
        }
    }

    /// Hands the prompt to the model, token by token. The logits after its last token are kept. The
    /// first token that the model refuses ends it: those before it were answered, and none behind
    /// it is handed over.
    pub fn prefill(&mut self, prompt: &[u32]) -> (res: Result<(), LoadError>)
        requires
            callable(old(self).model()),
        ensures
            final(self).model() == old(self).model(),
            final(self).state() == (Greedy {
                logits: final(self).state().logits,
                ..old(self).state()
            }),
            prompt@.len() == 0 ==> {
                &&& res is Err
                &&& res->Err_0@ == empty_prompt()
                &&& final(self).fed() == old(self).fed()
                &&& final(self).state() == old(self).state()
            },
            prompt@.len() > 0 && res is Ok ==> {
                &&& final(self).fed() == old(self).fed() + prompt@
                &&& answers(old(self).model()) ==> final(self).state().logits.len() > 0
                &&& exists|rs: Seq<Result<Vec<F32>, LoadError>>| #[trigger] took(
                    old(self).model(),
                    prompt@,
                    rs,
                ) && final(self).state().logits == rs.last()->Ok_0@
            },
            prompt@.len() > 0 && res is Err ==> exists|
                k: int,
                rs: Seq<Result<Vec<F32>, LoadError>>,
            |
                {
                    &&& 0 <= k < prompt@.len()
                    &&& #[trigger] took(old(self).model(), prompt@.take(k), rs)
                    &&& answer_of(old(self).model(), prompt@[k], Err(res->Err_0))
                    &&& final(self).fed() == old(self).fed() + prompt@.take(k + 1)
                    &&& final(self).state().logits == (if k == 0 {
                        old(self).state().logits
                    } else {
                        rs.last()->Ok_0@
                    })
                },
    {
        if prompt.len() == 0 {
            return Err(
                LoadError::corrupt(
                    String::from_str("greedy: prompt vacío — no hay logits para arrancar el decode"),
                ),
            );
        }
        let mut i: usize = 0;
        let ghost mut rs: Seq<Result<Vec<F32>, LoadError>> = Seq::empty();
        proof {
            assert(self.fed() =~= old(self).fed() + prompt@.take(0));
        }
        while i < prompt.len()
            invariant
                callable(self.model()),
                self.model() == old(self).model(),
                0 <= i <= prompt@.len(),
                prompt@.len() > 0,
                self.fed() == old(self).fed() + prompt@.take(i as int),
                self.state() == (Greedy { logits: self.state().logits, ..old(self).state() }),
                took(self.model(), prompt@.take(i as int), rs),
                i == 0 ==> self.state().logits == old(self).state().logits,
                i > 0 ==> self.state().logits == rs.last()->Ok_0@,
            decreases prompt@.len() - i,
        {
            let token: u32 = prompt[i];
            let r = self.feed(token);
            let ghost outcome = r;
            let ghost before = rs;
            proof {
                assert(self.fed() =~= old(self).fed() + prompt@.take(i + 1));
            }
            if let Err(e) = r {
                proof {
                    assert(answer_of(self.model(), prompt@[i as int], Err(e)));
                }
                return Err(e);
            }
            proof {
                let answer = choose|r: Result<Vec<F32>, LoadError>| #[trigger]
                    answer_of(self.model(), token, r) && r is Ok && self.state().logits == r->Ok_0@;
                rs = before.push(answer);
                assert forall|j: int| 0 <= j < i + 1 implies #[trigger] answer_of(
                    self.model(),
                    prompt@.take(i + 1)[j],
                    rs[j],
                ) && rs[j] is Ok by {
                    if j < i {
                        assert(answer_of(self.model(), prompt@.take(i as int)[j], before[j]));
                    }
                }
            }
            i += 1;
        }
        proof {
            assert(prompt@.take(i as int) =~= prompt@);
            assert(took(old(self).model(), prompt@, rs));
            assert(answer_of(old(self).model(), prompt@.last(), rs.last()));
        }
        Ok(())
    }

    /// The next token, or `None` once the end token has come or the limit is reached. The end
    /// token is given out, and ends the loop. A token that none will follow is not handed to the
    /// model.
    pub fn next_token(&mut self) -> (res: Result<Option<u32>, LoadError>)
        requires
            callable(old(self).model()),
            !old(self).state().done() ==> old(self).state().logits.len() > 0,
        ensures
            final(self).model() == old(self).model(),
            answers(old(self).model()) && !final(self).state().done()
                ==> final(self).state().logits.len() > 0,
            old(self).state().done() ==> {
                &&& res == Ok::<Option<u32>, LoadError>(None)
                &&& final(self).state() == old(self).state()
                &&& final(self).fed() == old(self).fed()
            },
            !old(self).state().done() && !old(self).state().feeds() ==> {
                &&& res == Ok::<Option<u32>, LoadError>(old(self).state().pick())
                &&& final(self).state() == old(self).state().taken()
                &&& final(self).fed() == old(self).fed()
            },
            old(self).state().feeds() ==> {
                let next = old(self).state().pick()->0;
                &&& final(self).fed() == old(self).fed().push(next)
                &&& exists|r: Result<Vec<F32>, LoadError>| #[trigger] answer_of(
                    old(self).model(),
                    next,
                    r,
                ) && match r {
                        Ok(logits) => {
                            &&& res == Ok::<Option<u32>, LoadError>(Some(next))
                            &&& final(self).state() == (Greedy {
                                logits: logits@,
                                ..old(self).state().taken()
                            })
                        },
                        Err(e) => {
                            &&& res == Err::<Option<u32>, LoadError>(e)
                            &&& final(self).state() == old(self).state().taken()
                        },
                    }
            },
    {
        if self.stopped_by_eos || self.remaining == 0 {
            return Ok(None);
        }
        let next: u32 = argmax(self.logits.as_slice()) as u32;
        self.remaining = self.remaining - 1;
        if let Some(e) = self.eos {
            if next == e {
                self.stopped_by_eos = true;
                return Ok(Some(next));
            }
        }
        if self.remaining == 0 {
            return Ok(Some(next));
        }
        let ghost before = self.state();
        proof {
            assert(before == old(self).state().taken());
            assert(next == old(self).state().pick()->0);
        }
        let res = self.feed(next);
        proof {
            let r = choose|r: Result<Vec<F32>, LoadError>| #[trigger]
                answer_of(self.model(), next, r) && match r {
                    Ok(logits) => res is Ok && self.state() == (Greedy {
                        logits: logits@,
                        ..before
                    }),
                    Err(e) => res == Err::<(), LoadError>(e) && self.state() == before,
                };
            assert(answer_of(old(self).model(), next, r));
        }
        match res {
            Ok(_) => Ok(Some(next)),
            Err(e) => Err(e),
        }
    }

    /// The logits after the last token that the model has seen.
    pub fn logits(&self) -> (res: &[F32])
        ensures
            res@ == self.state().logits,
    {
        self.logits.as_slice()
    }

    /// Whether the end token has come.
    pub fn stopped_by_eos(&self) -> (res: bool)
        ensures
            res == self.state().stopped,
    {
        self.stopped_by_eos
    }
}

// ---- What ends a run ------------------------------------------------------------------------

/// Why decoding stops.
#[derive(Debug)]
pub enum DecodeError {
    Load(LoadError),
    Token(TokenError),
    /// Experts that could not be read: what would come out is not the model's.
    ExpertDrop(usize),
    /// The end token.
    Eos,
}

impl From<LoadError> for DecodeError {
    fn from(e: LoadError) -> (res: DecodeError) {
        DecodeError::Load(e)
    }
}

impl vstd::std_specs::convert::FromSpecImpl<LoadError> for DecodeError {
    open spec fn obeys_from_spec() -> bool {
        true
    }

    open spec fn from_spec(e: LoadError) -> DecodeError {
        DecodeError::Load(e)
    }
}

impl From<TokenError> for DecodeError {
    fn from(e: TokenError) -> (res: DecodeError) {
        DecodeError::Token(e)
    }
}

impl vstd::std_specs::convert::FromSpecImpl<TokenError> for DecodeError {
    open spec fn obeys_from_spec() -> bool {
        true
    }

    open spec fn from_spec(e: TokenError) -> DecodeError {
        DecodeError::Token(e)
    }
}

impl DecodeError {
    /// The sentence that reports why decoding stops: that of the cause, where there is one.
    pub fn message(&self) -> (res: String)
        ensures
            match self {
                DecodeError::Load(e) => if e is Io {
                    e@.message().is_prefix_of(res@)
                } else {
                    res@ == e@.message()
                },
                DecodeError::Token(e) => res@ == e@.message(),
                DecodeError::ExpertDrop(n) => res@ == "expert load failed: "@ + dec(*n as nat)
                    + " experts dropped; output would be corrupt"@,
                DecodeError::Eos => res@ == "eos token hit"@,
            },
    {
        match self {
            DecodeError::Load(e) => e.message(),
            DecodeError::Token(e) => e.message(),
            DecodeError::ExpertDrop(n) => {
                let mut m = String::from_str("expert load failed: ");
                push_dec(&mut m, *n as u64);
                m.append(" experts dropped; output would be corrupt");
                m
            },
            DecodeError::Eos => String::from_str("eos token hit"),
        }
    }
}

// ---- Whole runs -----------------------------------------------------------------------------

/// The tokens that a loop gives over a model, described by the logits after each text.
pub open spec fn generated(
    s: Greedy,
    model: spec_fn(Seq<u32>) -> Seq<F32>,
    text: Seq<u32>,
) -> Seq<u32>
    decreases s.remaining,
    when s.remaining >= 0
{
    match s.pick() {
        None => Seq::empty(),
        Some(t) => seq![t] + generated(
            Greedy { logits: model(text.push(t)), ..s.taken() },
            model,
            text.push(t),
        ),
    }
}

/// The tokens that a loop hands to the model while it gives tokens.
pub open spec fn handed(
    s: Greedy,
    model: spec_fn(Seq<u32>) -> Seq<F32>,
    text: Seq<u32>,
) -> Seq<u32>
    decreases s.remaining,
    when s.remaining >= 0
{
    match s.pick() {
        None => Seq::empty(),
        Some(t) => (if s.feeds() {
            seq![t]
        } else {
            Seq::empty()
        }) + handed(Greedy { logits: model(text.push(t)), ..s.taken() }, model, text.push(t)),
    }
}

/// A run gives at most as many tokens as it may. The end token is nowhere but at the end, and a
/// run that gives fewer tokens than it may ends with it. The model sees every token but the last.
pub proof fn law_run(s: Greedy, model: spec_fn(Seq<u32>) -> Seq<F32>, text: Seq<u32>)
    requires
        s.remaining >= 0,
        !s.stopped,
    ensures
        generated(s, model, text).len() <= s.remaining,
        s.remaining > 0 ==> generated(s, model, text).len() > 0,
        forall|i: int|
            0 <= i < generated(s, model, text).len() - 1 ==> Some(
                #[trigger] generated(s, model, text)[i],
            ) != s.eos,
        generated(s, model, text).len() < s.remaining ==> Some(generated(s, model, text).last())
            == s.eos,
        s.remaining > 0 ==> handed(s, model, text) == generated(s, model, text).drop_last(),
    decreases s.remaining,
{
    if s.remaining > 0 {
        let t = s.pick()->0;
        let next = Greedy { logits: model(text.push(t)), ..s.taken() };
        let rest = generated(next, model, text.push(t));
        let all = generated(s, model, text);
        assert(all == seq![t] + rest);
        if next.stopped {
            assert(rest =~= Seq::<u32>::empty());
            assert(all =~= seq![t]);
            assert(handed(next, model, text.push(t)) =~= Seq::<u32>::empty());
            assert(handed(s, model, text) =~= all.drop_last());
        } else {
            law_run(next, model, text.push(t));
            if next.remaining == 0 {
                assert(rest =~= Seq::<u32>::empty());
                assert(all =~= seq![t]);
                assert(handed(next, model, text.push(t)) =~= Seq::<u32>::empty());
                assert(handed(s, model, text) =~= all.drop_last());
            } else {
                assert(s.feeds());
                assert(all.last() == rest.last());
                assert forall|i: int| 0 <= i < all.len() - 1 implies Some(#[trigger] all[i])
                    != s.eos by {
                    if i > 0 {
                        assert(all[i] == rest[i - 1]);
                    }
                }
                assert(handed(s, model, text) =~= all.drop_last());
            }
        }
    }
}

/// The best values come in falling order, and equal ones in the order of their places.
pub proof fn law_top_falls(v: Seq<F32>, order: Seq<usize>, a: int, b: int)
    requires
        forall|i: int| 0 <= i < v.len() ==> !(#[trigger] v[i]).nan(),
        in_order(falling(v), order),
        0 <= a < b < v.len(),
    ensures
        order.len() == v.len(),
        0 <= order[a] < v.len(),
        0 <= order[b] < v.len(),
        v[order[a] as int].above(v[order[b] as int]) || (!v[order[b] as int].above(
            v[order[a] as int],
        ) && order[a] < order[b]),
{
    let keys = falling(v);
    let i = order[a] as int;
    let j = order[b] as int;
    assert(crate::order::comes_before(keys, i, j));
    assert(!v[i].nan() && !v[j].nan());
}

} // verus!
