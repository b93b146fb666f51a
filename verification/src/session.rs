//! What a model remembers between tokens, and how rows of numbers move through a layer.
//!
//! Nothing here computes with the numbers, so their type is left open.

use vstd::prelude::*;
use vstd::slice::{slice_subrange, slice_to_vec};

use crate::error::{LoadError, Refusal};
use crate::layers::Qwen35Forward;
use crate::qwen35::{full_layers, Hyper, Qwen35Config};
use crate::text::{dec, push_dec};

verus! {

// ---- Moving rows ----------------------------------------------------------------------------

/// `all` with `part` written over it from `at` on.
pub open spec fn overwritten<T>(all: Seq<T>, at: int, part: Seq<T>) -> Seq<T> {
    all.subrange(0, at) + part + all.subrange(at + part.len(), all.len() as int)
}

/// Writes a slice over a vector from `at` on.
pub fn overwrite<T: Copy>(all: &mut Vec<T>, at: usize, part: &[T])
    requires
        at + part@.len() <= old(all)@.len(),
    ensures
        final(all)@ == overwritten(old(all)@, at as int, part@),
{
    let mut i: usize = 0;
    while i < part.len()
        invariant
            i <= part@.len(),
            at + part@.len() <= all@.len(),
            all@.len() == old(all)@.len(),
            forall|j: int|
                0 <= j < all@.len() ==> #[trigger] all@[j] == if at <= j < at + i {
                    part@[j - at]
                } else {
                    old(all)@[j]
                },
        decreases part@.len() - i,
    {
        proof {
            assert(all@.len() == all.len());
        }
        all.set(at + i, part[i]);
        i += 1;
    }
    proof {
        assert(all@ =~= overwritten(old(all)@, at as int, part@));
    }
}

/// A vector of `n` equal elements.
pub fn filled<T: Copy>(value: T, n: usize) -> (res: Vec<T>)
    ensures
        res@ == Seq::new(n as nat, |i: int| value),
{
    let mut v: Vec<T> = Vec::with_capacity(n);
    let mut i: usize = 0;
    while i < n
        invariant
            i <= n,
            v@ == Seq::new(i as nat, |i: int| value),
        decreases n - i,
    {
        v.push(value);
        i += 1;
        proof {
            assert(v@ =~= Seq::new(i as nat, |i: int| value));
        }
    }
    v
}

/// Turns a convolution kernel from channel by channel to tap by tap: element `tau` of channel `c`
/// goes to element `c` of tap `tau`.
pub fn transpose_kernel<T: Copy>(raw: &[T], taps: usize, channels: usize) -> (res: Vec<T>)
    requires
        raw@.len() == taps * channels,
    ensures
        res@.len() == raw@.len(),
        forall|tau: int, c: int|
            0 <= tau < taps && 0 <= c < channels ==> #[trigger] res@[tau * channels + c] == raw@[c
                * taps + tau],
{
    let mut out: Vec<T> = Vec::with_capacity(raw.len());
    let mut tau: usize = 0;
    while tau < taps
        invariant
            tau <= taps,
            raw@.len() == taps * channels,
            out@.len() == tau * channels,
            forall|t: int, c: int|
                0 <= t < tau && 0 <= c < channels ==> #[trigger] out@[t * channels + c] == raw@[c
                    * taps + t],
        decreases taps - tau,
    {
        let mut c: usize = 0;
        while c < channels
            invariant
                tau < taps,
                c <= channels,
                raw@.len() == taps * channels,
                out@.len() == tau * channels + c,
                forall|t: int, d: int|
                    0 <= t < tau && 0 <= d < channels ==> #[trigger] out@[t * channels + d]
                        == raw@[d * taps + t],
                forall|d: int|
                    0 <= d < c ==> #[trigger] out@[tau * channels + d] == raw@[d * taps + tau],
            decreases channels - c,
        {
            proof {
                assert(c * taps + taps <= taps * channels) by (nonlinear_arith)
                    requires
                        0 <= c < channels,
                        0 <= taps,
                ;
                assert(raw@.len() == raw.len());
            }
            let ghost before = out@;
            out.push(raw[c * taps + tau]);
            proof {
                assert forall|t: int, d: int| 0 <= t < tau && 0 <= d < channels implies
                    #[trigger] out@[t * channels + d] == raw@[d * taps + t] by {
                    assert(t * channels + d < tau * channels) by (nonlinear_arith)
                        requires
                            0 <= t < tau,
                            0 <= d < channels,
                    ;
                    assert(0 <= t * channels) by (nonlinear_arith)
                        requires
                            0 <= t,
                            0 <= channels,
                    ;
                    assert(out@[t * channels + d] == before[t * channels + d]);
                }
                assert forall|d: int| 0 <= d < c + 1 implies #[trigger] out@[tau * channels + d]
                    == raw@[d * taps + tau] by {
                    assert(0 <= tau * channels) by (nonlinear_arith)
                        requires
                            0 <= tau,
                            0 <= channels,
                    ;
                    if d < c {
                        assert(out@[tau * channels + d] == before[tau * channels + d]);
                    }
                }
            }
            c += 1;
        }
        proof {
            assert(tau * channels + channels == (tau + 1) * channels) by (nonlinear_arith);
        }
        tau += 1;
    }
    out
}

/// The query part of a projection that holds, head by head, a query and its gate.
pub open spec fn queries<T>(full: Seq<T>, heads: nat, width: nat) -> Seq<T>
    decreases heads,
{
    if heads == 0 {
        Seq::empty()
    } else {
        queries(full, (heads - 1) as nat, width) + full.subrange(
            (heads - 1) * 2 * width,
            (heads - 1) * 2 * width + width,
        )
    }
}

/// The gating part of a projection that holds, head by head, a query and what gates it.
pub open spec fn gates<T>(full: Seq<T>, heads: nat, width: nat) -> Seq<T>
    decreases heads,
{
    if heads == 0 {
        Seq::empty()
    } else {
        gates(full, (heads - 1) as nat, width) + full.subrange(
            (heads - 1) * 2 * width + width,
            (heads - 1) * 2 * width + 2 * width,
        )
    }
}

/// Parts queries from gates.
pub fn split_queries<T: Copy>(full: &[T], heads: usize, width: usize) -> (res: (Vec<T>, Vec<T>))
    requires
        width > 0,
        full@.len() == heads * 2 * width,
    ensures
        res.0@ == queries(full@, heads as nat, width as nat),
        res.1@ == gates(full@, heads as nat, width as nat),
{
    let mut q: Vec<T> = Vec::new();
    let mut g: Vec<T> = Vec::new();
    let mut h: usize = 0;
    while h < heads
        invariant
            h <= heads,
            width > 0,
            full@.len() == heads * 2 * width,
            q@ == queries(full@, h as nat, width as nat),
            g@ == gates(full@, h as nat, width as nat),
        decreases heads - h,
    {
        proof {
            assert(h * 2 * width + 2 * width <= heads * 2 * width) by (nonlinear_arith)
                requires
                    0 <= h < heads,
                    0 <= width,
            ;
            assert(0 <= h * 2 * width && h * 2 <= h * 2 * width + 2 * width) by (nonlinear_arith)
                requires
                    0 <= h,
                    0 < width,
            ;
            assert(full@.len() == full.len());
        }
        let at: usize = h * 2 * width;
        let mut a = slice_to_vec(slice_subrange(full, at, at + width));
        let mut b = slice_to_vec(slice_subrange(full, at + width, at + 2 * width));
        q.append(&mut a);
        g.append(&mut b);
        h += 1;
    }
    (q, g)
}

// ---- What is remembered ---------------------------------------------------------------------

/// What a model remembers between tokens: for every recurrent layer a window of rows and a state,
/// for every layer of full attention the keys and values of the tokens so far.
pub struct Qwen35Session<T> {
    conv: Vec<Vec<T>>,
    gdn: Vec<Vec<T>>,
    k_cache: Vec<Vec<T>>,
    v_cache: Vec<Vec<T>>,
    position: usize,
    ctx: usize,
    conv_row: usize,
    kv_row: usize,
}

/// What a [`Qwen35Session`] holds.
#[verifier::ext_equal]
pub struct Memory<T> {
    pub conv: Seq<Seq<T>>,
    pub gdn: Seq<Seq<T>>,
    pub keys: Seq<Seq<T>>,
    pub values: Seq<Seq<T>>,
    /// The tokens so far.
    pub position: int,
    /// The greatest number of tokens.
    pub ctx: int,
    /// The width of a row of the windows.
    pub conv_row: int,
    /// The width of a row of the keys and of the values.
    pub kv_row: int,
}

spec fn inner<T>(v: Seq<Vec<T>>) -> Seq<Seq<T>> {
    v.map_values(|x: Vec<T>| x@)
}

impl<T> View for Qwen35Session<T> {
    type V = Memory<T>;

    closed spec fn view(&self) -> Memory<T> {
        Memory {
            conv: inner(self.conv@),
            gdn: inner(self.gdn@),
            keys: inner(self.k_cache@),
            values: inner(self.v_cache@),
            position: self.position as int,
            ctx: self.ctx as int,
            conv_row: self.conv_row as int,
            kv_row: self.kv_row as int,
        }
    }
}

/// `n` sequences of `len` equal elements.
pub open spec fn blank<T>(n: int, len: int, zero: T) -> Seq<Seq<T>> {
    Seq::new(n as nat, |i: int| Seq::new(len as nat, |j: int| zero))
}

impl<T> Memory<T> {
    /// The memory before the first token.
    pub open spec fn fresh(h: Hyper, ctx: int, zero: T) -> Memory<T> {
        let full = full_layers(h, h.n_layer as nat);
        let recurrent = h.n_layer - full;
        let conv_row = 2 * h.d_inner;
        let kv_row = h.n_head_kv * h.head_dim_v;
        Memory {
            conv: blank(recurrent, (h.conv_kernel - 1) * conv_row, zero),
            gdn: blank(recurrent, h.value_heads() * h.linear_head() * h.linear_head(), zero),
            keys: blank(full as int, ctx * kv_row, zero),
            values: blank(full as int, ctx * kv_row, zero),
            position: 0,
            ctx,
            conv_row,
            kv_row,
        }
    }

    /// The buffers have the sizes that their rows ask for.
    pub open spec fn wf(self) -> bool {
        &&& 0 <= self.position <= self.ctx
        &&& self.conv_row >= 0
        &&& self.kv_row >= 0
        &&& self.gdn.len() == self.conv.len()
        &&& self.values.len() == self.keys.len()
        &&& forall|s: int|
            0 <= s < self.conv.len() ==> self.conv_row <= (#[trigger] self.conv[s]).len()
        &&& forall|s: int|
            0 <= s < self.keys.len() ==> (#[trigger] self.keys[s]).len() == self.ctx * self.kv_row
        &&& forall|s: int|
            0 <= s < self.values.len() ==> (#[trigger] self.values[s]).len() == self.ctx
                * self.kv_row
    }

    /// A window with its oldest row dropped and a new one behind it.
    pub open spec fn shifted(self, slot: int, row: Seq<T>) -> Memory<T> {
        Memory {
            conv: self.conv.update(slot, (self.conv[slot] + row).skip(self.conv_row)),
            ..self
        }
    }

    /// Keys and values of the token at hand written down.
    pub open spec fn stored(self, slot: int, k: Seq<T>, v: Seq<T>) -> Memory<T> {
        let at = self.position * self.kv_row;
        Memory {
            keys: self.keys.update(slot, overwritten(self.keys[slot], at, k)),
            values: self.values.update(slot, overwritten(self.values[slot], at, v)),
            ..self
        }
    }
}

/// The refusal of a token that no longer fits.
pub open spec fn context_full(position: int, ctx: int) -> Refusal {
    Refusal::BadFile(
        "contexto lleno: "@ + dec(position as nat) + " tokens procesados, ctx = "@ + dec(
            ctx as nat,
        ),
    )
}

fn blanks<T: Copy>(n: usize, len: usize, zero: T) -> (res: Vec<Vec<T>>)
    ensures
        inner(res@) == blank(n as int, len as int, zero),
{
    let mut v: Vec<Vec<T>> = Vec::new();
    let mut i: usize = 0;
    while i < n
        invariant
            i <= n,
            v@.len() == i,
            forall|j: int|
                0 <= j < i ==> (#[trigger] v@[j])@ == Seq::new(len as nat, |j: int| zero),
        decreases n - i,
    {
        v.push(filled(zero, len));
        i += 1;
    }
    proof {
        assert(inner(v@) =~= blank(n as int, len as int, zero));
    }
    v
}

/// Whether the buffers of a session fit into memory as far as their lengths go.
pub open spec fn session_fits(h: Hyper, ctx: int) -> bool {
    &&& h.n_layer <= usize::MAX
    &&& 2 * h.d_inner <= usize::MAX
    &&& (h.conv_kernel - 1) * (2 * h.d_inner) <= usize::MAX
    &&& 2 * h.group_count <= usize::MAX
    &&& h.value_heads() * h.linear_head() * h.linear_head() <= usize::MAX
    &&& h.n_head_kv * h.head_dim_v <= usize::MAX
    &&& ctx * (h.n_head_kv * h.head_dim_v) <= usize::MAX
}

/// The number of layers of full attention.
pub fn count_full(cfg: &Qwen35Config) -> (res: usize)
    requires
        cfg.full_attn_interval > 0,
    ensures
        res == full_layers(cfg@, cfg.n_layer as nat),
        res <= cfg.n_layer,
{
    let mut n: usize = 0;
    let mut il: usize = 0;
    while il < cfg.n_layer
        invariant
            il <= cfg.n_layer,
            cfg.full_attn_interval > 0,
            n <= il,
            n == full_layers(cfg@, il as nat),
        decreases cfg.n_layer - il,
    {
        if cfg.is_full_attn(il) {
            n += 1;
        }
        il += 1;
    }
    n
}

impl<'m> Qwen35Forward<'m> {
    /// A session with every number at `zero`, and room for `ctx` tokens.
    pub fn new_session<T: Copy>(&self, ctx: usize, zero: T) -> (res: Qwen35Session<T>)
        requires
            self.wf(),
            session_fits(self.model().cfg, ctx as int),
        ensures
            res@ == Memory::fresh(self.model().cfg, ctx as int, zero),
            res@.wf(),
    {
        let cfg = self.cfg();
        let ghost h = cfg@;
        proof {
            self.law_open_model_is_checked();
        }
        let full = count_full(cfg);
        let recurrent: usize = cfg.n_layer - full;
        let conv_row: usize = cfg.d_conv();
        let kv_row: usize = cfg.n_head_kv * cfg.head_dim_v;
        let width: usize = cfg.head_dim_linear();
        let heads: usize = cfg.n_v_heads();
        proof {
            let a = h.value_heads();
            let w = h.linear_head();
            assert(a * w <= a * w * w) by (nonlinear_arith)
                requires
                    a >= 0,
                    w >= 1,
            ;
            assert(conv_row <= (h.conv_kernel - 1) * conv_row) by (nonlinear_arith)
                requires
                    h.conv_kernel >= 2,
                    conv_row >= 0,
            ;
        }
        let conv = blanks(recurrent, (cfg.conv_kernel - 1) * conv_row, zero);
        let gdn = blanks(recurrent, heads * width * width, zero);
        let k_cache = blanks(full, ctx * kv_row, zero);
        let v_cache = blanks(full, ctx * kv_row, zero);
        Qwen35Session { conv, gdn, k_cache, v_cache, position: 0, ctx, conv_row, kv_row }
    }
}

impl<T: Copy> Qwen35Session<T> {
    /// The tokens so far.
    pub fn position(&self) -> (res: usize)
        ensures
            res == self@.position,
    {
        self.position
    }

    /// The tokens so far with the one at hand.
    pub fn tokens_at_hand(&self) -> (res: usize)
        requires
            self@.position < self@.ctx,
        ensures
            res == self@.position + 1,
    {
        self.position + 1
    }

    /// The place of the next token, or the refusal of one that no longer fits.
    pub fn begin(&self) -> (res: Result<usize, LoadError>)
        ensures
            if self@.position < self@.ctx {
                res is Ok && res->Ok_0 == self@.position
            } else {
                res is Err && res->Err_0@ == context_full(self@.position, self@.ctx)
            },
    {
        if self.position >= self.ctx {
            let mut m = String::from_str("contexto lleno: ");
            push_dec(&mut m, self.position as u64);
            m.append(" tokens procesados, ctx = ");
            push_dec(&mut m, self.ctx as u64);
            return Err(LoadError::corrupt(m));
        }
        Ok(self.position)
    }

    /// Counts the token at hand.
    pub fn advance(&mut self)
        requires
            old(self)@.wf(),
            old(self)@.position < old(self)@.ctx,
        ensures
            final(self)@ == (Memory { position: old(self)@.position + 1, ..old(self)@ }),
            final(self)@.wf(),
    {
        self.position = self.position + 1;
    }

    /// The window of a recurrent layer with the row at hand behind it.
    pub fn conv_window(&self, slot: usize, row: &[T]) -> (res: Vec<T>)
        requires
            slot < self@.conv.len(),
        ensures
            res@ == self@.conv[slot as int] + row@,
    {
        let mut w = slice_to_vec(self.conv[slot].as_slice());
        let mut r = slice_to_vec(row);
        w.append(&mut r);
        w
    }

    /// Drops the oldest row of a window and puts the row at hand behind it.
    pub fn conv_shift(&mut self, slot: usize, row: &[T])
        requires
            old(self)@.wf(),
            slot < old(self)@.conv.len(),
            row@.len() == old(self)@.conv_row,
        ensures
            final(self)@ == old(self)@.shifted(slot as int, row@),
            final(self)@.wf(),
    {
        let ghost before = self@;
        proof {
            assert(self@.conv[slot as int].len() >= self.conv_row);
        }
        let w = self.conv_window(slot, row);
        let next = slice_to_vec(slice_subrange(w.as_slice(), self.conv_row, w.len()));
        self.conv.set(slot, next);
        proof {
            assert(next@ =~= w@.skip(self.conv_row as int));
            assert(self@.conv =~= before.shifted(slot as int, row@).conv);
            assert(self@ =~= before.shifted(slot as int, row@));
        }
    }

    /// The state of a recurrent layer.
    pub fn gdn_state(&self, slot: usize) -> (res: Vec<T>)
        requires
            slot < self@.gdn.len(),
        ensures
            res@ == self@.gdn[slot as int],
    {
        slice_to_vec(self.gdn[slot].as_slice())
    }

    /// Replaces the state of a recurrent layer.
    pub fn set_gdn_state(&mut self, slot: usize, state: Vec<T>)
        requires
            old(self)@.wf(),
            slot < old(self)@.gdn.len(),
        ensures
            final(self)@ == (Memory {
                gdn: old(self)@.gdn.update(slot as int, state@),
                ..old(self)@
            }),
            final(self)@.wf(),
    {
        let ghost before = self@;
        self.gdn.set(slot, state);
        proof {
            assert(self@.gdn =~= before.gdn.update(slot as int, state@));
        }
    }

    /// Writes down the keys and values of the token at hand.
    pub fn store(&mut self, slot: usize, k: &[T], v: &[T])
        requires
            old(self)@.wf(),
            slot < old(self)@.keys.len(),
            old(self)@.position < old(self)@.ctx,
            k@.len() == old(self)@.kv_row,
            v@.len() == old(self)@.kv_row,
        ensures
            final(self)@ == old(self)@.stored(slot as int, k@, v@),
            final(self)@.wf(),
    {
        let ghost before = self@;
        proof {
            lemma_row_inside(before.position, before.ctx, before.kv_row);
            assert(before.keys[slot as int].len() == before.ctx * before.kv_row);
            assert(before.values[slot as int].len() == before.ctx * before.kv_row);
            assert(self.k_cache@[slot as int]@.len() == self.k_cache@[slot as int].len());
        }
        let at: usize = self.position * self.kv_row;
        overwrite(&mut self.k_cache[slot], at, k);
        overwrite(&mut self.v_cache[slot], at, v);
        proof {
            assert(self@.keys =~= before.stored(slot as int, k@, v@).keys);
            assert(self@.values =~= before.stored(slot as int, k@, v@).values);
            assert(self@ =~= before.stored(slot as int, k@, v@));
        }
    }
}

impl<T> Memory<T> {
    /// The row of token `p` in a buffer of keys or of values.
    pub open spec fn row_of(self, buffer: Seq<T>, p: int) -> Seq<T> {
        buffer.subrange(p * self.kv_row, p * self.kv_row + self.kv_row)
    }
}

impl<T: Copy> Qwen35Session<T> {
    /// The keys of a layer of full attention, a row for every token.
    pub fn keys(&self, slot: usize) -> (res: &[T])
        requires
            slot < self@.keys.len(),
        ensures
            res@ == self@.keys[slot as int],
    {
        self.k_cache[slot].as_slice()
    }

    /// The values of a layer of full attention, a row for every token.
    pub fn values(&self, slot: usize) -> (res: &[T])
        requires
            slot < self@.values.len(),
        ensures
            res@ == self@.values[slot as int],
    {
        self.v_cache[slot].as_slice()
    }
}

/// What was written down for a token is read back for it, and the rows of all other tokens and
/// the buffers of all other layers stay as they were.
pub proof fn law_stored_rows_are_read_back<T>(
    m: Memory<T>,
    slot: int,
    k: Seq<T>,
    v: Seq<T>,
    p: int,
    other: int,
)
    requires
        m.wf(),
        0 <= slot < m.keys.len(),
        m.position < m.ctx,
        k.len() == m.kv_row,
        v.len() == m.kv_row,
        0 <= p < m.ctx,
        0 <= other < m.keys.len(),
    ensures
        m.row_of(m.stored(slot, k, v).keys[slot], m.position) == k,
        m.row_of(m.stored(slot, k, v).values[slot], m.position) == v,
        p != m.position ==> m.row_of(m.stored(slot, k, v).keys[slot], p) == m.row_of(
            m.keys[slot],
            p,
        ),
        p != m.position ==> m.row_of(m.stored(slot, k, v).values[slot], p) == m.row_of(
            m.values[slot],
            p,
        ),
        other != slot ==> m.stored(slot, k, v).keys[other] == m.keys[other],
        other != slot ==> m.stored(slot, k, v).values[other] == m.values[other],
{
    lemma_overwritten_rows(m.keys[slot], m.position, p, m.ctx, k);
    lemma_overwritten_rows(m.values[slot], m.position, p, m.ctx, v);
}

proof fn lemma_overwritten_rows<T>(all: Seq<T>, at: int, p: int, rows: int, part: Seq<T>)
    requires
        all.len() == rows * part.len(),
        0 <= at < rows,
        0 <= p < rows,
    ensures
        ({
            let w = part.len() as int;
            let new = overwritten(all, at * w, part);
            &&& new.subrange(at * w, at * w + w) == part
            &&& p != at ==> new.subrange(p * w, p * w + w) == all.subrange(p * w, p * w + w)
        }),
{
    let w = part.len() as int;
    let new = overwritten(all, at * w, part);
    lemma_row_inside(at, rows, w);
    lemma_row_inside(p, rows, w);
    assert(new.subrange(at * w, at * w + w) =~= part);
    if p < at {
        lemma_row_inside(p, at, w);
        assert(new.subrange(p * w, p * w + w) =~= all.subrange(p * w, p * w + w));
    } else if p > at {
        lemma_row_inside(at, p, w);
        assert(new.subrange(p * w, p * w + w) =~= all.subrange(p * w, p * w + w));
    }
}

/// The memory after rows have gone through the window of a layer, one after the other.
pub open spec fn after_rows<T>(m: Memory<T>, slot: int, rows: Seq<Seq<T>>) -> Memory<T>
    decreases rows.len(),
{
    if rows.len() == 0 {
        m
    } else {
        after_rows(m, slot, rows.drop_last()).shifted(slot, rows.last())
    }
}

/// Rows one behind the other.
pub open spec fn strung<T>(rows: Seq<Seq<T>>) -> Seq<T>
    decreases rows.len(),
{
    if rows.len() == 0 {
        Seq::empty()
    } else {
        strung(rows.drop_last()) + rows.last()
    }
}

/// A window holds what came last: after any rows it is the window at the start with the rows
/// strung behind it, less as much in front as came in behind.
pub proof fn law_window_holds_what_came_last<T>(m: Memory<T>, slot: int, rows: Seq<Seq<T>>)
    requires
        m.wf(),
        0 <= slot < m.conv.len(),
        forall|i: int| 0 <= i < rows.len() ==> (#[trigger] rows[i]).len() == m.conv_row,
    ensures
        after_rows(m, slot, rows).conv[slot] == (m.conv[slot] + strung(rows)).skip(
            rows.len() * m.conv_row,
        ),
        after_rows(m, slot, rows).conv[slot].len() == m.conv[slot].len(),
        after_rows(m, slot, rows).conv.len() == m.conv.len(),
        after_rows(m, slot, rows).conv_row == m.conv_row,
        strung(rows).len() == rows.len() * m.conv_row,
    decreases rows.len(),
{
    let w = m.conv_row;
    let n = rows.len() as int;
    if n == 0 {
        assert((m.conv[slot] + strung(rows)).skip(0) =~= m.conv[slot]);
    } else {
        let front = rows.drop_last();
        assert forall|i: int| 0 <= i < front.len() implies (#[trigger] front[i]).len() == w by {
            assert(front[i] == rows[i]);
        }
        law_window_holds_what_came_last(m, slot, front);
        assert((n - 1) * w + w == n * w) by (nonlinear_arith);
        assert(0 <= (n - 1) * w) by (nonlinear_arith)
            requires
                n >= 1,
                w >= 0,
        ;
        assert(m.conv[slot].len() >= w);
        let a = m.conv[slot] + strung(front);
        assert((a.skip((n - 1) * w) + rows.last()).skip(w) =~= (m.conv[slot] + strung(rows)).skip(
            n * w,
        ));
    }
}

// ---- Watching a run -------------------------------------------------------------------------

/// The outcomes of all layers for one token: a row for every layer, one behind the other.
#[derive(Debug)]
pub struct LayerDump<T> {
    /// The sum after attention.
    pub attn_residual: Vec<T>,
    /// The outcome of the layer.
    pub l_out: Vec<T>,
    /// The outcome of the linear part of a recurrent layer.
    pub linear_attn_out: Vec<T>,
}

impl<T: Copy> LayerDump<T> {
    /// Writes the rows of layer `il`.
    pub fn push(&mut self, il: usize, l_out: &[T], residual: &[T], linear: &[T])
        requires
            residual@.len() == l_out@.len(),
            linear@.len() == l_out@.len(),
            il * l_out@.len() + l_out@.len() <= old(self).l_out@.len(),
            il * l_out@.len() + l_out@.len() <= old(self).attn_residual@.len(),
            il * l_out@.len() + l_out@.len() <= old(self).linear_attn_out@.len(),
        ensures
            ({
                let at = il * l_out@.len();
                &&& final(self).l_out@ == overwritten(old(self).l_out@, at, l_out@)
                &&& final(self).attn_residual@ == overwritten(
                    old(self).attn_residual@,
                    at,
                    residual@,
                )
                &&& final(self).linear_attn_out@ == overwritten(
                    old(self).linear_attn_out@,
                    at,
                    linear@,
                )
            }),
    {
        proof {
            assert(self.l_out@.len() == self.l_out.len());
            assert(0 <= il * l_out@.len()) by (nonlinear_arith)
                requires
                    il >= 0,
            ;
        }
        let base: usize = il * l_out.len();
        overwrite(&mut self.l_out, base, l_out);
        overwrite(&mut self.attn_residual, base, residual);
        overwrite(&mut self.linear_attn_out, base, linear);
    }
}

/// Numbers seen inside the layers, under their names, token by token.
#[derive(Debug)]
pub struct NodeCapture<T> {
    pub per_token: Vec<Vec<(String, Vec<T>)>>,
}

/// The name of a number seen inside layer `il`.
pub open spec fn node_name(name: Seq<char>, il: int) -> Seq<char> {
    name + "-"@ + dec(il as nat)
}

impl<T: Copy> NodeCapture<T> {
    /// What has been seen, as names and numbers.
    pub open spec fn seen(&self) -> Seq<Seq<(Seq<char>, Seq<T>)>> {
        self.per_token@.map_values(
            |nodes: Vec<(String, Vec<T>)>|
                nodes@.map_values(|n: (String, Vec<T>)| (n.0@, n.1@)),
        )
    }

    /// Nothing seen yet.
    pub fn new() -> (res: NodeCapture<T>)
        ensures
            res.seen() == Seq::<Seq<(Seq<char>, Seq<T>)>>::empty(),
    {
        let res = NodeCapture { per_token: Vec::new() };
        proof {
            assert(res.seen() =~= Seq::<Seq<(Seq<char>, Seq<T>)>>::empty());
        }
        res
    }

    /// Begins the next token.
    pub fn begin_token(&mut self)
        ensures
            final(self).seen() == old(self).seen().push(Seq::empty()),
    {
        let ghost before = self.seen();
        self.per_token.push(Vec::new());
        proof {
            assert(self.seen().last() =~= Seq::<(Seq<char>, Seq<T>)>::empty());
            assert(self.seen() =~= before.push(Seq::empty()));
        }
    }

    /// Adds numbers to those of the token at hand, under their name and the layer's number.
    pub fn push_node(&mut self, il: usize, name: &str, values: &[T])
        requires
            old(self).seen().len() > 0,
        ensures
            final(self).seen() == old(self).seen().drop_last().push(
                old(self).seen().last().push((node_name(name@, il as int), values@)),
            ),
    {
        let ghost before = self.seen();
        let mut full = String::from_str(name);
        full.append("-");
        push_dec(&mut full, il as u64);
        let last: usize = self.per_token.len() - 1;
        let ghost nodes = self.per_token@[last as int]@;
        self.per_token[last].push((full, slice_to_vec(values)));
        proof {
            let want = before.last().push((node_name(name@, il as int), values@));
            assert(self.seen().last() =~= want);
            assert(self.seen() =~= before.drop_last().push(want));
        }
    }
}

/// A row is inside its buffer.
proof fn lemma_row_inside(p: int, rows: int, width: int)
    requires
        0 <= p < rows,
        0 <= width,
    ensures
        0 <= p * width,
        p * width + width <= rows * width,
{
    assert(0 <= p * width && p * width + width <= rows * width) by (nonlinear_arith)
        requires
            0 <= p < rows,
            0 <= width,
    ;
}

/// Queries and gates stand side by side in a projection, head by head: number `i` of the query of
/// head `h` is number `i` of the first half of the head's stretch, and that of its gate is number
/// `i` of the second half.
pub proof fn law_queries_and_gates_stand_side_by_side<T>(
    full: Seq<T>,
    heads: nat,
    width: nat,
    h: int,
    i: int,
)
    requires
        full.len() == 2 * (heads * width),
        0 <= h < heads,
        0 <= i < width,
    ensures
        queries(full, heads, width).len() == heads * width,
        gates(full, heads, width).len() == heads * width,
        0 <= h * width + i < heads * width,
        queries(full, heads, width)[h * width + i] == full[h * (2 * width) + i],
        gates(full, heads, width)[h * width + i] == full[h * (2 * width) + width + i],
{
    lemma_side_by_side(full, heads, heads, width, h, i);
}

proof fn lemma_side_by_side<T>(
    full: Seq<T>,
    all: nat,
    heads: nat,
    width: nat,
    h: int,
    i: int,
)
    requires
        full.len() == 2 * (all * width),
        heads <= all,
        0 <= i < width,
    ensures
        queries(full, heads, width).len() == heads * width,
        gates(full, heads, width).len() == heads * width,
        0 <= h < heads ==> {
            &&& 0 <= h * width + i < heads * width
            &&& queries(full, heads, width)[h * width + i] == full[h * (2 * width) + i]
            &&& gates(full, heads, width)[h * width + i] == full[h * (2 * width) + width + i]
        },
    decreases heads,
{
    if heads > 0 {
        let n = (heads - 1) as nat;
        lemma_side_by_side(full, all, n, width, h, i);
        assert(n * 2 * width == n * (2 * width)) by (nonlinear_arith);
        assert(0 <= n * (2 * width) && n * (2 * width) + 2 * width <= 2 * (all * width))
            by (nonlinear_arith)
            requires
                n + 1 <= all,
                n >= 0,
                width >= 0,
        ;
        assert(n * width + width == heads * width) by (nonlinear_arith)
            requires
                n == heads - 1,
        ;
        if 0 <= h < heads {
            assert(0 <= h * width + i < heads * width) by (nonlinear_arith)
                requires
                    0 <= h < heads,
                    0 <= i < width,
            ;
        }
    } else {
        assert(0 * width == 0);
    }
}

} // verus!
