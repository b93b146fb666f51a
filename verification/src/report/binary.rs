//! Numbers as they lie in files: least significant byte first.

use vstd::prelude::*;
use vstd::slice::slice_subrange;
use vstd::utf8::encode_utf8;

use crate::error::{LoadError, Refusal};
use crate::gguf::source::le;
use crate::ieee::F32;
use crate::session::{LayerDump, NodeCapture};
use crate::tensor::row;
use crate::text::{dec, push_dec};

verus! {

/// The four bytes of a number.
pub open spec fn bytes_of(n: u32) -> Seq<u8> {
    seq![
        (n as int % 256) as u8,
        (n as int / 256 % 256) as u8,
        (n as int / 65536 % 256) as u8,
        (n as int / 16777216) as u8,
    ]
}

/// The bytes of floats, one behind the other.
pub open spec fn floats_bytes(v: Seq<F32>) -> Seq<u8>
    decreases v.len(),
{
    if v.len() == 0 {
        Seq::empty()
    } else {
        floats_bytes(v.drop_last()) + bytes_of(v.last().bits)
    }
}

/// The floats that bytes hold, four to each.
pub open spec fn floats_in(b: Seq<u8>) -> Seq<F32> {
    Seq::new(b.len() / 4, |i: int| F32 { bits: le(b.subrange(4 * i, 4 * i + 4)) as u32 })
}

/// The four bytes of a number give it back.
pub proof fn law_bytes_give_back(n: u32)
    ensures
        bytes_of(n).len() == 4,
        le(bytes_of(n)) == n,
{
    let b = bytes_of(n);
    assert(b.skip(1).skip(1) =~= b.skip(2));
    assert(b.skip(2).skip(1) =~= b.skip(3));
    assert(b.skip(3).skip(1) =~= Seq::<u8>::empty());
    reveal_with_fuel(le, 5);
}

/// Floats that are written are read back.
pub proof fn law_floats_read_back(v: Seq<F32>)
    ensures
        floats_bytes(v).len() == 4 * v.len(),
        floats_in(floats_bytes(v)) == v,
    decreases v.len(),
{
    if v.len() > 0 {
        let front = v.drop_last();
        law_floats_read_back(front);
        law_bytes_give_back(v.last().bits);
        let b = floats_bytes(v);
        let n = front.len() as int;
        assert forall|i: int| 0 <= i < v.len() implies floats_in(b)[i] == #[trigger] v[i] by {
            if i < n {
                assert(b.subrange(4 * i, 4 * i + 4) =~= floats_bytes(front).subrange(
                    4 * i,
                    4 * i + 4,
                ));
                assert(floats_in(floats_bytes(front))[i] == front[i]);
            } else {
                assert(b.subrange(4 * i, 4 * i + 4) =~= bytes_of(v.last().bits));
            }
        }
        assert(floats_in(b) =~= v);
    } else {
        assert(floats_in(floats_bytes(v)) =~= v);
    }
}

fn push_number(out: &mut Vec<u8>, n: u32)
    ensures
        final(out)@ == old(out)@ + bytes_of(n),
{
    out.push((n % 256) as u8);
    out.push((n / 256 % 256) as u8);
    out.push((n / 65536 % 256) as u8);
    out.push((n / 16777216) as u8);
    proof {
        assert(out@ =~= old(out)@ + bytes_of(n));
    }
}

fn push_floats(out: &mut Vec<u8>, v: &[F32])
    ensures
        final(out)@ == old(out)@ + floats_bytes(v@),
{
    let mut i: usize = 0;
    proof {
        assert(v@.take(0) =~= Seq::<F32>::empty());
        assert(out@ =~= old(out)@ + Seq::<u8>::empty());
    }
    while i < v.len()
        invariant
            i <= v@.len(),
            out@ == old(out)@ + floats_bytes(v@.take(i as int)),
        decreases v@.len() - i,
    {
        proof {
            assert(v@.take(i + 1).drop_last() =~= v@.take(i as int));
            assert(v@.take(i + 1).last() == v@[i as int]);
        }
        push_number(out, v[i].bits);
        proof {
            assert(out@ =~= old(out)@ + floats_bytes(v@.take(i + 1)));
        }
        i += 1;
    }
    proof {
        assert(v@.take(i as int) =~= v@);
    }
}

// ---- Layers ---------------------------------------------------------------------------------

/// The three rows of one layer for one token.
pub open spec fn cell_bytes(d: LayerDump<F32>, n: int, il: int) -> Seq<u8> {
    floats_bytes(row(d.l_out@, n, il)) + floats_bytes(row(d.attn_residual@, n, il)) + floats_bytes(
        row(d.linear_attn_out@, n, il),
    )
}

/// One layer, for the first `t` tokens.
pub open spec fn layer_bytes(dumps: Seq<LayerDump<F32>>, n: int, il: int, t: nat) -> Seq<u8>
    decreases t,
{
    if t == 0 {
        Seq::empty()
    } else {
        layer_bytes(dumps, n, il, (t - 1) as nat) + cell_bytes(dumps[t - 1], n, il)
    }
}

/// The first `il` layers, for all tokens.
pub open spec fn all_layers_bytes(dumps: Seq<LayerDump<F32>>, n: int, il: nat) -> Seq<u8>
    decreases il,
{
    if il == 0 {
        Seq::empty()
    } else {
        all_layers_bytes(dumps, n, (il - 1) as nat) + layer_bytes(dumps, n, il - 1, dumps.len())
    }
}

/// Layers, tokens and width, then layer by layer and token by token the three rows.
pub open spec fn layers_file(dumps: Seq<LayerDump<F32>>, n_layer: usize, n: usize) -> Seq<u8> {
    bytes_of(n_layer as u32) + bytes_of(dumps.len() as u32) + bytes_of(n as u32)
        + all_layers_bytes(dumps, n as int, n_layer as nat)
}

/// A dump holds a row for every layer.
pub open spec fn covers(d: LayerDump<F32>, n_layer: int, n: int) -> bool {
    &&& n_layer * n <= d.l_out@.len()
    &&& n_layer * n <= d.attn_residual@.len()
    &&& n_layer * n <= d.linear_attn_out@.len()
}

/// The file with the outcomes of all layers for all tokens.
pub fn layers_bin(dumps: &[LayerDump<F32>], n_layer: usize, n: usize) -> (res: Vec<u8>)
    requires
        forall|t: int|
            0 <= t < dumps@.len() ==> covers(#[trigger] dumps@[t], n_layer as int, n as int),
    ensures
        res@ == layers_file(dumps@, n_layer, n),
{
    let mut out: Vec<u8> = Vec::new();
    push_number(&mut out, n_layer as u32);
    push_number(&mut out, dumps.len() as u32);
    push_number(&mut out, n as u32);
    let ghost header = bytes_of(n_layer as u32) + bytes_of(dumps@.len() as u32) + bytes_of(
        n as u32,
    );
    let mut il: usize = 0;
    proof {
        assert(out@ =~= header + all_layers_bytes(dumps@, n as int, 0));
    }
    while il < n_layer
        invariant
            il <= n_layer,
            out@ == header + all_layers_bytes(dumps@, n as int, il as nat),
            forall|t: int|
                0 <= t < dumps@.len() ==> covers(#[trigger] dumps@[t], n_layer as int, n as int),
        decreases n_layer - il,
    {
        let ghost before = out@;
        let mut t: usize = 0;
        proof {
            assert(out@ =~= before + layer_bytes(dumps@, n as int, il as int, 0));
        }
        while t < dumps.len()
            invariant
                il < n_layer,
                t <= dumps@.len(),
                out@ == before + layer_bytes(dumps@, n as int, il as int, t as nat),
                forall|t: int|
                    0 <= t < dumps@.len() ==> covers(
                        #[trigger] dumps@[t],
                        n_layer as int,
                        n as int,
                    ),
            decreases dumps@.len() - t,
        {
            let d = &dumps[t];
            proof {
                assert(covers(dumps@[t as int], n_layer as int, n as int));
                assert(0 <= il * n && il * n + n <= n_layer * n) by (nonlinear_arith)
                    requires
                        0 <= il < n_layer,
                        0 <= n,
                ;
                assert(d.l_out@.len() == d.l_out.len());
            }
            let base: usize = il * n;
            let ghost mid = out@;
            push_floats(&mut out, slice_subrange(d.l_out.as_slice(), base, base + n));
            push_floats(&mut out, slice_subrange(d.attn_residual.as_slice(), base, base + n));
            push_floats(&mut out, slice_subrange(d.linear_attn_out.as_slice(), base, base + n));
            proof {
                assert(out@ =~= mid + cell_bytes(*d, n as int, il as int));
                assert(out@ =~= before + layer_bytes(dumps@, n as int, il as int, (t + 1) as nat));
            }
            t += 1;
        }
        proof {
            assert(out@ =~= header + all_layers_bytes(dumps@, n as int, (il + 1) as nat));
        }
        il += 1;
    }
    out
}

// ---- Nodes ----------------------------------------------------------------------------------

/// One node: the length of its name, the name, the count of its numbers, the numbers.
pub open spec fn node_bytes(node: (String, Vec<F32>)) -> Seq<u8> {
    bytes_of(encode_utf8(node.0@).len() as u32) + encode_utf8(node.0@) + bytes_of(
        node.1@.len() as u32,
    ) + floats_bytes(node.1@)
}

/// Nodes, one behind the other.
pub open spec fn nodes_bytes(nodes: Seq<(String, Vec<F32>)>) -> Seq<u8>
    decreases nodes.len(),
{
    if nodes.len() == 0 {
        Seq::empty()
    } else {
        nodes_bytes(nodes.drop_last()) + node_bytes(nodes.last())
    }
}

/// The nodes of the token that a capture holds; none where it holds no token.
pub open spec fn captured(c: NodeCapture<F32>) -> Seq<(String, Vec<F32>)> {
    if c.per_token@.len() == 0 {
        Seq::empty()
    } else {
        c.per_token@[0]@
    }
}

/// Captures, one behind the other: each with the count of its nodes in front.
pub open spec fn captures_bytes(captures: Seq<NodeCapture<F32>>) -> Seq<u8>
    decreases captures.len(),
{
    if captures.len() == 0 {
        Seq::empty()
    } else {
        captures_bytes(captures.drop_last()) + bytes_of(captured(captures.last()).len() as u32)
            + nodes_bytes(captured(captures.last()))
    }
}

/// The count of the tokens, then their captures.
pub open spec fn nodes_file(captures: Seq<NodeCapture<F32>>) -> Seq<u8> {
    bytes_of(captures.len() as u32) + captures_bytes(captures)
}

fn push_nodes(out: &mut Vec<u8>, nodes: &Vec<(String, Vec<F32>)>)
    ensures
        final(out)@ == old(out)@ + nodes_bytes(nodes@),
{
    let mut i: usize = 0;
    proof {
        assert(nodes@.take(0) =~= Seq::<(String, Vec<F32>)>::empty());
        assert(out@ =~= old(out)@ + Seq::<u8>::empty());
    }
    while i < nodes.len()
        invariant
            i <= nodes@.len(),
            out@ == old(out)@ + nodes_bytes(nodes@.take(i as int)),
        decreases nodes@.len() - i,
    {
        proof {
            assert(nodes@.take(i + 1).drop_last() =~= nodes@.take(i as int));
            assert(nodes@.take(i + 1).last() == nodes@[i as int]);
        }
        let ghost before = out@;
        let name = nodes[i].0.as_str().as_bytes();
        let mut name = vstd::slice::slice_to_vec(name);
        push_number(out, name.len() as u32);
        out.append(&mut name);
        push_number(out, nodes[i].1.len() as u32);
        push_floats(out, nodes[i].1.as_slice());
        proof {
            assert(out@ =~= before + node_bytes(nodes@[i as int]));
            assert(out@ =~= old(out)@ + nodes_bytes(nodes@.take(i + 1)));
        }
        i += 1;
    }
    proof {
        assert(nodes@.take(i as int) =~= nodes@);
    }
}

/// The file with the numbers seen inside the layers, token by token.
pub fn nodes_bin(captures: &[NodeCapture<F32>]) -> (res: Vec<u8>)
    ensures
        res@ == nodes_file(captures@),
{
    let mut out: Vec<u8> = Vec::new();
    push_number(&mut out, captures.len() as u32);
    let ghost header = bytes_of(captures@.len() as u32);
    let mut i: usize = 0;
    proof {
        assert(captures@.take(0) =~= Seq::<NodeCapture<F32>>::empty());
        assert(out@ =~= header + captures_bytes(captures@.take(0)));
    }
    while i < captures.len()
        invariant
            i <= captures@.len(),
            out@ == header + captures_bytes(captures@.take(i as int)),
        decreases captures@.len() - i,
    {
        proof {
            assert(captures@.take(i + 1).drop_last() =~= captures@.take(i as int));
            assert(captures@.take(i + 1).last() == captures@[i as int]);
        }
        let tokens = &captures[i].per_token;
        if tokens.len() == 0 {
            push_number(&mut out, 0);
            proof {
                assert(out@ =~= header + captures_bytes(captures@.take(i + 1)));
            }
        } else {
            push_number(&mut out, tokens[0].len() as u32);
            push_nodes(&mut out, &tokens[0]);
            proof {
                assert(out@ =~= header + captures_bytes(captures@.take(i + 1)));
            }
        }
        i += 1;
    }
    proof {
        assert(captures@.take(i as int) =~= captures@);
    }
    out
}

// ---- Reading --------------------------------------------------------------------------------

/// The floats of a file that must hold `expect` of them, or the refusal.
pub open spec fn expected_floats(path: Seq<char>, bytes: Seq<u8>, expect: int) -> Result<
    Seq<F32>,
    Refusal,
> {
    if bytes.len() != expect * 4 {
        Err(
            Refusal::BadFile(
                "oráculo "@ + path + ": "@ + dec(bytes.len()) + " bytes, se esperaban "@ + dec(
                    (expect * 4) as nat,
                ),
            ),
        )
    } else {
        Ok(floats_in(bytes))
    }
}

/// Reads the floats of a file that must hold `expect` of them.
pub fn read_floats(path: &str, bytes: &[u8], expect: usize) -> (res: Result<Vec<F32>, LoadError>)
    requires
        expect * 4 <= usize::MAX,
    ensures
        match expected_floats(path@, bytes@, expect as int) {
            Ok(v) => res is Ok && res->Ok_0@ == v,
            Err(e) => res is Err && res->Err_0@ == e,
        },
{
    if bytes.len() != expect * 4 {
        let mut m = String::from_str("oráculo ");
        m.append(path);
        m.append(": ");
        push_dec(&mut m, bytes.len() as u64);
        m.append(" bytes, se esperaban ");
        push_dec(&mut m, (expect * 4) as u64);
        return Err(LoadError::corrupt(m));
    }
    let mut v: Vec<F32> = Vec::new();
    let mut i: usize = 0;
    while i < expect
        invariant
            i <= expect,
            bytes@.len() == expect * 4,
            expect * 4 <= usize::MAX,
            v@ == floats_in(bytes@).take(i as int),
        decreases expect - i,
    {
        let a: u32 = bytes[4 * i] as u32;
        let b: u32 = bytes[4 * i + 1] as u32;
        let c: u32 = bytes[4 * i + 2] as u32;
        let d: u32 = bytes[4 * i + 3] as u32;
        let bits: u32 = a + 256 * (b + 256 * (c + 256 * d));
        proof {
            let s = bytes@.subrange(4 * i, 4 * i + 4);
            assert(s.skip(1).skip(1) =~= s.skip(2));
            assert(s.skip(2).skip(1) =~= s.skip(3));
            assert(s.skip(3).skip(1) =~= Seq::<u8>::empty());
            reveal_with_fuel(le, 5);
            assert(le(s) == bits);
            assert(floats_in(bytes@).take(i + 1) =~= floats_in(bytes@).take(i as int).push(
                F32 { bits },
            ));
        }
        v.push(F32 { bits });
        i += 1;
    }
    proof {
        assert(v@ =~= floats_in(bytes@));
    }
    Ok(v)
}

proof fn lemma_row_inside(d: LayerDump<F32>, n_layer: int, n: int, il: int)
    requires
        covers(d, n_layer, n),
        0 <= il < n_layer,
        0 <= n,
    ensures
        row(d.l_out@, n, il).len() == n,
        row(d.attn_residual@, n, il).len() == n,
        row(d.linear_attn_out@, n, il).len() == n,
        cell_bytes(d, n, il).len() == 12 * n,
{
    assert(0 <= il * n && il * n + n <= n_layer * n) by (nonlinear_arith)
        requires
            0 <= il < n_layer,
            0 <= n,
    ;
    law_floats_read_back(row(d.l_out@, n, il));
    law_floats_read_back(row(d.attn_residual@, n, il));
    law_floats_read_back(row(d.linear_attn_out@, n, il));
}

proof fn lemma_cell_place(
    dumps: Seq<LayerDump<F32>>,
    n_layer: int,
    n: int,
    il: int,
    t: nat,
    k: int,
)
    requires
        forall|i: int| 0 <= i < dumps.len() ==> covers(#[trigger] dumps[i], n_layer, n),
        0 <= il < n_layer,
        0 <= n,
        t <= dumps.len(),
    ensures
        layer_bytes(dumps, n, il, t).len() == 12 * n * t,
        0 <= k < t ==> 0 <= 12 * n * k && 12 * n * k + 12 * n <= 12 * n * t && layer_bytes(
            dumps,
            n,
            il,
            t,
        ).subrange(12 * n * k, 12 * n * k + 12 * n) == cell_bytes(dumps[k], n, il),
    decreases t,
{
    if t > 0 {
        let u = (t - 1) as nat;
        lemma_cell_place(dumps, n_layer, n, il, u, k);
        lemma_row_inside(dumps[t - 1], n_layer, n, il);
        assert(12 * n * u + 12 * n == 12 * n * t) by (nonlinear_arith)
            requires
                u == t - 1,
        ;
        if 0 <= k < t {
            assert(0 <= 12 * n * k && 12 * n * k + 12 * n <= 12 * n * t) by (nonlinear_arith)
                requires
                    0 <= k < t,
                    0 <= n,
            ;
            assert(layer_bytes(dumps, n, il, t).subrange(12 * n * k, 12 * n * k + 12 * n)
                =~= cell_bytes(dumps[k], n, il)) by {
                if k < u {
                    assert(12 * n * k + 12 * n <= 12 * n * u) by (nonlinear_arith)
                        requires
                            k < u,
                            0 <= n,
                    ;
                    assert(layer_bytes(dumps, n, il, t).subrange(12 * n * k, 12 * n * k + 12 * n)
                        =~= layer_bytes(dumps, n, il, u).subrange(
                        12 * n * k,
                        12 * n * k + 12 * n,
                    ));
                }
            }
        }
    } else {
        assert(12 * n * 0 == 0);
    }
}

proof fn lemma_layer_place(dumps: Seq<LayerDump<F32>>, n_layer: int, n: int, m: nat, il: int)
    requires
        forall|i: int| 0 <= i < dumps.len() ==> covers(#[trigger] dumps[i], n_layer, n),
        m <= n_layer,
        0 <= n,
    ensures
        ({
            let size = 12 * n * dumps.len();
            &&& 0 <= size
            &&& all_layers_bytes(dumps, n, m).len() == size * m
            &&& 0 <= il < m ==> 0 <= size * il && size * il + size <= size * m
                && all_layers_bytes(dumps, n, m).subrange(size * il, size * il + size)
                == layer_bytes(dumps, n, il, dumps.len())
        }),
    decreases m,
{
    let size = 12 * n * dumps.len();
    assert(0 <= size) by (nonlinear_arith)
        requires
            size == 12 * n * dumps.len(),
            0 <= n,
    ;
    if m > 0 {
        let u = (m - 1) as nat;
        lemma_layer_place(dumps, n_layer, n, u, il);
        lemma_cell_place(dumps, n_layer, n, m - 1, dumps.len(), 0);
        assert(size * u + size == size * m) by (nonlinear_arith)
            requires
                u == m - 1,
        ;
        if 0 <= il < m {
            assert(0 <= size * il && size * il + size <= size * m) by (nonlinear_arith)
                requires
                    0 <= il < m,
                    0 <= size,
            ;
            assert(all_layers_bytes(dumps, n, m).subrange(size * il, size * il + size)
                =~= layer_bytes(dumps, n, il, dumps.len())) by {
                if il < u {
                    assert(size * il + size <= size * u) by (nonlinear_arith)
                        requires
                            il < u,
                            0 <= size,
                    ;
                    assert(all_layers_bytes(dumps, n, m).subrange(size * il, size * il + size)
                        =~= all_layers_bytes(dumps, n, u).subrange(size * il, size * il + size));
                }
            }
        }
    } else {
        assert(size * 0 == 0);
    }
}

/// Where a row stands in a file of outcomes: behind the three counts, layer by layer, in a layer
/// token by token, and of a token first what goes out, next what the feed-forward part took, and
/// last what a recurrent layer added.
pub proof fn law_outcomes_stand_layer_by_layer(
    dumps: Seq<LayerDump<F32>>,
    n_layer: usize,
    n: usize,
    il: int,
    t: int,
)
    requires
        forall|i: int| 0 <= i < dumps.len() ==> covers(#[trigger] dumps[i], n_layer as int, n as int),
        0 <= il < n_layer,
        0 <= t < dumps.len(),
    ensures
        ({
            let file = layers_file(dumps, n_layer, n);
            let at = 12 + 12 * n * dumps.len() * il + 12 * n * t;
            let d = dumps[t];
            &&& file.len() == 12 + 12 * n * dumps.len() * n_layer
            &&& 12 <= at && at + 12 * n <= file.len()
            &&& file.subrange(at, at + 4 * n) == floats_bytes(row(d.l_out@, n as int, il))
            &&& file.subrange(at + 4 * n, at + 8 * n) == floats_bytes(
                row(d.attn_residual@, n as int, il),
            )
            &&& file.subrange(at + 8 * n, at + 12 * n) == floats_bytes(
                row(d.linear_attn_out@, n as int, il),
            )
        }),
{
    let file = layers_file(dumps, n_layer, n);
    let w = n as int;
    let size = 12 * w * dumps.len();
    let at = 12 + size * il + 12 * w * t;
    let d = dumps[t];
    law_bytes_give_back(n_layer as u32);
    law_bytes_give_back(dumps.len() as u32);
    law_bytes_give_back(n as u32);
    lemma_layer_place(dumps, n_layer as int, w, n_layer as nat, il);
    lemma_cell_place(dumps, n_layer as int, w, il, dumps.len(), t);
    lemma_row_inside(d, n_layer as int, w, il);
    law_floats_read_back(row(d.l_out@, w, il));
    law_floats_read_back(row(d.attn_residual@, w, il));
    law_floats_read_back(row(d.linear_attn_out@, w, il));
    let all = all_layers_bytes(dumps, w, n_layer as nat);
    let layer = all.subrange(size * il, size * il + size);
    let cell = layer.subrange(12 * w * t, 12 * w * t + 12 * w);
    assert(cell == cell_bytes(d, w, il));
    assert(file.skip(12) =~= all);
    assert(file.subrange(at, at + 12 * w) =~= cell);
    assert(file.subrange(at, at + 4 * w) =~= cell.subrange(0, 4 * w));
    assert(file.subrange(at + 4 * w, at + 8 * w) =~= cell.subrange(4 * w, 8 * w));
    assert(file.subrange(at + 8 * w, at + 12 * w) =~= cell.subrange(8 * w, 12 * w));
    assert(cell.subrange(0, 4 * w) =~= floats_bytes(row(d.l_out@, w, il)));
    assert(cell.subrange(4 * w, 8 * w) =~= floats_bytes(row(d.attn_residual@, w, il)));
    assert(cell.subrange(8 * w, 12 * w) =~= floats_bytes(row(d.linear_attn_out@, w, il)));
}

} // verus!
