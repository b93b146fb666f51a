//! What holds of every file that is accepted.

use vstd::prelude::*;
use vstd::set_lib::{lemma_int_range, lemma_len_subset, lemma_set_disjoint_lens, set_int_range};

use super::ggml_type::{bytes_for, type_label};
use super::metadata::{items_at, lemma_items_extent, lemma_items_steady, Item};
use super::ranges::{before, end_of, fault, first_fault, reaches_into, table_fault, GGUF_ALIGN};
use super::reader::{
    align_up, alignment_fault, assembled, found, gguf_of, header_of, known_bytes, last_named,
    lookup, rebased, Gguf,
};
use super::source::{le, lemma_bytes_steady, steady};
use super::tensor_info::{overflows, product, Tensor, TensorMeta};
use super::value::{GgufValue, Value};
use crate::error::Refusal;

verus! {

/// The tensors before tensor `j`.
spec fn earlier(ts: Seq<Tensor>, j: int) -> Set<int> {
    set_int_range(0, ts.len() as int).filter(|m: int| before(ts, m, j))
}

proof fn lemma_earlier_finite(ts: Seq<Tensor>, j: int)
    ensures
        earlier(ts, j).finite(),
{
    lemma_int_range(0, ts.len() as int);
    set_int_range(0, ts.len() as int).lemma_len_filter(|m: int| before(ts, m, j));
}

proof fn lemma_earlier_grows(ts: Seq<Tensor>, i: int, j: int)
    requires
        0 <= i < ts.len(),
        0 <= j < ts.len(),
        before(ts, i, j),
    ensures
        earlier(ts, i).len() < earlier(ts, j).len(),
{
    lemma_earlier_finite(ts, i);
    lemma_earlier_finite(ts, j);
    assert(earlier(ts, i).subset_of(earlier(ts, j)));
    assert(earlier(ts, j).contains(i));
    assert(!earlier(ts, i).contains(i));
    assert(earlier(ts, i).subset_of(earlier(ts, j).remove(i)));
    lemma_len_subset(earlier(ts, i), earlier(ts, j).remove(i));
}

/// A table without a fault of its own has no faulty tensor.
proof fn lemma_fault_free(ts: Seq<Tensor>, fs: int, j: int)
    requires
        table_fault(ts, fs) is None,
        0 <= j < ts.len(),
    ensures
        fault(ts, fs, j) is None,
    decreases earlier(ts, j).len(),
{
    if fault(ts, fs, j) is Some {
        if first_fault(ts, fs, j) {
            let c = choose|c: int| first_fault(ts, fs, c);
            assert(fault(ts, fs, c) is Some);
        } else {
            let m = choose|m: int|
                0 <= m < ts.len() && #[trigger] before(ts, m, j) && fault(ts, fs, m) is Some;
            lemma_earlier_grows(ts, m, j);
            lemma_fault_free(ts, fs, m);
        }
    }
}

proof fn lemma_apart(ts: Seq<Tensor>, fs: int, i: int, j: int)
    requires
        table_fault(ts, fs) is None,
        0 <= i < ts.len(),
        0 <= j < ts.len(),
        ts[i].nbytes is Some,
        ts[j].nbytes is Some,
        before(ts, i, j),
    ensures
        end_of(ts[i]) <= ts[j].offset,
{
    lemma_fault_free(ts, fs, j);
    assert(!reaches_into(ts, i, j));
}

/// A table entry agrees with itself: the count is that of the shape, the size that of the count.
pub open spec fn consistent(t: Tensor) -> bool {
    &&& !overflows(t.shape)
    &&& t.n_elements == product(t.shape)
    &&& t.n_elements > 0
    &&& t.dtype == type_label(t.ggml_type_id)
    &&& match bytes_for(t.ggml_type_id, t.n_elements) {
        Some(b) => t.nbytes == Some(b as u64) && b <= u64::MAX,
        None => t.nbytes is None,
    }
}

proof fn lemma_product_fits(dims: Seq<u64>)
    requires
        !overflows(dims),
    ensures
        product(dims) <= u64::MAX,
{
    assert(dims.take(dims.len() as int) =~= dims);
    assert(product(dims.take(dims.len() as int)) <= u64::MAX);
}

proof fn lemma_infos_consistent(data: Seq<u8>, fs: int, at: int, n: nat)
    ensures
        items_at::<TensorMeta>(data, fs, at, n) matches Ok((s, _)) ==> forall|i: int|
            0 <= i < s.len() ==> consistent(#[trigger] s[i]),
    decreases n,
{
    if n > 0 {
        lemma_infos_consistent(data, fs, at, (n - 1) as nat);
        if let Ok((s, p)) = items_at::<TensorMeta>(data, fs, at, (n - 1) as nat) {
            if let Ok((t, q)) = <TensorMeta as Item>::item_at(data, fs, p) {
                assert(consistent(t)) by {
                    if !overflows(t.shape) {
                        lemma_product_fits(t.shape);
                    }
                }
            }
        }
    }
}

proof fn lemma_rebased(infos: Seq<Tensor>, base: int)
    requires
        base >= 0,
    ensures
        rebased(infos, base) matches Ok(ts) ==> ts.len() == infos.len() && forall|i: int|
            0 <= i < ts.len() ==> {
                &&& (#[trigger] ts[i]).offset == base + infos[i].offset
                &&& ts[i] == (Tensor { offset: ts[i].offset, ..infos[i] })
            },
    decreases infos.len(),
{
    if infos.len() > 0 {
        lemma_rebased(infos.drop_last(), base);
    }
}

/// The parts that an accepted file was put together from: its tensor entries, and the position
/// behind the last of them.
proof fn lemma_parts(data: Seq<u8>, fs: int) -> (parts: (Seq<Tensor>, int))
    requires
        gguf_of(data, fs) is Ok,
    ensures
        ({
            let g = gguf_of(data, fs)->Ok_0;
            let (h, p) = header_of(data, fs)->Ok_0;
            let (infos, end) = parts;
            &&& assembled(fs, h.version, g.metadata, infos, end) == Ok::<Gguf, Refusal>(g)
            &&& header_of(data, fs) is Ok
            &&& 24 <= end <= data.len()
            &&& end <= fs
            &&& g.metadata.len() == h.n_kv
            &&& infos.len() == h.n_tensors
            &&& alignment_fault(g.metadata) is None
            &&& forall|i: int| 0 <= i < infos.len() ==> consistent(#[trigger] infos[i])
        }),
{
    reveal(gguf_of);
    let (h, p) = header_of(data, fs)->Ok_0;
    lemma_items_extent::<(String, GgufValue)>(data, fs, p, h.n_kv as nat);
    let (md, p2) = items_at::<(String, GgufValue)>(data, fs, p, h.n_kv as nat)->Ok_0;
    lemma_items_extent::<TensorMeta>(data, fs, p2, h.n_tensors as nat);
    lemma_infos_consistent(data, fs, p2, h.n_tensors as nat);
    items_at::<TensorMeta>(data, fs, p2, h.n_tensors as nat)->Ok_0
}

/// The front of a file decides: an index, or a refusal, that comes from the front of a file comes
/// from the whole file too, whatever stands behind. The one exception is the refusal because the
/// front ends too early.
pub proof fn law_front_decides(front: Seq<u8>, rest: Seq<u8>, fs: int)
    ensures
        steady(gguf_of(front, fs), gguf_of(front + rest, fs), fs),
{
    reveal(gguf_of);
    lemma_bytes_steady(front, rest, fs, 0, 4);
    lemma_bytes_steady(front, rest, fs, 4, 4);
    lemma_bytes_steady(front, rest, fs, 8, 8);
    lemma_bytes_steady(front, rest, fs, 16, 8);
    assert(steady(header_of(front, fs), header_of(front + rest, fs), fs));
    if let Ok((h, p)) = header_of(front, fs) {
        lemma_items_steady::<(String, GgufValue)>(front, rest, fs, p, h.n_kv as nat);
        lemma_items_extent::<(String, GgufValue)>(front, fs, p, h.n_kv as nat);
        if let Ok((md, p2)) = items_at::<(String, GgufValue)>(front, fs, p, h.n_kv as nat) {
            lemma_items_steady::<TensorMeta>(front, rest, fs, p2, h.n_tensors as nat);
        }
    }
}

/// In an accepted file the data section starts at a multiple of the alignment, behind the
/// header; every tensor's data starts at a multiple of the alignment, in the data section; and
/// the data of a tensor of known size ends within the file.
pub proof fn law_tensors_inside_file(data: Seq<u8>, fs: int, g: Gguf, i: int)
    requires
        gguf_of(data, fs) == Ok::<Gguf, Refusal>(g),
        0 <= i < g.tensors.len(),
    ensures
        g.data_start % GGUF_ALIGN as int == 0,
        24 <= g.data_start <= g.tensors[i].offset,
        g.tensors[i].offset % GGUF_ALIGN == 0,
        g.tensors[i].nbytes is Some ==> end_of(g.tensors[i]) <= fs,
{
    let (infos, end) = lemma_parts(data, fs);
    lemma_fault_free(g.tensors, fs, i);
    lemma_rebased(infos, align_up(end));
}

/// In an accepted file no two tensors of known size share a byte, whatever stands between them.
pub proof fn law_tensors_apart(data: Seq<u8>, fs: int, g: Gguf, i: int, j: int)
    requires
        gguf_of(data, fs) == Ok::<Gguf, Refusal>(g),
        0 <= i < g.tensors.len(),
        0 <= j < g.tensors.len(),
        i != j,
        g.tensors[i].nbytes is Some,
        g.tensors[j].nbytes is Some,
    ensures
        end_of(g.tensors[i]) <= g.tensors[j].offset || end_of(g.tensors[j]) <= g.tensors[i].offset,
{
    let parts = lemma_parts(data, fs);
    if before(g.tensors, i, j) {
        lemma_apart(g.tensors, fs, i, j);
    } else {
        assert(before(g.tensors, j, i));
        lemma_apart(g.tensors, fs, j, i);
    }
}

/// The bytes of the tensors of known size, collected: as many as the sizes add up to, all within
/// the file, and each in one of the tensors.
proof fn lemma_known_places(ts: Seq<Tensor>, fs: int, n: int) -> (places: Set<int>)
    requires
        table_fault(ts, fs) is None,
        0 <= n <= ts.len(),
    ensures
        places.finite(),
        places.len() == known_bytes(ts.take(n)),
        forall|x: int| #[trigger] places.contains(x) ==> 0 <= x < fs,
        forall|x: int| #[trigger]
            places.contains(x) ==> exists|i: int| 0 <= i < n && #[trigger] lies_in(ts[i], x),
    decreases n,
{
    if n == 0 {
        assert(ts.take(0).len() == 0);
        Set::empty()
    } else {
        let t = ts[n - 1];
        let taken = lemma_known_places(ts, fs, n - 1);
        assert(ts.take(n).drop_last() =~= ts.take(n - 1));
        assert(ts.take(n).last() == t);
        lemma_fault_free(ts, fs, n - 1);
        if t.nbytes is Some {
            let own = set_int_range(t.offset as int, end_of(t));
            lemma_int_range(t.offset as int, end_of(t));
            assert forall|x: int| taken.contains(x) implies !own.contains(x) by {
                let i = choose|i: int| 0 <= i < n - 1 && #[trigger] lies_in(ts[i], x);
                if before(ts, i, n - 1) {
                    lemma_apart(ts, fs, i, n - 1);
                } else {
                    lemma_apart(ts, fs, n - 1, i);
                }
            }
            assert(taken.disjoint(own));
            lemma_set_disjoint_lens(taken, own);
            let all = taken + own;
            assert forall|x: int| #[trigger] all.contains(x) implies exists|i: int|
                0 <= i < n && #[trigger] lies_in(ts[i], x) by {
                if own.contains(x) {
                    assert(lies_in(ts[n - 1], x));
                } else {
                    assert(taken.contains(x));
                }
            }
            all
        } else {
            taken
        }
    }
}

/// Byte `x` of the file belongs to the data of a tensor of known size.
spec fn lies_in(t: Tensor, x: int) -> bool {
    t.nbytes is Some && t.offset <= x < end_of(t)
}

/// The known sizes of a table without a fault add up to no more than the file.
pub proof fn lemma_known_bytes_bounded(ts: Seq<Tensor>, fs: int)
    requires
        table_fault(ts, fs) is None,
        fs >= 0,
    ensures
        0 <= known_bytes(ts) <= fs,
{
    let places = lemma_known_places(ts, fs, ts.len() as int);
    assert(ts.take(ts.len() as int) =~= ts);
    lemma_int_range(0, fs);
    assert(places.subset_of(set_int_range(0, fs)));
    lemma_len_subset(places, set_int_range(0, fs));
}

/// In an accepted file the known sizes add up to no more than the file.
pub proof fn law_known_bytes_inside_file(data: Seq<u8>, fs: int, g: Gguf)
    requires
        gguf_of(data, fs) == Ok::<Gguf, Refusal>(g),
    ensures
        0 <= known_bytes(g.tensors) <= fs,
{
    let parts = lemma_parts(data, fs);
    lemma_known_bytes_bounded(g.tensors, fs);
}

/// In an accepted file each tensor's element count is the product of its dimensions and not
/// zero, its type's name is that of its type id, and its size is that of its elements in whole
/// blocks; a size is missing exactly where the type is unknown.
pub proof fn law_sizes_match_shapes(data: Seq<u8>, fs: int, g: Gguf, i: int)
    requires
        gguf_of(data, fs) == Ok::<Gguf, Refusal>(g),
        0 <= i < g.tensors.len(),
    ensures
        consistent(g.tensors[i]),
{
    let (infos, end) = lemma_parts(data, fs);
    lemma_rebased(infos, align_up(end));
    assert(consistent(infos[i]));
}

/// An accepted file has a supported version, as many keys and tensors as its header says, and no
/// other alignment than the supported one.
pub proof fn law_header_kept(data: Seq<u8>, fs: int, g: Gguf)
    requires
        gguf_of(data, fs) == Ok::<Gguf, Refusal>(g),
    ensures
        g.version == 2 || g.version == 3,
        g.file_size == fs,
        header_of(data, fs) matches Ok((h, _)) && g.version == h.version && g.metadata.len()
            == h.n_kv && g.tensors.len() == h.n_tensors,
        lookup(g.metadata, "general.alignment"@) matches Some(Value::U32(a)) ==> a == GGUF_ALIGN,
{
    let (infos, end) = lemma_parts(data, fs);
    lemma_rebased(infos, align_up(end));
}

/// Every tensor of the table is found under its name, unless a later one has the same name; what
/// is found under a name has it; and nothing is found under a name that no tensor has.
pub proof fn law_found_by_name(ts: Seq<Tensor>, name: Seq<char>)
    ensures
        found(ts, name) matches Some(t) ==> t.name == name && ts.contains(t),
        found(ts, name) is None <==> forall|i: int| 0 <= i < ts.len() ==> (#[trigger] ts[i]).name != name,
        forall|i: int| #[trigger] last_named(ts, name, i) ==> found(ts, name) == Some(ts[i]),
{
    if exists|i: int| 0 <= i < ts.len() && (#[trigger] ts[i]).name == name {
        let i = choose|i: int| 0 <= i < ts.len() && (#[trigger] ts[i]).name == name;
        lemma_last_named(ts, name, i);
    }
    assert forall|i: int| #[trigger] last_named(ts, name, i) implies found(ts, name) == Some(ts[i]) by {
        let c = choose|c: int| last_named(ts, name, c);
        if c < i {
            assert(ts[i].name != name);
        }
        if i < c {
            assert(ts[c].name != name);
        }
    }
}

proof fn lemma_last_named(ts: Seq<Tensor>, name: Seq<char>, i: int)
    requires
        0 <= i < ts.len(),
        ts[i].name == name,
    ensures
        exists|k: int| last_named(ts, name, k),
    decreases ts.len() - i,
{
    if !last_named(ts, name, i) {
        let j = choose|j: int| i < j < ts.len() && (#[trigger] ts[j]).name == name;
        lemma_last_named(ts, name, j);
    }
}

/// A header is taken by its counts exactly where the file could hold as many keys of eight bytes
/// and as many tensors of sixteen. The letters, the version and the counts are the first 24 bytes,
/// numbers with the least significant byte first.
pub proof fn law_header_is_read(data: Seq<u8>, fs: int, version: u32, n_tensors: u64, n_kv: u64)
    requires
        24 <= data.len(),
        24 <= fs,
        data.subrange(0, 4) == seq![0x47u8, 0x47u8, 0x55u8, 0x46u8],
        le(data.subrange(4, 8)) == version,
        le(data.subrange(8, 16)) == n_tensors,
        le(data.subrange(16, 24)) == n_kv,
        version == 2 || version == 3,
    ensures
        header_of(data, fs) is Ok <==> 8 * n_kv <= fs && 16 * n_tensors <= fs,
        header_of(data, fs) matches Ok((h, p)) ==> h.version == version && h.n_tensors == n_tensors
            && h.n_kv == n_kv && p == 24,
{
}

} // verus!
