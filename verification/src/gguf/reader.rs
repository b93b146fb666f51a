//! A whole file: header, metadata, and the table of tensors with the places of their data.

use vstd::hash_map::StringHashMap;
use vstd::prelude::*;

use super::laws::lemma_known_bytes_bounded;
use super::metadata::{items_at, rd_items, views, Item};
use super::ranges::{check_ranges, table_fault, GGUF_ALIGN};
use super::source::{bytes_at, rd_u32, rd_u64, read_checked, u32_at, u64_at, ByteSource, Parsed};
use super::tensor_info::{bad_tensor, Tensor, TensorMeta};
use super::value::{GgufValue, Value};
use crate::error::{LoadError, Refusal};
use crate::text::{dec, push_dec, same};

verus! {

/// A file's metadata and table of tensors, validated.
pub struct GgufReader {
    pub file_size: u64,
    pub version: u32,
    pub metadata: Vec<(String, GgufValue)>,
    tensors: Vec<TensorMeta>,
    by_name: StringHashMap<usize>,
    /// Where the data section starts. The offsets of the tensors count from the start of the
    /// file.
    pub data_start: u64,
}

/// What a [`GgufReader`] knows of its file.
pub struct Gguf {
    pub file_size: int,
    pub version: u32,
    pub metadata: Seq<(Seq<char>, Value)>,
    pub tensors: Seq<Tensor>,
    pub data_start: int,
}

impl View for GgufReader {
    type V = Gguf;

    closed spec fn view(&self) -> Gguf {
        Gguf {
            file_size: self.file_size as int,
            version: self.version,
            metadata: views(self.metadata@),
            tensors: views(self.tensors@),
            data_start: self.data_start as int,
        }
    }
}

/// The value of a key: that of its first appearance.
pub open spec fn lookup(md: Seq<(Seq<char>, Value)>, key: Seq<char>) -> Option<Value>
    decreases md.len(),
{
    if md.len() == 0 {
        None
    } else if md[0].0 == key {
        Some(md[0].1)
    } else {
        lookup(md.skip(1), key)
    }
}

proof fn lemma_lookup_skip(md: Seq<(Seq<char>, Value)>, key: Seq<char>, i: int)
    requires
        0 <= i <= md.len(),
        forall|j: int| 0 <= j < i ==> (#[trigger] md[j]).0 != key,
    ensures
        lookup(md, key) == lookup(md.skip(i), key),
    decreases i,
{
    if i == 0 {
        assert(md.skip(0) =~= md);
    } else {
        assert(md[0].0 != key);
        assert forall|j: int| 0 <= j < i - 1 implies (#[trigger] md.skip(1)[j]).0 != key by {
            assert(md[j + 1].0 != key);
        }
        lemma_lookup_skip(md.skip(1), key, i - 1);
        assert(md.skip(1).skip(i - 1) =~= md.skip(i));
    }
}

/// The value of a key among pairs.
fn find_value<'a>(metadata: &'a Vec<(String, GgufValue)>, key: &str) -> (res: Option<&'a GgufValue>)
    ensures
        match res {
            Some(v) => lookup(views(metadata@), key@) == Some(v@),
            None => lookup(views(metadata@), key@) is None,
        },
{
    let ghost md = views(metadata@);
    let mut i: usize = 0;
    while i < metadata.len()
        invariant
            md == views(metadata@),
            i <= metadata@.len(),
            forall|j: int| 0 <= j < i ==> (#[trigger] md[j]).0 != key@,
        decreases metadata@.len() - i,
    {
        proof {
            assert(md[i as int] == metadata@[i as int]@);
        }
        if same(metadata[i].0.as_str(), key) {
            proof {
                lemma_lookup_skip(md, key@, i as int);
                assert(md.skip(i as int)[0] == md[i as int]);
            }
            return Some(&metadata[i].1);
        }
        i += 1;
    }
    proof {
        lemma_lookup_skip(md, key@, i as int);
    }
    None
}

/// The fixed part of the header.
pub struct Header {
    pub version: u32,
    pub n_tensors: u64,
    pub n_kv: u64,
}

/// The refusal of a count that the file is too small for.
pub open spec fn implausible(what: Seq<char>, n: u64, fs: int) -> Refusal {
    Refusal::BadFile(
        what + dec(n as nat) + " is implausible for a file of "@ + dec(fs as nat) + " bytes"@,
    )
}

/// The header at the start of a file: the four letters, a version that is 2 or 3, and the two
/// counts, each held against the size of the file.
pub open spec fn header_of(data: Seq<u8>, fs: int) -> Parsed<Header> {
    match bytes_at(data, fs, 0, 4) {
        Err(e) => Err(e),
        Ok((magic, p0)) => if magic != seq![0x47u8, 0x47u8, 0x55u8, 0x46u8] {
            Err(Refusal::BadMagic { magic })
        } else {
            match u32_at(data, fs, p0) {
                Err(e) => Err(e),
                Ok((version, p1)) => if version != 2 && version != 3 {
                    Err(Refusal::UnsupportedVersion(version))
                } else {
                    match u64_at(data, fs, p1) {
                        Err(e) => Err(e),
                        Ok((n_tensors, p2)) => match u64_at(data, fs, p2) {
                            Err(e) => Err(e),
                            Ok((n_kv, p3)) => if n_kv > fs / 8 {
                                Err(implausible("n_kv "@, n_kv, fs))
                            } else if n_tensors > fs / 16 {
                                Err(implausible("n_tensors "@, n_tensors, fs))
                            } else {
                                Ok((Header { version, n_tensors, n_kv }, p3))
                            },
                        },
                    }
                },
            }
        },
    }
}

/// The refusal of metadata that sets another alignment, if it does.
pub open spec fn alignment_fault(md: Seq<(Seq<char>, Value)>) -> Option<Refusal> {
    match lookup(md, "general.alignment"@) {
        Some(Value::U32(a)) => if a != GGUF_ALIGN {
            Some(
                Refusal::BadFile(
                    "general.alignment = "@ + dec(a as nat) + ": only "@ + dec(GGUF_ALIGN as nat)
                        + " is supported"@,
                ),
            )
        } else {
            None
        },
        _ => None,
    }
}

/// The first multiple of the alignment that is not below `n`.
pub open spec fn align_up(n: int) -> int {
    (n + GGUF_ALIGN - 1) / (GGUF_ALIGN as int) * GGUF_ALIGN
}

/// The table with offsets that count from the start of the file, where the data section starts
/// at `base`.
pub open spec fn rebased(infos: Seq<Tensor>, base: int) -> Result<Seq<Tensor>, Refusal>
    decreases infos.len(),
{
    if infos.len() == 0 {
        Ok(Seq::empty())
    } else {
        match rebased(infos.drop_last(), base) {
            Err(e) => Err(e),
            Ok(done) => {
                let t = infos.last();
                if base + t.offset > u64::MAX {
                    Err(bad_tensor(t.name, "': absolute offset overflows u64"@))
                } else {
                    Ok(done.push(Tensor { offset: (base + t.offset) as u64, ..t }))
                }
            },
        }
    }
}

/// What a file is, from its parts: `infos_end` is the position behind the last tensor entry.
pub open spec fn assembled(
    fs: int,
    version: u32,
    md: Seq<(Seq<char>, Value)>,
    infos: Seq<Tensor>,
    infos_end: int,
) -> Result<Gguf, Refusal> {
    if infos_end + GGUF_ALIGN - 1 > u64::MAX {
        Err(Refusal::BadFile("start of the data section overflows u64"@))
    } else {
        let data_start = align_up(infos_end);
        match rebased(infos, data_start) {
            Err(e) => Err(e),
            Ok(tensors) => match table_fault(tensors, fs) {
                Some(e) => Err(e),
                None => Ok(Gguf { file_size: fs, version, metadata: md, tensors, data_start }),
            },
        }
    }
}

/// What the bytes of a file of size `fs` say, or why they are refused.
#[verifier::opaque]
pub open spec fn gguf_of(data: Seq<u8>, fs: int) -> Result<Gguf, Refusal> {
    match header_of(data, fs) {
        Err(e) => Err(e),
        Ok((h, p)) => match items_at::<(String, GgufValue)>(data, fs, p, h.n_kv as nat) {
            Err(e) => Err(e),
            Ok((md, p2)) => match alignment_fault(md) {
                Some(e) => Err(e),
                None => match items_at::<TensorMeta>(data, fs, p2, h.n_tensors as nat) {
                    Err(e) => Err(e),
                    Ok((infos, p3)) => assembled(fs, h.version, md, infos, p3),
                },
            },
        },
    }
}

/// Tensor `i` is the last of that name.
pub open spec fn last_named(ts: Seq<Tensor>, name: Seq<char>, i: int) -> bool {
    &&& 0 <= i < ts.len()
    &&& ts[i].name == name
    &&& forall|j: int| i < j < ts.len() ==> (#[trigger] ts[j]).name != name
}

/// The tensor found under a name: where several have it, the last.
pub open spec fn found(ts: Seq<Tensor>, name: Seq<char>) -> Option<Tensor> {
    if exists|i: int| last_named(ts, name, i) {
        Some(ts[choose|i: int| last_named(ts, name, i)])
    } else {
        None
    }
}

/// The map from names to places is that of the table's first `n` entries.
spec fn indexes(m: Map<Seq<char>, usize>, ts: Seq<Tensor>, n: int) -> bool {
    &&& forall|name: Seq<char>| #[trigger]
        m.contains_key(name) ==> last_named(ts.take(n), name, m[name] as int)
    &&& forall|i: int| 0 <= i < n ==> m.contains_key((#[trigger] ts[i]).name)
}

fn index_names(tensors: &Vec<TensorMeta>) -> (m: StringHashMap<usize>)
    ensures
        indexes(m@, views(tensors@), tensors@.len() as int),
{
    let ghost ts = views(tensors@);
    let mut m: StringHashMap<usize> = StringHashMap::new();
    let mut i: usize = 0;
    while i < tensors.len()
        invariant
            ts == views(tensors@),
            i <= tensors@.len(),
            indexes(m@, ts, i as int),
        decreases tensors@.len() - i,
    {
        let ghost before = m@;
        m.insert(tensors[i].name.clone(), i);
        proof {
            let name = ts[i as int].name;
            assert(name == tensors@[i as int]@.name);
            assert(m@ == before.insert(name, i));
            assert forall|k: Seq<char>| #[trigger] m@.contains_key(k) implies last_named(
                ts.take(i + 1),
                k,
                m@[k] as int,
            ) by {
                if k != name {
                    assert(before.contains_key(k));
                    assert(last_named(ts.take(i as int), k, before[k] as int));
                    let t = ts.take(i as int);
                    assert forall|j: int| m@[k] < j < i + 1 implies (#[trigger] ts.take(i + 1)[j]).name
                        != k by {
                        if j < i {
                            assert(t[j].name != k);
                        }
                    }
                    assert(t[m@[k] as int].name == k);
                }
            }
            assert forall|j: int| 0 <= j < i + 1 implies m@.contains_key((#[trigger] ts[j]).name) by {
                if j < i {
                    assert(before.contains_key(ts[j].name));
                }
            }
        }
        i += 1;
    }
    m
}

/// Moves the offsets of a table so that they count from the start of the file.
fn rebase(tensors: &mut Vec<TensorMeta>, base: u64) -> (res: Result<(), LoadError>)
    ensures
        match rebased(views(old(tensors)@), base as int) {
            Ok(ts) => res is Ok && views(final(tensors)@) == ts,
            Err(e) => res is Err && res->Err_0@ == e,
        },
{
    let ghost infos = views(tensors@);
    let mut i: usize = 0;
    proof {
        assert(infos.take(0) =~= Seq::<Tensor>::empty());
        assert(views(tensors@).take(0) =~= Seq::<Tensor>::empty());
    }
    while i < tensors.len()
        invariant
            infos == views(old(tensors)@),
            tensors@.len() == infos.len(),
            i <= infos.len(),
            rebased(infos.take(i as int), base as int) == Ok::<Seq<Tensor>, Refusal>(
                views(tensors@).take(i as int),
            ),
            forall|j: int| i <= j < infos.len() ==> (#[trigger] tensors@[j])@ == infos[j],
        decreases infos.len() - i,
    {
        proof {
            assert(infos.take(i + 1).drop_last() =~= infos.take(i as int));
            assert(infos.take(i + 1).last() == infos[i as int]);
            assert(tensors@[i as int]@ == infos[i as int]);
        }
        let ghost before = tensors@;
        match base.checked_add(tensors[i].offset) {
            Some(abs) => {
                tensors[i].offset = abs;
                proof {
                    assert(tensors@[i as int]@ == Tensor { offset: abs, ..infos[i as int] });
                    assert(views(tensors@).take(i + 1) =~= views(before).take(i as int).push(
                        tensors@[i as int]@,
                    ));
                }
            },
            None => {
                let mut m = String::from_str("tensor '");
                m.append(tensors[i].name.as_str());
                m.append("': absolute offset overflows u64");
                proof {
                    lemma_rebased_refused(infos, base as int, i + 1);
                }
                return Err(LoadError::corrupt(m));
            },
        }
        i += 1;
    }
    proof {
        assert(infos.take(i as int) =~= infos);
        assert(views(tensors@).take(i as int) =~= views(tensors@));
    }
    Ok(())
}

proof fn lemma_rebased_refused(infos: Seq<Tensor>, base: int, k: int)
    requires
        0 <= k <= infos.len(),
        rebased(infos.take(k), base) is Err,
    ensures
        rebased(infos, base) == rebased(infos.take(k), base),
    decreases infos.len(),
{
    if k == infos.len() {
        assert(infos.take(k) =~= infos);
    } else {
        assert(infos.drop_last().take(k) =~= infos.take(k));
        lemma_rebased_refused(infos.drop_last(), base, k);
    }
}

/// Reads the fixed part of the header.
fn rd_header(r: &mut ByteSource<'_>, file_size: u64) -> (res: Result<Header, LoadError>)
    requires
        old(r).at == 0,
    ensures
        final(r).data == old(r).data,
        match header_of(old(r).data@, file_size as int) {
            Ok((h, p)) => res is Ok && res->Ok_0 == h && final(r).at == p,
            Err(e) => res is Err && res->Err_0@ == e,
        },
{
    let m = match read_checked(r, 4, file_size) {
        Ok(b) => b,
        Err(e) => {
            return Err(e);
        },
    };
    if !(m[0] == 0x47 && m[1] == 0x47 && m[2] == 0x55 && m[3] == 0x46) {
        let magic: [u8; 4] = [m[0], m[1], m[2], m[3]];
        proof {
            assert(magic@ =~= m@);
        }
        return Err(LoadError::BadMagic { magic });
    }
    proof {
        assert(m@ =~= seq![0x47u8, 0x47u8, 0x55u8, 0x46u8]);
    }
    let version: u32 = match rd_u32(r, file_size) {
        Ok(v) => v,
        Err(e) => {
            return Err(e);
        },
    };
    if version != 2 && version != 3 {
        return Err(LoadError::UnsupportedVersion(version));
    }
    let n_tensors: u64 = match rd_u64(r, file_size) {
        Ok(v) => v,
        Err(e) => {
            return Err(e);
        },
    };
    let n_kv: u64 = match rd_u64(r, file_size) {
        Ok(v) => v,
        Err(e) => {
            return Err(e);
        },
    };
    if n_kv > file_size / 8 {
        return Err(refuse_count("n_kv ", n_kv, file_size));
    }
    if n_tensors > file_size / 16 {
        return Err(refuse_count("n_tensors ", n_tensors, file_size));
    }
    Ok(Header { version, n_tensors, n_kv })
}

fn refuse_count(what: &str, n: u64, file_size: u64) -> (res: LoadError)
    ensures
        res@ == implausible(what@, n, file_size as int),
{
    let mut m = String::from_str(what);
    push_dec(&mut m, n);
    m.append(" is implausible for a file of ");
    push_dec(&mut m, file_size);
    m.append(" bytes");
    LoadError::corrupt(m)
}

/// Refuses metadata that sets an alignment other than [`GGUF_ALIGN`].
fn check_alignment(metadata: &Vec<(String, GgufValue)>) -> (res: Result<(), LoadError>)
    ensures
        match alignment_fault(views(metadata@)) {
            None => res is Ok,
            Some(e) => res is Err && res->Err_0@ == e,
        },
{
    match find_value(metadata, "general.alignment") {
        Some(GgufValue::U32(a)) => {
            if *a as u64 != GGUF_ALIGN {
                let mut m = String::from_str("general.alignment = ");
                push_dec(&mut m, *a as u64);
                m.append(": only ");
                push_dec(&mut m, GGUF_ALIGN);
                m.append(" is supported");
                return Err(LoadError::corrupt(m));
            }
            Ok(())
        },
        _ => Ok(()),
    }
}

/// Places the tensors behind `infos_end`, checks their ranges and indexes their names.
fn assemble(
    version: u32,
    metadata: Vec<(String, GgufValue)>,
    tensors: Vec<TensorMeta>,
    infos_end: u64,
    file_size: u64,
) -> (res: Result<GgufReader, LoadError>)
    ensures
        match assembled(
            file_size as int,
            version,
            views(metadata@),
            views(tensors@),
            infos_end as int,
        ) {
            Ok(g) => res is Ok && res->Ok_0@ == g && res->Ok_0.wf(),
            Err(e) => res is Err && res->Err_0@ == e,
        },
{
    let mut tensors = tensors;
    if infos_end > u64::MAX - (GGUF_ALIGN - 1) {
        return Err(
            LoadError::corrupt(String::from_str("start of the data section overflows u64")),
        );
    }
    let data_start: u64 = (infos_end + (GGUF_ALIGN - 1)) / GGUF_ALIGN * GGUF_ALIGN;
    if let Err(e) = rebase(&mut tensors, data_start) {
        return Err(e);
    }
    if let Err(e) = check_ranges(&tensors, file_size) {
        return Err(e);
    }
    let by_name = index_names(&tensors);
    proof {
        lemma_known_bytes_bounded(views(tensors@), file_size as int);
    }
    Ok(GgufReader { file_size, version, metadata, tensors, by_name, data_start })
}

/// Reads a file from its bytes. `file_size` is the size that the file has or declares; every
/// length and every range is held against it.
pub fn parse(data: &[u8], file_size: u64) -> (res: Result<GgufReader, LoadError>)
    ensures
        match gguf_of(data@, file_size as int) {
            Ok(g) => res is Ok && res->Ok_0@ == g && res->Ok_0.wf(),
            Err(e) => res is Err && res->Err_0@ == e,
        },
{
    proof {
        reveal(gguf_of);
    }
    let mut r = ByteSource { data, at: 0 };
    let header = match rd_header(&mut r, file_size) {
        Ok(h) => h,
        Err(e) => {
            return Err(e);
        },
    };
    let metadata: Vec<(String, GgufValue)> = match rd_items(&mut r, file_size, header.n_kv) {
        Ok(v) => v,
        Err(e) => {
            return Err(e);
        },
    };
    if let Err(e) = check_alignment(&metadata) {
        return Err(e);
    }
    let tensors: Vec<TensorMeta> = match rd_items(&mut r, file_size, header.n_tensors) {
        Ok(v) => v,
        Err(e) => {
            return Err(e);
        },
    };
    assemble(header.version, metadata, tensors, r.at, file_size)
}

/// The bytes of all tensors of known size.
pub open spec fn known_bytes(ts: Seq<Tensor>) -> int
    decreases ts.len(),
{
    if ts.len() == 0 {
        0
    } else {
        known_bytes(ts.drop_last()) + match ts.last().nbytes {
            Some(b) => b as int,
            None => 0,
        }
    }
}

/// The tensors whose size is not known, in the order of the table.
pub open spec fn unsized_of(ts: Seq<Tensor>) -> Seq<Tensor> {
    ts.filter(|t: Tensor| t.nbytes is None)
}

impl GgufReader {
    /// The index of names agrees with the table of tensors, and the known sizes add up to no more
    /// than the file.
    pub closed spec fn wf(&self) -> bool {
        &&& indexes(self.by_name@, views(self.tensors@), self.tensors@.len() as int)
        &&& known_bytes(views(self.tensors@)) <= self.file_size
    }

    /// The value of a key: that of its first appearance.
    pub fn get(&self, key: &str) -> (res: Option<&GgufValue>)
        ensures
            match res {
                Some(v) => lookup(self@.metadata, key@) == Some(v@),
                None => lookup(self@.metadata, key@) is None,
            },
    {
        find_value(&self.metadata, key)
    }

    /// The text of a key that holds a string.
    pub fn get_str(&self, key: &str) -> (res: Option<&str>)
        ensures
            match res {
                Some(s) => lookup(self@.metadata, key@) == Some(Value::Str(s@)),
                None => !(lookup(self@.metadata, key@) matches Some(Value::Str(_))),
            },
    {
        match self.get(key) {
            Some(GgufValue::Str(s)) => Some(s.as_str()),
            _ => None,
        }
    }

    /// Keys and values, in the order of the file.
    pub fn metadata(&self) -> (res: &[(String, GgufValue)])
        ensures
            views(res@) == self@.metadata,
    {
        self.metadata.as_slice()
    }

    /// The table of tensors, in the order of the file.
    pub fn tensors(&self) -> (res: &[TensorMeta])
        ensures
            views(res@) == self@.tensors,
    {
        self.tensors.as_slice()
    }

    /// The bytes of the tensors of known size, and how many have no known size. Where there are
    /// any, the sum is a lower bound.
    pub fn tensor_bytes_summary(&self) -> (res: (u64, usize))
        requires
            self.wf(),
        ensures
            res.0 == known_bytes(self@.tensors),
            res.0 <= self@.file_size,
            res.1 == unsized_of(self@.tensors).len(),
    {
        let ghost ts = views(self.tensors@);
        let mut sum: u64 = 0;
        let mut unknown: usize = 0;
        let mut i: usize = 0;
        proof {
            assert(ts.take(0) =~= Seq::<Tensor>::empty());
            lemma_unsized_step(ts.take(0));
        }
        while i < self.tensors.len()
            invariant
                ts == views(self.tensors@),
                known_bytes(ts) <= u64::MAX,
                i <= ts.len(),
                sum == known_bytes(ts.take(i as int)),
                unknown == unsized_of(ts.take(i as int)).len(),
                unknown <= i,
            decreases ts.len() - i,
        {
            proof {
                assert(ts.take(i + 1).drop_last() =~= ts.take(i as int));
                assert(ts.take(i + 1).last() == ts[i as int]);
                assert(ts[i as int] == self.tensors@[i as int]@);
                lemma_known_bytes_prefix(ts, i + 1);
                lemma_unsized_step(ts.take(i + 1));
            }
            match self.tensors[i].nbytes {
                Some(b) => {
                    sum += b;
                },
                None => {
                    unknown += 1;
                },
            }
            i += 1;
        }
        proof {
            assert(ts.take(i as int) =~= ts);
        }
        (sum, unknown)
    }

    /// The tensors whose size is not known.
    pub fn unknown_type_tensors(&self) -> (res: Vec<&TensorMeta>)
        ensures
            res@.map_values(|t: &TensorMeta| t@) == unsized_of(self@.tensors),
    {
        let ghost ts = views(self.tensors@);
        let mut res: Vec<&TensorMeta> = Vec::new();
        let mut i: usize = 0;
        proof {
            assert(ts.take(0) =~= Seq::<Tensor>::empty());
            lemma_unsized_step(ts.take(0));
        }
        while i < self.tensors.len()
            invariant
                ts == views(self.tensors@),
                i <= ts.len(),
                res@.map_values(|t: &TensorMeta| t@) =~= unsized_of(ts.take(i as int)),
            decreases ts.len() - i,
        {
            proof {
                assert(ts.take(i + 1).drop_last() =~= ts.take(i as int));
                assert(ts.take(i + 1).last() == ts[i as int]);
                assert(ts[i as int] == self.tensors@[i as int]@);
                lemma_unsized_step(ts.take(i + 1));
            }
            if self.tensors[i].nbytes.is_none() {
                res.push(&self.tensors[i]);
            }
            i += 1;
        }
        proof {
            assert(ts.take(i as int) =~= ts);
        }
        res
    }
}

proof fn lemma_known_bytes_prefix(ts: Seq<Tensor>, k: int)
    requires
        0 <= k <= ts.len(),
    ensures
        0 <= known_bytes(ts.take(k)) <= known_bytes(ts),
    decreases ts.len(),
{
    if k == ts.len() {
        assert(ts.take(k) =~= ts);
        if k > 0 {
            lemma_known_bytes_prefix(ts.drop_last(), k - 1);
            assert(ts.drop_last().take(k - 1) =~= ts.drop_last());
        }
    } else {
        lemma_known_bytes_prefix(ts.drop_last(), k);
        assert(ts.drop_last().take(k) =~= ts.take(k));
    }
}

proof fn lemma_unsized_step(ts: Seq<Tensor>)
    ensures
        ts.len() == 0 ==> unsized_of(ts) == Seq::<Tensor>::empty(),
        ts.len() > 0 ==> unsized_of(ts) == (if ts.last().nbytes is None {
            unsized_of(ts.drop_last()).push(ts.last())
        } else {
            unsized_of(ts.drop_last())
        }),
{
    reveal(Seq::filter);
}

/// An index of tensors by name.
pub trait WeightIndex {
    /// The tensors of the index.
    spec fn entries(&self) -> Seq<Tensor>;

    /// The index is consistent.
    spec fn index_wf(&self) -> bool;

    /// The tensor with a name. `None` means absent, which is fatal for a weight that is needed.
    fn find(&self, name: &str) -> (res: Option<&TensorMeta>)
        requires
            self.index_wf(),
        ensures
            match res {
                Some(t) => found(self.entries(), name@) == Some(t@),
                None => found(self.entries(), name@) is None,
            },
    ;

    /// The number of tensors.
    fn len(&self) -> (res: usize)
        ensures
            res == self.entries().len(),
    ;

    /// Whether there are no tensors.
    fn is_empty(&self) -> (res: bool)
        ensures
            res == (self.entries().len() == 0),
    {
        self.len() == 0
    }
}

impl WeightIndex for GgufReader {
    open spec fn entries(&self) -> Seq<Tensor> {
        self@.tensors
    }

    open spec fn index_wf(&self) -> bool {
        self.wf()
    }

    fn find(&self, name: &str) -> (res: Option<&TensorMeta>) {
        let ghost ts = views(self.tensors@);
        proof {
            assert(ts.take(ts.len() as int) =~= ts);
            if exists|i: int| last_named(ts, name@, i) {
                let i = choose|i: int| last_named(ts, name@, i);
                assert(self.by_name@.contains_key(ts[i].name));
            }
        }
        match self.by_name.get(name) {
            Some(i) => {
                proof {
                    assert(last_named(ts, name@, *i as int));
                    let c = choose|c: int| last_named(ts, name@, c);
                    if *i < c {
                        assert(ts[c].name != name@);
                    }
                    if c < *i {
                        assert(ts[*i as int].name != name@);
                    }
                    assert(ts[c] == self.tensors@[*i as int]@);
                }
                Some(&self.tensors[*i])
            },
            None => None,
        }
    }

    fn len(&self) -> (res: usize) {
        self.tensors.len()
    }
}

/// A key has the value of its first appearance, and none where it does not appear.
pub proof fn law_first_value_counts(md: Seq<(Seq<char>, Value)>, key: Seq<char>, i: int)
    ensures
        0 <= i < md.len() && md[i].0 == key && (forall|j: int|
            0 <= j < i ==> (#[trigger] md[j]).0 != key) ==> lookup(md, key) == Some(md[i].1),
        (forall|j: int| 0 <= j < md.len() ==> (#[trigger] md[j]).0 != key) ==> lookup(
            md,
            key,
        ) is None,
{
    if 0 <= i < md.len() && md[i].0 == key && (forall|j: int|
        0 <= j < i ==> (#[trigger] md[j]).0 != key) {
        lemma_lookup_skip(md, key, i);
        assert(md.skip(i)[0] == md[i]);
    }
    if forall|j: int| 0 <= j < md.len() ==> (#[trigger] md[j]).0 != key {
        lemma_lookup_skip(md, key, md.len() as int);
    }
}

} // verus!
