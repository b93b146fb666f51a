//! Metadata in the file: lists of items, values, and key-value pairs.

use vstd::prelude::*;

use super::source::{
    lemma_bytes_steady, lemma_string_steady, rd_string, rd_u16, rd_u32, rd_u64, rd_u8, read_gave,
    steady, string_at, u16_at, u32_at, u64_at, u8_at, ByteSource, Parsed,
};
use super::value::{texts, type_of_id, Array, GgufArray, GgufValue, GgufValueType, Value};
use crate::error::{LoadError, Refusal};
use crate::ieee::{F32, F64};
use crate::text::{dec, push_dec};

verus! {

/// Something that stands in the file and can be read from a position.
pub trait Item: View + Sized {
    /// What stands at `at`.
    spec fn item_at(data: Seq<u8>, fs: int, at: int) -> Parsed<Self::V>;

    /// An item that can be read ends not before its start and within the file.
    proof fn lemma_extent(data: Seq<u8>, fs: int, at: int)
        requires
            0 <= at,
        ensures
            Self::item_at(data, fs, at) matches Ok((_, q)) ==> at <= q <= data.len() && q <= fs,
    ;

    /// An item that can be read from the front of a file stays what it is.
    proof fn lemma_steady(data: Seq<u8>, more: Seq<u8>, fs: int, at: int)
        requires
            0 <= at,
        ensures
            steady(Self::item_at(data, fs, at), Self::item_at(data + more, fs, at), fs),
    ;

    /// Reads the item at the position.
    fn read(r: &mut ByteSource<'_>, fs: u64) -> (res: Result<Self, LoadError>)
        ensures
            read_gave(
                *old(r),
                *final(r),
                Self::item_at(old(r).data@, fs as int, old(r).at as int),
                res,
            ),
    ;
}

impl Item for u8 {
    open spec fn item_at(data: Seq<u8>, fs: int, at: int) -> Parsed<u8> {
        u8_at(data, fs, at)
    }

    proof fn lemma_extent(data: Seq<u8>, fs: int, at: int) {
    }

    proof fn lemma_steady(data: Seq<u8>, more: Seq<u8>, fs: int, at: int) {
        lemma_bytes_steady(data, more, fs, at, 1);
    }

    fn read(r: &mut ByteSource<'_>, fs: u64) -> (res: Result<u8, LoadError>) {
        rd_u8(r, fs)
    }
}

impl Item for i8 {
    open spec fn item_at(data: Seq<u8>, fs: int, at: int) -> Parsed<i8> {
        match u8_at(data, fs, at) {
            Ok((v, p)) => Ok((v as i8, p)),
            Err(e) => Err(e),
        }
    }

    proof fn lemma_extent(data: Seq<u8>, fs: int, at: int) {
    }

    proof fn lemma_steady(data: Seq<u8>, more: Seq<u8>, fs: int, at: int) {
        lemma_bytes_steady(data, more, fs, at, 1);
    }

    fn read(r: &mut ByteSource<'_>, fs: u64) -> (res: Result<i8, LoadError>) {
        match rd_u8(r, fs) {
            Ok(v) => Ok(v as i8),
            Err(e) => Err(e),
        }
    }
}

impl Item for u16 {
    open spec fn item_at(data: Seq<u8>, fs: int, at: int) -> Parsed<u16> {
        u16_at(data, fs, at)
    }

    proof fn lemma_extent(data: Seq<u8>, fs: int, at: int) {
    }

    proof fn lemma_steady(data: Seq<u8>, more: Seq<u8>, fs: int, at: int) {
        lemma_bytes_steady(data, more, fs, at, 2);
    }

    fn read(r: &mut ByteSource<'_>, fs: u64) -> (res: Result<u16, LoadError>) {
        rd_u16(r, fs)
    }
}

impl Item for i16 {
    open spec fn item_at(data: Seq<u8>, fs: int, at: int) -> Parsed<i16> {
        match u16_at(data, fs, at) {
            Ok((v, p)) => Ok((v as i16, p)),
            Err(e) => Err(e),
        }
    }

    proof fn lemma_extent(data: Seq<u8>, fs: int, at: int) {
    }

    proof fn lemma_steady(data: Seq<u8>, more: Seq<u8>, fs: int, at: int) {
        lemma_bytes_steady(data, more, fs, at, 2);
    }

    fn read(r: &mut ByteSource<'_>, fs: u64) -> (res: Result<i16, LoadError>) {
        match rd_u16(r, fs) {
            Ok(v) => Ok(v as i16),
            Err(e) => Err(e),
        }
    }
}

impl Item for u32 {
    open spec fn item_at(data: Seq<u8>, fs: int, at: int) -> Parsed<u32> {
        u32_at(data, fs, at)
    }

    proof fn lemma_extent(data: Seq<u8>, fs: int, at: int) {
    }

    proof fn lemma_steady(data: Seq<u8>, more: Seq<u8>, fs: int, at: int) {
        lemma_bytes_steady(data, more, fs, at, 4);
    }

    fn read(r: &mut ByteSource<'_>, fs: u64) -> (res: Result<u32, LoadError>) {
        rd_u32(r, fs)
    }
}

/// The `i32` at the position.
pub fn rd_i32(r: &mut ByteSource<'_>, fs: u64) -> (res: Result<i32, LoadError>)
    ensures
        read_gave(
            *old(r),
            *final(r),
            <i32 as Item>::item_at(old(r).data@, fs as int, old(r).at as int),
            res,
        ),
{
    match rd_u32(r, fs) {
        Ok(v) => Ok(v as i32),
        Err(e) => Err(e),
    }
}

impl Item for i32 {
    open spec fn item_at(data: Seq<u8>, fs: int, at: int) -> Parsed<i32> {
        match u32_at(data, fs, at) {
            Ok((v, p)) => Ok((v as i32, p)),
            Err(e) => Err(e),
        }
    }

    proof fn lemma_extent(data: Seq<u8>, fs: int, at: int) {
    }

    proof fn lemma_steady(data: Seq<u8>, more: Seq<u8>, fs: int, at: int) {
        lemma_bytes_steady(data, more, fs, at, 4);
    }

    fn read(r: &mut ByteSource<'_>, fs: u64) -> (res: Result<i32, LoadError>) {
        rd_i32(r, fs)
    }
}

impl Item for u64 {
    open spec fn item_at(data: Seq<u8>, fs: int, at: int) -> Parsed<u64> {
        u64_at(data, fs, at)
    }

    proof fn lemma_extent(data: Seq<u8>, fs: int, at: int) {
    }

    proof fn lemma_steady(data: Seq<u8>, more: Seq<u8>, fs: int, at: int) {
        lemma_bytes_steady(data, more, fs, at, 8);
    }

    fn read(r: &mut ByteSource<'_>, fs: u64) -> (res: Result<u64, LoadError>) {
        rd_u64(r, fs)
    }
}

/// The `i64` at the position.
pub fn rd_i64(r: &mut ByteSource<'_>, fs: u64) -> (res: Result<i64, LoadError>)
    ensures
        read_gave(
            *old(r),
            *final(r),
            <i64 as Item>::item_at(old(r).data@, fs as int, old(r).at as int),
            res,
        ),
{
    match rd_u64(r, fs) {
        Ok(v) => Ok(v as i64),
        Err(e) => Err(e),
    }
}

impl Item for i64 {
    open spec fn item_at(data: Seq<u8>, fs: int, at: int) -> Parsed<i64> {
        match u64_at(data, fs, at) {
            Ok((v, p)) => Ok((v as i64, p)),
            Err(e) => Err(e),
        }
    }

    proof fn lemma_extent(data: Seq<u8>, fs: int, at: int) {
    }

    proof fn lemma_steady(data: Seq<u8>, more: Seq<u8>, fs: int, at: int) {
        lemma_bytes_steady(data, more, fs, at, 8);
    }

    fn read(r: &mut ByteSource<'_>, fs: u64) -> (res: Result<i64, LoadError>) {
        rd_i64(r, fs)
    }
}

/// The 32-bit float at the position.
pub fn rd_f32(r: &mut ByteSource<'_>, fs: u64) -> (res: Result<F32, LoadError>)
    ensures
        read_gave(
            *old(r),
            *final(r),
            <F32 as Item>::item_at(old(r).data@, fs as int, old(r).at as int),
            res,
        ),
{
    match rd_u32(r, fs) {
        Ok(bits) => Ok(F32 { bits }),
        Err(e) => Err(e),
    }
}

impl Item for F32 {
    open spec fn item_at(data: Seq<u8>, fs: int, at: int) -> Parsed<F32> {
        match u32_at(data, fs, at) {
            Ok((bits, p)) => Ok((F32 { bits }, p)),
            Err(e) => Err(e),
        }
    }

    proof fn lemma_extent(data: Seq<u8>, fs: int, at: int) {
    }

    proof fn lemma_steady(data: Seq<u8>, more: Seq<u8>, fs: int, at: int) {
        lemma_bytes_steady(data, more, fs, at, 4);
    }

    fn read(r: &mut ByteSource<'_>, fs: u64) -> (res: Result<F32, LoadError>) {
        rd_f32(r, fs)
    }
}

/// The 64-bit float at the position.
pub fn rd_f64(r: &mut ByteSource<'_>, fs: u64) -> (res: Result<F64, LoadError>)
    ensures
        read_gave(
            *old(r),
            *final(r),
            <F64 as Item>::item_at(old(r).data@, fs as int, old(r).at as int),
            res,
        ),
{
    match rd_u64(r, fs) {
        Ok(bits) => Ok(F64 { bits }),
        Err(e) => Err(e),
    }
}

impl Item for F64 {
    open spec fn item_at(data: Seq<u8>, fs: int, at: int) -> Parsed<F64> {
        match u64_at(data, fs, at) {
            Ok((bits, p)) => Ok((F64 { bits }, p)),
            Err(e) => Err(e),
        }
    }

    proof fn lemma_extent(data: Seq<u8>, fs: int, at: int) {
    }

    proof fn lemma_steady(data: Seq<u8>, more: Seq<u8>, fs: int, at: int) {
        lemma_bytes_steady(data, more, fs, at, 8);
    }

    fn read(r: &mut ByteSource<'_>, fs: u64) -> (res: Result<F64, LoadError>) {
        rd_f64(r, fs)
    }
}

impl Item for bool {
    open spec fn item_at(data: Seq<u8>, fs: int, at: int) -> Parsed<bool> {
        match u8_at(data, fs, at) {
            Ok((v, p)) => Ok((v != 0, p)),
            Err(e) => Err(e),
        }
    }

    proof fn lemma_extent(data: Seq<u8>, fs: int, at: int) {
    }

    proof fn lemma_steady(data: Seq<u8>, more: Seq<u8>, fs: int, at: int) {
        lemma_bytes_steady(data, more, fs, at, 1);
    }

    fn read(r: &mut ByteSource<'_>, fs: u64) -> (res: Result<bool, LoadError>) {
        match rd_u8(r, fs) {
            Ok(v) => Ok(v != 0),
            Err(e) => Err(e),
        }
    }
}

impl Item for String {
    open spec fn item_at(data: Seq<u8>, fs: int, at: int) -> Parsed<Seq<char>> {
        string_at(data, fs, at)
    }

    proof fn lemma_extent(data: Seq<u8>, fs: int, at: int) {
    }

    proof fn lemma_steady(data: Seq<u8>, more: Seq<u8>, fs: int, at: int) {
        lemma_string_steady(data, more, fs, at);
    }

    fn read(r: &mut ByteSource<'_>, fs: u64) -> (res: Result<String, LoadError>) {
        rd_string(r, fs)
    }
}

/// The `n` items that stand one behind the other from `at` on. The first that cannot be read
/// decides the refusal.
pub open spec fn items_at<T: Item>(data: Seq<u8>, fs: int, at: int, n: nat) -> Parsed<Seq<T::V>>
    decreases n,
{
    if n == 0 {
        Ok((Seq::empty(), at))
    } else {
        match items_at::<T>(data, fs, at, (n - 1) as nat) {
            Err(e) => Err(e),
            Ok((s, p)) => match T::item_at(data, fs, p) {
                Err(e) => Err(e),
                Ok((v, q)) => Ok((s.push(v), q)),
            },
        }
    }
}

/// The views of a sequence of items.
pub open spec fn views<T: View>(v: Seq<T>) -> Seq<T::V> {
    v.map_values(|x: T| x@)
}

proof fn lemma_items_refused<T: Item>(data: Seq<u8>, fs: int, at: int, m: nat, n: nat)
    requires
        m <= n,
        items_at::<T>(data, fs, at, m) is Err,
    ensures
        items_at::<T>(data, fs, at, n) == items_at::<T>(data, fs, at, m),
    decreases n,
{
    if m < n {
        lemma_items_refused::<T>(data, fs, at, m, (n - 1) as nat);
    }
}

/// Items that can be read end not before their start and within the file.
pub proof fn lemma_items_extent<T: Item>(data: Seq<u8>, fs: int, at: int, n: nat)
    requires
        0 <= at <= data.len(),
        at <= fs,
    ensures
        items_at::<T>(data, fs, at, n) matches Ok((s, q)) ==> s.len() == n && at <= q <= data.len()
            && q <= fs,
    decreases n,
{
    if n > 0 {
        lemma_items_extent::<T>(data, fs, at, (n - 1) as nat);
        if let Ok((s, p)) = items_at::<T>(data, fs, at, (n - 1) as nat) {
            T::lemma_extent(data, fs, p);
        }
    }
}

/// Items that can be read from the front of a file stay what they are.
pub proof fn lemma_items_steady<T: Item>(data: Seq<u8>, more: Seq<u8>, fs: int, at: int, n: nat)
    requires
        0 <= at <= data.len(),
        at <= fs,
    ensures
        steady(items_at::<T>(data, fs, at, n), items_at::<T>(data + more, fs, at, n), fs),
    decreases n,
{
    if n > 0 {
        lemma_items_steady::<T>(data, more, fs, at, (n - 1) as nat);
        lemma_items_extent::<T>(data, fs, at, (n - 1) as nat);
        if let Ok((s, p)) = items_at::<T>(data, fs, at, (n - 1) as nat) {
            T::lemma_steady(data, more, fs, p);
        }
    }
}

/// Reads `n` items one behind the other.
pub fn rd_items<T: Item>(r: &mut ByteSource<'_>, fs: u64, n: u64) -> (res: Result<
    Vec<T>,
    LoadError,
>)
    ensures
        final(r).data == old(r).data,
        match items_at::<T>(old(r).data@, fs as int, old(r).at as int, n as nat) {
            Ok((s, p)) => res is Ok && views(res->Ok_0@) == s && final(r).at == p,
            Err(e) => res is Err && res->Err_0@ == e,
        },
{
    let mut v: Vec<T> = Vec::new();
    let mut i: u64 = 0;
    let ghost data = r.data@;
    let ghost at = r.at as int;
    proof {
        assert(views(v@) =~= Seq::empty());
    }
    while i < n
        invariant
            i <= n,
            r.data == old(r).data,
            data == old(r).data@,
            at == old(r).at,
            items_at::<T>(data, fs as int, at, i as nat) == Ok::<(Seq<T::V>, int), Refusal>(
                (views(v@), r.at as int),
            ),
        decreases n - i,
    {
        let ghost before = v@;
        match T::read(r, fs) {
            Ok(x) => {
                v.push(x);
                proof {
                    assert(views(v@) =~= views(before).push(x@));
                }
            },
            Err(e) => {
                proof {
                    lemma_items_refused::<T>(data, fs as int, at, (i + 1) as nat, n as nat);
                }
                return Err(e);
            },
        }
        i += 1;
    }
    Ok(v)
}

/// The array of `count` elements of type `elem` at `at`. An array holds no arrays.
pub open spec fn array_at(
    data: Seq<u8>,
    fs: int,
    at: int,
    elem: GgufValueType,
    count: nat,
) -> Parsed<Array> {
    match elem {
        GgufValueType::U8 => match items_at::<u8>(data, fs, at, count) {
            Ok((s, p)) => Ok((Array::U8(s), p)),
            Err(e) => Err(e),
        },
        GgufValueType::I8 => match items_at::<i8>(data, fs, at, count) {
            Ok((s, p)) => Ok((Array::I8(s), p)),
            Err(e) => Err(e),
        },
        GgufValueType::U16 => match items_at::<u16>(data, fs, at, count) {
            Ok((s, p)) => Ok((Array::U16(s), p)),
            Err(e) => Err(e),
        },
        GgufValueType::I16 => match items_at::<i16>(data, fs, at, count) {
            Ok((s, p)) => Ok((Array::I16(s), p)),
            Err(e) => Err(e),
        },
        GgufValueType::U32 => match items_at::<u32>(data, fs, at, count) {
            Ok((s, p)) => Ok((Array::U32(s), p)),
            Err(e) => Err(e),
        },
        GgufValueType::I32 => match items_at::<i32>(data, fs, at, count) {
            Ok((s, p)) => Ok((Array::I32(s), p)),
            Err(e) => Err(e),
        },
        GgufValueType::F32 => match items_at::<F32>(data, fs, at, count) {
            Ok((s, p)) => Ok((Array::F32(s), p)),
            Err(e) => Err(e),
        },
        GgufValueType::F64 => match items_at::<F64>(data, fs, at, count) {
            Ok((s, p)) => Ok((Array::F64(s), p)),
            Err(e) => Err(e),
        },
        GgufValueType::U64 => match items_at::<u64>(data, fs, at, count) {
            Ok((s, p)) => Ok((Array::U64(s), p)),
            Err(e) => Err(e),
        },
        GgufValueType::I64 => match items_at::<i64>(data, fs, at, count) {
            Ok((s, p)) => Ok((Array::I64(s), p)),
            Err(e) => Err(e),
        },
        GgufValueType::Bool => match items_at::<bool>(data, fs, at, count) {
            Ok((s, p)) => Ok((Array::Bool(s), p)),
            Err(e) => Err(e),
        },
        GgufValueType::String => match items_at::<String>(data, fs, at, count) {
            Ok((s, p)) => Ok((Array::Str(s), p)),
            Err(e) => Err(e),
        },
        GgufValueType::Array => Err(Refusal::BadFile("nested array in GGUF metadata"@)),
    }
}

/// Reads the elements of an array.
pub fn rd_array(r: &mut ByteSource<'_>, fs: u64, elem: GgufValueType, count: u64) -> (res: Result<
    GgufArray,
    LoadError,
>)
    ensures
        read_gave(
            *old(r),
            *final(r),
            array_at(old(r).data@, fs as int, old(r).at as int, elem, count as nat),
            res,
        ),
{
    match elem {
        GgufValueType::U8 => match rd_items::<u8>(r, fs, count) {
            Ok(v) => {
                proof {
                    assert(views(v@) =~= v@);
                }
                Ok(GgufArray::U8(v))
            },
            Err(e) => Err(e),
        },
        GgufValueType::I8 => match rd_items::<i8>(r, fs, count) {
            Ok(v) => {
                proof {
                    assert(views(v@) =~= v@);
                }
                Ok(GgufArray::I8(v))
            },
            Err(e) => Err(e),
        },
        GgufValueType::U16 => match rd_items::<u16>(r, fs, count) {
            Ok(v) => {
                proof {
                    assert(views(v@) =~= v@);
                }
                Ok(GgufArray::U16(v))
            },
            Err(e) => Err(e),
        },
        GgufValueType::I16 => match rd_items::<i16>(r, fs, count) {
            Ok(v) => {
                proof {
                    assert(views(v@) =~= v@);
                }
                Ok(GgufArray::I16(v))
            },
            Err(e) => Err(e),
        },
        GgufValueType::U32 => match rd_items::<u32>(r, fs, count) {
            Ok(v) => {
                proof {
                    assert(views(v@) =~= v@);
                }
                Ok(GgufArray::U32(v))
            },
            Err(e) => Err(e),
        },
        GgufValueType::I32 => match rd_items::<i32>(r, fs, count) {
            Ok(v) => {
                proof {
                    assert(views(v@) =~= v@);
                }
                Ok(GgufArray::I32(v))
            },
            Err(e) => Err(e),
        },
        GgufValueType::F32 => match rd_items::<F32>(r, fs, count) {
            Ok(v) => {
                proof {
                    assert(views(v@) =~= v@);
                }
                Ok(GgufArray::F32(v))
            },
            Err(e) => Err(e),
        },
        GgufValueType::F64 => match rd_items::<F64>(r, fs, count) {
            Ok(v) => {
                proof {
                    assert(views(v@) =~= v@);
                }
                Ok(GgufArray::F64(v))
            },
            Err(e) => Err(e),
        },
        GgufValueType::U64 => match rd_items::<u64>(r, fs, count) {
            Ok(v) => {
                proof {
                    assert(views(v@) =~= v@);
                }
                Ok(GgufArray::U64(v))
            },
            Err(e) => Err(e),
        },
        GgufValueType::I64 => match rd_items::<i64>(r, fs, count) {
            Ok(v) => {
                proof {
                    assert(views(v@) =~= v@);
                }
                Ok(GgufArray::I64(v))
            },
            Err(e) => Err(e),
        },
        GgufValueType::Bool => match rd_items::<bool>(r, fs, count) {
            Ok(v) => {
                proof {
                    assert(views(v@) =~= v@);
                }
                Ok(GgufArray::Bool(v))
            },
            Err(e) => Err(e),
        },
        GgufValueType::String => match rd_items::<String>(r, fs, count) {
            Ok(v) => {
                proof {
                    assert(views(v@) =~= texts(v@));
                }
                Ok(GgufArray::Str(v))
            },
            Err(e) => Err(e),
        },
        GgufValueType::Array => Err(
            LoadError::corrupt(String::from_str("nested array in GGUF metadata")),
        ),
    }
}

/// The refusal of a value type id that stands for nothing.
pub open spec fn unknown_value_type(id: u32, at: int) -> Refusal {
    Refusal::BadFile(
        "unknown metadata value type id "@ + dec(id as nat) + " at offset "@ + dec(at as nat),
    )
}

/// The refusal of an element type id that stands for nothing.
pub open spec fn unknown_elem_type(id: u32, at: int) -> Refusal {
    Refusal::BadFile(
        "unknown array element type id "@ + dec(id as nat) + " at offset "@ + dec(at as nat),
    )
}

/// The refusal of an array that cannot fit into the file.
pub open spec fn long_array(count: int, elem: GgufValueType, at: int, fs: int) -> Refusal {
    Refusal::BadFile(
        "array of "@ + dec(count as nat) + " "@ + elem.label() + "(s) at offset "@ + dec(
            at as nat,
        ) + " exceeds file size "@ + dec(fs as nat),
    )
}

/// The array value whose element type stands at `p`; the value itself starts at `at`.
pub open spec fn array_value_at(data: Seq<u8>, fs: int, at: int, p: int) -> Parsed<Array> {
    match u32_at(data, fs, p) {
        Err(e) => Err(e),
        Ok((id, p2)) => match type_of_id(id) {
            None => Err(unknown_elem_type(id, at)),
            Some(elem) => match u64_at(data, fs, p2) {
                Err(e) => Err(e),
                Ok((count, p3)) => if count * elem.least_bytes() > fs {
                    Err(long_array(count as int, elem, at, fs))
                } else {
                    array_at(data, fs, p3, elem, count as nat)
                },
            },
        },
    }
}

/// The value of type `t` at `p`, behind its type id at `at`.
pub open spec fn typed_value_at(
    data: Seq<u8>,
    fs: int,
    at: int,
    t: GgufValueType,
    p: int,
) -> Parsed<Value> {
    match t {
        GgufValueType::U8 => match <u8 as Item>::item_at(data, fs, p) {
            Ok((v, q)) => Ok((Value::U8(v), q)),
            Err(e) => Err(e),
        },
        GgufValueType::I8 => match <i8 as Item>::item_at(data, fs, p) {
            Ok((v, q)) => Ok((Value::I8(v), q)),
            Err(e) => Err(e),
        },
        GgufValueType::U16 => match <u16 as Item>::item_at(data, fs, p) {
            Ok((v, q)) => Ok((Value::U16(v), q)),
            Err(e) => Err(e),
        },
        GgufValueType::I16 => match <i16 as Item>::item_at(data, fs, p) {
            Ok((v, q)) => Ok((Value::I16(v), q)),
            Err(e) => Err(e),
        },
        GgufValueType::U32 => match <u32 as Item>::item_at(data, fs, p) {
            Ok((v, q)) => Ok((Value::U32(v), q)),
            Err(e) => Err(e),
        },
        GgufValueType::I32 => match <i32 as Item>::item_at(data, fs, p) {
            Ok((v, q)) => Ok((Value::I32(v), q)),
            Err(e) => Err(e),
        },
        GgufValueType::F32 => match <F32 as Item>::item_at(data, fs, p) {
            Ok((v, q)) => Ok((Value::F32(v), q)),
            Err(e) => Err(e),
        },
        GgufValueType::F64 => match <F64 as Item>::item_at(data, fs, p) {
            Ok((v, q)) => Ok((Value::F64(v), q)),
            Err(e) => Err(e),
        },
        GgufValueType::U64 => match <u64 as Item>::item_at(data, fs, p) {
            Ok((v, q)) => Ok((Value::U64(v), q)),
            Err(e) => Err(e),
        },
        GgufValueType::I64 => match <i64 as Item>::item_at(data, fs, p) {
            Ok((v, q)) => Ok((Value::I64(v), q)),
            Err(e) => Err(e),
        },
        GgufValueType::Bool => match <bool as Item>::item_at(data, fs, p) {
            Ok((v, q)) => Ok((Value::Bool(v), q)),
            Err(e) => Err(e),
        },
        GgufValueType::String => match string_at(data, fs, p) {
            Ok((v, q)) => Ok((Value::Str(v), q)),
            Err(e) => Err(e),
        },
        GgufValueType::Array => match array_value_at(data, fs, at, p) {
            Ok((v, q)) => Ok((Value::Arr(v), q)),
            Err(e) => Err(e),
        },
    }
}

/// The value at `at`: its type id as a `u32`, and what the type says.
pub open spec fn value_at(data: Seq<u8>, fs: int, at: int) -> Parsed<Value> {
    match u32_at(data, fs, at) {
        Err(e) => Err(e),
        Ok((id, p)) => match type_of_id(id) {
            None => Err(unknown_value_type(id, at)),
            Some(t) => typed_value_at(data, fs, at, t, p),
        },
    }
}

/// Reads an array value whose type id stood at `at`.
fn rd_array_value(r: &mut ByteSource<'_>, fs: u64, at: u64) -> (res: Result<GgufArray, LoadError>)
    ensures
        read_gave(
            *old(r),
            *final(r),
            array_value_at(old(r).data@, fs as int, at as int, old(r).at as int),
            res,
        ),
{
    let elem_id: u32 = match rd_u32(r, fs) {
        Ok(id) => id,
        Err(e) => {
            return Err(e);
        },
    };
    let elem = match GgufValueType::from_id(elem_id) {
        Some(t) => t,
        None => {
            let mut m = String::from_str("unknown array element type id ");
            push_dec(&mut m, elem_id as u64);
            m.append(" at offset ");
            push_dec(&mut m, at);
            return Err(LoadError::corrupt(m));
        },
    };
    let count: u64 = match rd_u64(r, fs) {
        Ok(n) => n,
        Err(e) => {
            return Err(e);
        },
    };
    let fits = match count.checked_mul(elem.elem_bytes()) {
        Some(total) => total <= fs,
        None => false,
    };
    if !fits {
        let mut m = String::from_str("array of ");
        push_dec(&mut m, count);
        m.append(" ");
        m.append(elem.name());
        m.append("(s) at offset ");
        push_dec(&mut m, at);
        m.append(" exceeds file size ");
        push_dec(&mut m, fs);
        return Err(LoadError::corrupt(m));
    }
    rd_array(r, fs, elem, count)
}

/// Reads the value at the position.
pub fn rd_value(r: &mut ByteSource<'_>, fs: u64) -> (res: Result<GgufValue, LoadError>)
    ensures
        read_gave(*old(r), *final(r), value_at(old(r).data@, fs as int, old(r).at as int), res),
{
    let at: u64 = r.at;
    let vt_id: u32 = match rd_u32(r, fs) {
        Ok(id) => id,
        Err(e) => {
            return Err(e);
        },
    };
    let vt = match GgufValueType::from_id(vt_id) {
        Some(t) => t,
        None => {
            let mut m = String::from_str("unknown metadata value type id ");
            push_dec(&mut m, vt_id as u64);
            m.append(" at offset ");
            push_dec(&mut m, at);
            return Err(LoadError::corrupt(m));
        },
    };
    match vt {
        GgufValueType::U8 => match <u8 as Item>::read(r, fs) {
            Ok(v) => Ok(GgufValue::U8(v)),
            Err(e) => Err(e),
        },
        GgufValueType::I8 => match <i8 as Item>::read(r, fs) {
            Ok(v) => Ok(GgufValue::I8(v)),
            Err(e) => Err(e),
        },
        GgufValueType::U16 => match <u16 as Item>::read(r, fs) {
            Ok(v) => Ok(GgufValue::U16(v)),
            Err(e) => Err(e),
        },
        GgufValueType::I16 => match <i16 as Item>::read(r, fs) {
            Ok(v) => Ok(GgufValue::I16(v)),
            Err(e) => Err(e),
        },
        GgufValueType::U32 => match rd_u32(r, fs) {
            Ok(v) => Ok(GgufValue::U32(v)),
            Err(e) => Err(e),
        },
        GgufValueType::I32 => match rd_i32(r, fs) {
            Ok(v) => Ok(GgufValue::I32(v)),
            Err(e) => Err(e),
        },
        GgufValueType::F32 => match rd_f32(r, fs) {
            Ok(v) => Ok(GgufValue::F32(v)),
            Err(e) => Err(e),
        },
        GgufValueType::F64 => match rd_f64(r, fs) {
            Ok(v) => Ok(GgufValue::F64(v)),
            Err(e) => Err(e),
        },
        GgufValueType::U64 => match rd_u64(r, fs) {
            Ok(v) => Ok(GgufValue::U64(v)),
            Err(e) => Err(e),
        },
        GgufValueType::I64 => match rd_i64(r, fs) {
            Ok(v) => Ok(GgufValue::I64(v)),
            Err(e) => Err(e),
        },
        GgufValueType::Bool => match <bool as Item>::read(r, fs) {
            Ok(v) => Ok(GgufValue::Bool(v)),
            Err(e) => Err(e),
        },
        GgufValueType::String => match rd_string(r, fs) {
            Ok(v) => Ok(GgufValue::Str(v)),
            Err(e) => Err(e),
        },
        GgufValueType::Array => match rd_array_value(r, fs, at) {
            Ok(v) => Ok(GgufValue::Arr(v)),
            Err(e) => Err(e),
        },
    }
}

proof fn lemma_array_extent(data: Seq<u8>, fs: int, at: int, elem: GgufValueType, count: nat)
    requires
        0 <= at <= data.len(),
        at <= fs,
    ensures
        array_at(data, fs, at, elem, count) matches Ok((_, q)) ==> at <= q <= data.len() && q <= fs,
{
    lemma_items_extent::<u8>(data, fs, at, count);
    lemma_items_extent::<i8>(data, fs, at, count);
    lemma_items_extent::<u16>(data, fs, at, count);
    lemma_items_extent::<i16>(data, fs, at, count);
    lemma_items_extent::<u32>(data, fs, at, count);
    lemma_items_extent::<i32>(data, fs, at, count);
    lemma_items_extent::<u64>(data, fs, at, count);
    lemma_items_extent::<i64>(data, fs, at, count);
    lemma_items_extent::<F32>(data, fs, at, count);
    lemma_items_extent::<F64>(data, fs, at, count);
    lemma_items_extent::<bool>(data, fs, at, count);
    lemma_items_extent::<String>(data, fs, at, count);
}

proof fn lemma_value_extent(data: Seq<u8>, fs: int, at: int)
    requires
        0 <= at,
    ensures
        value_at(data, fs, at) matches Ok((_, q)) ==> at <= q <= data.len() && q <= fs,
{
    if let Ok((id, p)) = u32_at(data, fs, at) {
        if let Ok((elem_id, p2)) = u32_at(data, fs, p) {
            if let Some(elem) = type_of_id(elem_id) {
                if let Ok((count, p3)) = u64_at(data, fs, p2) {
                    lemma_array_extent(data, fs, p3, elem, count as nat);
                }
            }
        }
    }
}

proof fn lemma_array_steady(
    data: Seq<u8>,
    more: Seq<u8>,
    fs: int,
    at: int,
    elem: GgufValueType,
    count: nat,
)
    requires
        0 <= at <= data.len(),
        at <= fs,
    ensures
        steady(array_at(data, fs, at, elem, count), array_at(data + more, fs, at, elem, count), fs),
{
    lemma_items_steady::<u8>(data, more, fs, at, count);
    lemma_items_steady::<i8>(data, more, fs, at, count);
    lemma_items_steady::<u16>(data, more, fs, at, count);
    lemma_items_steady::<i16>(data, more, fs, at, count);
    lemma_items_steady::<u32>(data, more, fs, at, count);
    lemma_items_steady::<i32>(data, more, fs, at, count);
    lemma_items_steady::<u64>(data, more, fs, at, count);
    lemma_items_steady::<i64>(data, more, fs, at, count);
    lemma_items_steady::<F32>(data, more, fs, at, count);
    lemma_items_steady::<F64>(data, more, fs, at, count);
    lemma_items_steady::<bool>(data, more, fs, at, count);
    lemma_items_steady::<String>(data, more, fs, at, count);
}

proof fn lemma_array_value_steady(data: Seq<u8>, more: Seq<u8>, fs: int, at: int, p: int)
    requires
        0 <= p,
    ensures
        steady(array_value_at(data, fs, at, p), array_value_at(data + more, fs, at, p), fs),
{
    lemma_bytes_steady(data, more, fs, p, 4);
    if let Ok((id, p2)) = u32_at(data, fs, p) {
        lemma_bytes_steady(data, more, fs, p2, 8);
        if let Some(elem) = type_of_id(id) {
            if let Ok((count, p3)) = u64_at(data, fs, p2) {
                lemma_array_steady(data, more, fs, p3, elem, count as nat);
            }
        }
    }
}

proof fn lemma_value_steady(data: Seq<u8>, more: Seq<u8>, fs: int, at: int)
    requires
        0 <= at,
    ensures
        steady(value_at(data, fs, at), value_at(data + more, fs, at), fs),
{
    lemma_bytes_steady(data, more, fs, at, 4);
    if let Ok((id, p)) = u32_at(data, fs, at) {
        lemma_bytes_steady(data, more, fs, p, 1);
        lemma_bytes_steady(data, more, fs, p, 2);
        lemma_bytes_steady(data, more, fs, p, 4);
        lemma_bytes_steady(data, more, fs, p, 8);
        lemma_string_steady(data, more, fs, p);
        lemma_array_value_steady(data, more, fs, at, p);
    }
}

/// A key and its value.
impl Item for (String, GgufValue) {
    open spec fn item_at(data: Seq<u8>, fs: int, at: int) -> Parsed<(Seq<char>, Value)> {
        match string_at(data, fs, at) {
            Err(e) => Err(e),
            Ok((key, p)) => match value_at(data, fs, p) {
                Err(e) => Err(e),
                Ok((value, q)) => Ok(((key, value), q)),
            },
        }
    }

    proof fn lemma_extent(data: Seq<u8>, fs: int, at: int) {
        if let Ok((_, p)) = string_at(data, fs, at) {
            lemma_value_extent(data, fs, p);
        }
    }

    proof fn lemma_steady(data: Seq<u8>, more: Seq<u8>, fs: int, at: int) {
        lemma_string_steady(data, more, fs, at);
        if let Ok((_, p)) = string_at(data, fs, at) {
            lemma_value_steady(data, more, fs, p);
        }
    }

    fn read(r: &mut ByteSource<'_>, fs: u64) -> (res: Result<(String, GgufValue), LoadError>) {
        let key = match rd_string(r, fs) {
            Ok(k) => k,
            Err(e) => {
                return Err(e);
            },
        };
        match rd_value(r, fs) {
            Ok(value) => Ok((key, value)),
            Err(e) => Err(e),
        }
    }
}

/// An item of the type at `a`, if there is one, takes `size` bytes.
spec fn takes_bytes<T: Item>(data: Seq<u8>, fs: int, a: int, size: int) -> bool {
    T::item_at(data, fs, a) matches Ok((_, e)) ==> e == a + size
}

proof fn lemma_items_size<T: Item>(data: Seq<u8>, fs: int, at: int, n: nat, size: int)
    requires
        forall|a: int| #[trigger] takes_bytes::<T>(data, fs, a, size),
    ensures
        items_at::<T>(data, fs, at, n) matches Ok((_, q)) ==> q == at + n * size,
    decreases n,
{
    if n > 0 {
        lemma_items_size::<T>(data, fs, at, (n - 1) as nat, size);
        if let Ok((s, p)) = items_at::<T>(data, fs, at, (n - 1) as nat) {
            assert(takes_bytes::<T>(data, fs, p, size));
            assert((n - 1) * size + size == n * size) by (nonlinear_arith);
        }
    } else {
        assert(0 * size == 0);
    }
}

proof fn lemma_strings_size(data: Seq<u8>, fs: int, at: int, n: nat)
    requires
        0 <= at <= data.len(),
        at <= fs,
    ensures
        items_at::<String>(data, fs, at, n) matches Ok((_, q)) ==> q >= at + 8 * n,
    decreases n,
{
    if n > 0 {
        lemma_strings_size(data, fs, at, (n - 1) as nat);
        lemma_items_extent::<String>(data, fs, at, (n - 1) as nat);
    }
}

/// The bytes of an array: as many as its elements take, each one, two, four or eight by its type;
/// for strings at least their lengths. So no array that is there is refused for its size.
pub proof fn law_array_sizes(data: Seq<u8>, fs: int, at: int, elem: GgufValueType, count: nat)
    requires
        0 <= at <= data.len(),
        at <= fs,
    ensures
        array_at(data, fs, at, elem, count) matches Ok((_, q)) ==> {
            &&& q <= fs
            &&& count * elem.least_bytes() <= q - at
            &&& match elem {
                GgufValueType::U8 | GgufValueType::I8 | GgufValueType::Bool => q - at == count,
                GgufValueType::U16 | GgufValueType::I16 => q - at == 2 * count,
                GgufValueType::U32 | GgufValueType::I32 | GgufValueType::F32 => q - at == 4 * count,
                GgufValueType::U64 | GgufValueType::I64 | GgufValueType::F64 => q - at == 8 * count,
                GgufValueType::String => q - at >= 8 * count,
                GgufValueType::Array => false,
            }
        },
{
    lemma_array_extent(data, fs, at, elem, count);
    match elem {
        GgufValueType::U8 => {
            assert forall|a: int| #[trigger] takes_bytes::<u8>(data, fs, a, 1) by {}
            lemma_items_size::<u8>(data, fs, at, count, 1);
            assert(count * 1 == 1 * count) by (nonlinear_arith);
            assert(elem.least_bytes() == 1);
        },
        GgufValueType::I8 => {
            assert forall|a: int| #[trigger] takes_bytes::<i8>(data, fs, a, 1) by {}
            lemma_items_size::<i8>(data, fs, at, count, 1);
            assert(count * 1 == 1 * count) by (nonlinear_arith);
            assert(elem.least_bytes() == 1);
        },
        GgufValueType::U16 => {
            assert forall|a: int| #[trigger] takes_bytes::<u16>(data, fs, a, 2) by {}
            lemma_items_size::<u16>(data, fs, at, count, 2);
            assert(count * 2 == 2 * count) by (nonlinear_arith);
            assert(elem.least_bytes() == 2);
        },
        GgufValueType::I16 => {
            assert forall|a: int| #[trigger] takes_bytes::<i16>(data, fs, a, 2) by {}
            lemma_items_size::<i16>(data, fs, at, count, 2);
            assert(count * 2 == 2 * count) by (nonlinear_arith);
            assert(elem.least_bytes() == 2);
        },
        GgufValueType::U32 => {
            assert forall|a: int| #[trigger] takes_bytes::<u32>(data, fs, a, 4) by {}
            lemma_items_size::<u32>(data, fs, at, count, 4);
            assert(count * 4 == 4 * count) by (nonlinear_arith);
            assert(elem.least_bytes() == 4);
        },
        GgufValueType::I32 => {
            assert forall|a: int| #[trigger] takes_bytes::<i32>(data, fs, a, 4) by {}
            lemma_items_size::<i32>(data, fs, at, count, 4);
            assert(count * 4 == 4 * count) by (nonlinear_arith);
            assert(elem.least_bytes() == 4);
        },
        GgufValueType::F32 => {
            assert forall|a: int| #[trigger] takes_bytes::<F32>(data, fs, a, 4) by {}
            lemma_items_size::<F32>(data, fs, at, count, 4);
            assert(count * 4 == 4 * count) by (nonlinear_arith);
            assert(elem.least_bytes() == 4);
        },
        GgufValueType::F64 => {
            assert forall|a: int| #[trigger] takes_bytes::<F64>(data, fs, a, 8) by {}
            lemma_items_size::<F64>(data, fs, at, count, 8);
            assert(count * 8 == 8 * count) by (nonlinear_arith);
            assert(elem.least_bytes() == 8);
        },
        GgufValueType::U64 => {
            assert forall|a: int| #[trigger] takes_bytes::<u64>(data, fs, a, 8) by {}
            lemma_items_size::<u64>(data, fs, at, count, 8);
            assert(count * 8 == 8 * count) by (nonlinear_arith);
            assert(elem.least_bytes() == 8);
        },
        GgufValueType::I64 => {
            assert forall|a: int| #[trigger] takes_bytes::<i64>(data, fs, a, 8) by {}
            lemma_items_size::<i64>(data, fs, at, count, 8);
            assert(count * 8 == 8 * count) by (nonlinear_arith);
            assert(elem.least_bytes() == 8);
        },
        GgufValueType::Bool => {
            assert forall|a: int| #[trigger] takes_bytes::<bool>(data, fs, a, 1) by {}
            lemma_items_size::<bool>(data, fs, at, count, 1);
            assert(count * 1 == 1 * count) by (nonlinear_arith);
            assert(elem.least_bytes() == 1);
        },
        GgufValueType::String => {
            lemma_strings_size(data, fs, at, count);
            assert(count * 1 == count) by (nonlinear_arith);
            assert(elem.least_bytes() == 1);
        },
        GgufValueType::Array => {},
    }
}

} // verus!
