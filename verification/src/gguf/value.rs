//! Metadata values: what a key of the header can hold.

use vstd::prelude::*;

use crate::ieee::{F32, F64};
use crate::text::{dec, push_dec, push_signed_dec, signed_dec};

verus! {

/// The type tag of a metadata value.
#[derive(Debug, Clone, Copy, PartialEq, Eq, Structural)]
pub enum GgufValueType {
    U8,
    I8,
    U16,
    I16,
    U32,
    I32,
    F32,
    Bool,
    String,
    Array,
    U64,
    I64,
    F64,
}

/// The type tag with the given id. Ids run from 0 to 12; any other stands for nothing.
pub open spec fn type_of_id(id: u32) -> Option<GgufValueType> {
    if id == 0 {
        Some(GgufValueType::U8)
    } else if id == 1 {
        Some(GgufValueType::I8)
    } else if id == 2 {
        Some(GgufValueType::U16)
    } else if id == 3 {
        Some(GgufValueType::I16)
    } else if id == 4 {
        Some(GgufValueType::U32)
    } else if id == 5 {
        Some(GgufValueType::I32)
    } else if id == 6 {
        Some(GgufValueType::F32)
    } else if id == 7 {
        Some(GgufValueType::Bool)
    } else if id == 8 {
        Some(GgufValueType::String)
    } else if id == 9 {
        Some(GgufValueType::Array)
    } else if id == 10 {
        Some(GgufValueType::U64)
    } else if id == 11 {
        Some(GgufValueType::I64)
    } else if id == 12 {
        Some(GgufValueType::F64)
    } else {
        None
    }
}

impl GgufValueType {
    /// The least number of bytes that one array element of this type takes, by which the size
    /// of an array is capped. A string counts 1: its own length is capped when it is read.
    pub open spec fn least_bytes(self) -> u64 {
        match self {
            GgufValueType::U8 | GgufValueType::I8 | GgufValueType::Bool | GgufValueType::String =>
                1,
            GgufValueType::U16 | GgufValueType::I16 => 2,
            GgufValueType::U32 | GgufValueType::I32 | GgufValueType::F32 => 4,
            GgufValueType::U64 | GgufValueType::I64 | GgufValueType::F64 | GgufValueType::Array =>
                8,
        }
    }

    /// The type's name in messages.
    pub open spec fn label(self) -> Seq<char> {
        match self {
            GgufValueType::U8 => "u8"@,
            GgufValueType::I8 => "i8"@,
            GgufValueType::U16 => "u16"@,
            GgufValueType::I16 => "i16"@,
            GgufValueType::U32 => "u32"@,
            GgufValueType::I32 => "i32"@,
            GgufValueType::F32 => "f32"@,
            GgufValueType::Bool => "bool"@,
            GgufValueType::String => "string"@,
            GgufValueType::Array => "array"@,
            GgufValueType::U64 => "u64"@,
            GgufValueType::I64 => "i64"@,
            GgufValueType::F64 => "f64"@,
        }
    }

    /// The type tag with the given id.
    pub fn from_id(id: u32) -> (res: Option<GgufValueType>)
        ensures
            res == type_of_id(id),
    {
        match id {
            0 => Some(GgufValueType::U8),
            1 => Some(GgufValueType::I8),
            2 => Some(GgufValueType::U16),
            3 => Some(GgufValueType::I16),
            4 => Some(GgufValueType::U32),
            5 => Some(GgufValueType::I32),
            6 => Some(GgufValueType::F32),
            7 => Some(GgufValueType::Bool),
            8 => Some(GgufValueType::String),
            9 => Some(GgufValueType::Array),
            10 => Some(GgufValueType::U64),
            11 => Some(GgufValueType::I64),
            12 => Some(GgufValueType::F64),
            _ => None,
        }
    }

    /// The least number of bytes that one array element of this type takes.
    pub fn elem_bytes(self) -> (res: u64)
        ensures
            res == self.least_bytes(),
    {
        match self {
            GgufValueType::U8 | GgufValueType::I8 | GgufValueType::Bool => 1,
            GgufValueType::U16 | GgufValueType::I16 => 2,
            GgufValueType::U32 | GgufValueType::I32 | GgufValueType::F32 => 4,
            GgufValueType::U64 | GgufValueType::I64 | GgufValueType::F64 => 8,
            GgufValueType::String => 1,
            GgufValueType::Array => 8,
        }
    }

    /// The type's name in messages.
    pub fn name(self) -> (res: &'static str)
        ensures
            res@ == self.label(),
    {
        match self {
            GgufValueType::U8 => "u8",
            GgufValueType::I8 => "i8",
            GgufValueType::U16 => "u16",
            GgufValueType::I16 => "i16",
            GgufValueType::U32 => "u32",
            GgufValueType::I32 => "i32",
            GgufValueType::F32 => "f32",
            GgufValueType::Bool => "bool",
            GgufValueType::String => "string",
            GgufValueType::Array => "array",
            GgufValueType::U64 => "u64",
            GgufValueType::I64 => "i64",
            GgufValueType::F64 => "f64",
        }
    }
}

/// A metadata value. Arrays are typed vectors, so that a reader of, say, the token list gets
/// its strings directly.
#[derive(Debug, Clone, PartialEq)]
pub enum GgufValue {
    U8(u8),
    I8(i8),
    U16(u16),
    I16(i16),
    U32(u32),
    I32(i32),
    F32(F32),
    F64(F64),
    U64(u64),
    I64(i64),
    Bool(bool),
    Str(String),
    Arr(GgufArray),
}

/// The elements of a metadata array.
#[derive(Debug, Clone, PartialEq)]
pub enum GgufArray {
    U8(Vec<u8>),
    I8(Vec<i8>),
    U16(Vec<u16>),
    I16(Vec<i16>),
    U32(Vec<u32>),
    I32(Vec<i32>),
    F32(Vec<F32>),
    F64(Vec<F64>),
    U64(Vec<u64>),
    I64(Vec<i64>),
    Bool(Vec<bool>),
    Str(Vec<String>),
}

/// What a [`GgufValue`] holds.
pub enum Value {
    U8(u8),
    I8(i8),
    U16(u16),
    I16(i16),
    U32(u32),
    I32(i32),
    F32(F32),
    F64(F64),
    U64(u64),
    I64(i64),
    Bool(bool),
    Str(Seq<char>),
    Arr(Array),
}

/// What a [`GgufArray`] holds.
pub enum Array {
    U8(Seq<u8>),
    I8(Seq<i8>),
    U16(Seq<u16>),
    I16(Seq<i16>),
    U32(Seq<u32>),
    I32(Seq<i32>),
    F32(Seq<F32>),
    F64(Seq<F64>),
    U64(Seq<u64>),
    I64(Seq<i64>),
    Bool(Seq<bool>),
    Str(Seq<Seq<char>>),
}

/// The texts of a sequence of strings.
pub open spec fn texts(v: Seq<String>) -> Seq<Seq<char>> {
    v.map_values(|s: String| s@)
}

impl View for GgufArray {
    type V = Array;

    open spec fn view(&self) -> Array {
        match *self {
            GgufArray::U8(v) => Array::U8(v@),
            GgufArray::I8(v) => Array::I8(v@),
            GgufArray::U16(v) => Array::U16(v@),
            GgufArray::I16(v) => Array::I16(v@),
            GgufArray::U32(v) => Array::U32(v@),
            GgufArray::I32(v) => Array::I32(v@),
            GgufArray::F32(v) => Array::F32(v@),
            GgufArray::F64(v) => Array::F64(v@),
            GgufArray::U64(v) => Array::U64(v@),
            GgufArray::I64(v) => Array::I64(v@),
            GgufArray::Bool(v) => Array::Bool(v@),
            GgufArray::Str(v) => Array::Str(texts(v@)),
        }
    }
}

impl View for GgufValue {
    type V = Value;

    open spec fn view(&self) -> Value {
        match *self {
            GgufValue::U8(v) => Value::U8(v),
            GgufValue::I8(v) => Value::I8(v),
            GgufValue::U16(v) => Value::U16(v),
            GgufValue::I16(v) => Value::I16(v),
            GgufValue::U32(v) => Value::U32(v),
            GgufValue::I32(v) => Value::I32(v),
            GgufValue::F32(v) => Value::F32(v),
            GgufValue::F64(v) => Value::F64(v),
            GgufValue::U64(v) => Value::U64(v),
            GgufValue::I64(v) => Value::I64(v),
            GgufValue::Bool(v) => Value::Bool(v),
            GgufValue::Str(s) => Value::Str(s@),
            GgufValue::Arr(a) => Value::Arr(a@),
        }
    }
}

/// The literal that `Debug` of std writes for a text: quoted, with escapes.
pub uninterp spec fn quoted(text: Seq<char>) -> Seq<char>;

/// `Debug` of std for `str`, as the format string `{:?}` writes it. Which characters are escaped
/// and how is the standard library's rule; it depends on the text alone.
#[verifier::external_body]
pub(crate) fn debug_text(s: &str) -> (res: String)
    ensures
        res@ == quoted(s@),
{
    format!("{:?}", s)
}

impl Array {
    /// Element type and element count, as in `u32[3]`.
    pub open spec fn summary(self) -> Seq<char> {
        match self {
            Array::U8(v) => "u8"@ + "["@ + dec(v.len()) + "]"@,
            Array::I8(v) => "i8"@ + "["@ + dec(v.len()) + "]"@,
            Array::U16(v) => "u16"@ + "["@ + dec(v.len()) + "]"@,
            Array::I16(v) => "i16"@ + "["@ + dec(v.len()) + "]"@,
            Array::U32(v) => "u32"@ + "["@ + dec(v.len()) + "]"@,
            Array::I32(v) => "i32"@ + "["@ + dec(v.len()) + "]"@,
            Array::F32(v) => "f32"@ + "["@ + dec(v.len()) + "]"@,
            Array::F64(v) => "f64"@ + "["@ + dec(v.len()) + "]"@,
            Array::U64(v) => "u64"@ + "["@ + dec(v.len()) + "]"@,
            Array::I64(v) => "i64"@ + "["@ + dec(v.len()) + "]"@,
            Array::Bool(v) => "bool"@ + "["@ + dec(v.len()) + "]"@,
            Array::Str(v) => "string"@ + "["@ + dec(v.len()) + "]"@,
        }
    }
}

impl Value {
    /// The short description of a value: type and number, the quoted text of a string, type and
    /// count of an array. A float is written with the given numeral.
    pub open spec fn summary(self, numeral: Seq<char>) -> Seq<char> {
        match self {
            Value::U8(v) => "u8 "@ + dec(v as nat),
            Value::I8(v) => "i8 "@ + signed_dec(v as int),
            Value::U16(v) => "u16 "@ + dec(v as nat),
            Value::I16(v) => "i16 "@ + signed_dec(v as int),
            Value::U32(v) => "u32 "@ + dec(v as nat),
            Value::I32(v) => "i32 "@ + signed_dec(v as int),
            Value::F32(_) => "f32 "@ + numeral,
            Value::F64(_) => "f64 "@ + numeral,
            Value::U64(v) => "u64 "@ + dec(v as nat),
            Value::I64(v) => "i64 "@ + signed_dec(v as int),
            Value::Bool(v) => "bool "@ + (if v {
                "true"@
            } else {
                "false"@
            }),
            Value::Str(s) => quoted(s),
            Value::Arr(a) => a.summary(),
        }
    }
}

/// `prefix` followed by the numeral of `n`.
fn labelled(prefix: &str, n: u64) -> (res: String)
    ensures
        res@ == prefix@ + dec(n as nat),
{
    let mut s = String::from_str(prefix);
    push_dec(&mut s, n);
    s
}

/// `prefix` followed by the signed numeral of `n`.
fn labelled_signed(prefix: &str, n: i64) -> (res: String)
    ensures
        res@ == prefix@ + signed_dec(n as int),
{
    let mut s = String::from_str(prefix);
    push_signed_dec(&mut s, n);
    s
}

/// `prefix` followed by `text`.
fn labelled_text(prefix: &str, text: &str) -> (res: String)
    ensures
        res@ == prefix@ + text@,
{
    let mut s = String::from_str(prefix);
    s.append(text);
    s
}

impl GgufArray {
    /// Element type and element count, as in `u32[3]`.
    pub fn describe(&self) -> (res: String)
        ensures
            res@ == self@.summary(),
    {
        let (t, n): (&str, usize) = match self {
            GgufArray::U8(v) => ("u8", v.len()),
            GgufArray::I8(v) => ("i8", v.len()),
            GgufArray::U16(v) => ("u16", v.len()),
            GgufArray::I16(v) => ("i16", v.len()),
            GgufArray::U32(v) => ("u32", v.len()),
            GgufArray::I32(v) => ("i32", v.len()),
            GgufArray::F32(v) => ("f32", v.len()),
            GgufArray::F64(v) => ("f64", v.len()),
            GgufArray::U64(v) => ("u64", v.len()),
            GgufArray::I64(v) => ("i64", v.len()),
            GgufArray::Bool(v) => ("bool", v.len()),
            GgufArray::Str(v) => ("string", v.len()),
        };
        let mut s = String::from_str(t);
        s.append("[");
        push_dec(&mut s, n as u64);
        s.append("]");
        s
    }
}

impl GgufValue {
    /// The short description of a value: type and number, the quoted text of a string, type and
    /// count of an array. The numeral of a float is the caller's to write; no other value takes it.
    pub fn describe(&self, numeral: &str) -> (res: String)
        ensures
            res@ == self@.summary(numeral@),
    {
        match self {
            GgufValue::U8(v) => labelled("u8 ", *v as u64),
            GgufValue::I8(v) => labelled_signed("i8 ", *v as i64),
            GgufValue::U16(v) => labelled("u16 ", *v as u64),
            GgufValue::I16(v) => labelled_signed("i16 ", *v as i64),
            GgufValue::U32(v) => labelled("u32 ", *v as u64),
            GgufValue::I32(v) => labelled_signed("i32 ", *v as i64),
            GgufValue::F32(_) => labelled_text("f32 ", numeral),
            GgufValue::F64(_) => labelled_text("f64 ", numeral),
            GgufValue::U64(v) => labelled("u64 ", *v),
            GgufValue::I64(v) => labelled_signed("i64 ", *v),
            GgufValue::Bool(v) => {
                let mut s = String::from_str("bool ");
                if *v {
                    s.append("true");
                } else {
                    s.append("false");
                }
                s
            },
            GgufValue::Str(s) => debug_text(s.as_str()),
            GgufValue::Arr(a) => a.describe(),
        }
    }
}

} // verus!
