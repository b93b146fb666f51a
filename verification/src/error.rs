//! Refusals: what the library answers where it will not load or run something.

use vstd::prelude::*;

use crate::text::{dec, hex_byte, push_dec, push_hex};

verus! {

/// `std::io::Error`, carried through unopened.
#[verifier::external_type_specification]
#[verifier::external_body]
pub struct ExIoError(std::io::Error);

/// `ToString::to_string` on an `std::io::Error`: its text, which the operating system chooses.
/// Nothing is claimed of it.
#[verifier::external_body]
fn io_error_text(e: &std::io::Error) -> (res: String) {
    e.to_string()
}

/// A refusal to load or to run. Not an accident but a decision, with what led to it.
#[derive(Debug)]
pub enum LoadError {
    /// Required configuration keys are absent; `fields` lists all of them.
    MissingConfig { n: usize, fields: String },
    /// The configuration can be read but describes no valid architecture.
    StructCheck(String),
    /// A tensor holds another number of elements than the configuration implies.
    ElementCount { name: String, got: usize, want: usize },
    /// A required tensor is not in the file's index. The file is valid; a weight is missing.
    MissingTensor { name: String },
    /// The memory plan does not fit.
    DoesNotFit { need: String, have: String },
    /// A corrupt file, with offsets and sizes in the message.
    BadFile(String),
    /// The first four bytes are not `GGUF`.
    BadMagic { magic: [u8; 4] },
    /// A GGUF version other than 2 and 3.
    UnsupportedVersion(u32),
    /// A tensor claims bytes beyond the end of the file.
    TensorOutOfBounds { name: String, offset: u64, nbytes: u64, file_size: u64 },
    /// The data of two tensors overlaps.
    TensorOverlap { a: String, b: String, a_end: u64, b_start: u64 },
    /// A tensor's data does not start at a multiple of the alignment.
    MisalignedTensor { name: String, offset: u64, align: u64 },
    /// A ggml type id outside the known table, where its size is needed.
    UnknownGgmlType(u32),
    /// An error of the operating system.
    Io(std::io::Error),
}

/// What a [`LoadError`] says, over plain values.
pub enum Refusal {
    MissingConfig { n: int, fields: Seq<char> },
    StructCheck(Seq<char>),
    ElementCount { name: Seq<char>, got: int, want: int },
    MissingTensor { name: Seq<char> },
    DoesNotFit { need: Seq<char>, have: Seq<char> },
    BadFile(Seq<char>),
    BadMagic { magic: Seq<u8> },
    UnsupportedVersion(u32),
    TensorOutOfBounds { name: Seq<char>, offset: int, nbytes: int, file_size: int },
    TensorOverlap { a: Seq<char>, b: Seq<char>, a_end: int, b_start: int },
    MisalignedTensor { name: Seq<char>, offset: int, align: int },
    UnknownGgmlType(u32),
    Io(std::io::Error),
}

impl View for LoadError {
    type V = Refusal;

    open spec fn view(&self) -> Refusal {
        match *self {
            LoadError::MissingConfig { n, fields } => Refusal::MissingConfig {
                n: n as int,
                fields: fields@,
            },
            LoadError::StructCheck(m) => Refusal::StructCheck(m@),
            LoadError::ElementCount { name, got, want } => Refusal::ElementCount {
                name: name@,
                got: got as int,
                want: want as int,
            },
            LoadError::MissingTensor { name } => Refusal::MissingTensor { name: name@ },
            LoadError::DoesNotFit { need, have } => Refusal::DoesNotFit { need: need@, have: have@ },
            LoadError::BadFile(m) => Refusal::BadFile(m@),
            LoadError::BadMagic { magic } => Refusal::BadMagic { magic: magic@ },
            LoadError::UnsupportedVersion(v) => Refusal::UnsupportedVersion(v),
            LoadError::TensorOutOfBounds {
                name,
                offset,
                nbytes,
                file_size,
            } => Refusal::TensorOutOfBounds {
                name: name@,
                offset: offset as int,
                nbytes: nbytes as int,
                file_size: file_size as int,
            },
            LoadError::TensorOverlap { a, b, a_end, b_start } => Refusal::TensorOverlap {
                a: a@,
                b: b@,
                a_end: a_end as int,
                b_start: b_start as int,
            },
            LoadError::MisalignedTensor { name, offset, align } => Refusal::MisalignedTensor {
                name: name@,
                offset: offset as int,
                align: align as int,
            },
            LoadError::UnknownGgmlType(id) => Refusal::UnknownGgmlType(id),
            LoadError::Io(e) => Refusal::Io(e),
        }
    }
}

impl Refusal {
    /// The sentence that reports the refusal. For an operating-system error only its opening
    /// words are the library's own; see [`LoadError::message`].
    pub open spec fn message(self) -> Seq<char> {
        match self {
            Refusal::MissingConfig { n, fields } => "config is missing "@ + dec(n as nat)
                + " required field(s): "@ + fields,
            Refusal::StructCheck(m) => "config fails a structural check: "@ + m,
            Refusal::ElementCount { name, got, want } => "tensor '"@ + name + "' has "@ + dec(
                got as nat,
            ) + " elements, expected "@ + dec(want as nat),
            Refusal::MissingTensor { name } => "tensor '"@ + name
                + "' not found in the file index"@,
            Refusal::DoesNotFit { need, have } => "this run needs "@ + need
                + ", the machine has "@ + have + " available"@,
            Refusal::BadFile(m) => "corrupt file: "@ + m,
            Refusal::BadMagic { magic } => "not a GGUF file: bad magic ["@ + hex_byte(magic[0])
                + ", "@ + hex_byte(magic[1]) + ", "@ + hex_byte(magic[2]) + ", "@ + hex_byte(
                magic[3],
            ) + "] (expected 'GGUF')"@,
            Refusal::UnsupportedVersion(v) => "unsupported GGUF version "@ + dec(v as nat)
                + " (supported: 2 and 3)"@,
            Refusal::TensorOutOfBounds { name, offset, nbytes, file_size } => "tensor '"@ + name
                + "' claims bytes ["@ + dec(offset as nat) + ", "@ + dec(offset as nat) + "+"@
                + dec(nbytes as nat) + ") beyond file size "@ + dec(file_size as nat),
            Refusal::TensorOverlap { a, b, a_end, b_start } => "tensor data overlap: '"@ + a
                + "' ends at "@ + dec(a_end as nat) + ", '"@ + b + "' starts at "@ + dec(
                b_start as nat,
            ),
            Refusal::MisalignedTensor { name, offset, align } => "tensor '"@ + name
                + "' at offset "@ + dec(offset as nat) + " is not aligned to "@ + dec(
                align as nat,
            ) + " bytes"@,
            Refusal::UnknownGgmlType(id) => "unknown ggml type id "@ + dec(id as nat),
            Refusal::Io(_) => "i/o error: "@,
        }
    }
}

impl LoadError {
    /// A corrupt file, with context.
    pub fn corrupt(msg: String) -> (res: LoadError)
        ensures
            res == LoadError::BadFile(msg),
    {
        LoadError::BadFile(msg)
    }

    /// An error of the operating system.
    pub fn io(err: std::io::Error) -> (res: LoadError)
        ensures
            res == LoadError::Io(err),
    {
        LoadError::Io(err)
    }

    /// The sentence that reports the refusal. After the opening words of an operating-system
    /// error comes that error's own text, which is not fixed here.
    pub fn message(&self) -> (res: String)
        ensures
            !(self is Io) ==> res@ == self@.message(),
            self is Io ==> self@.message().is_prefix_of(res@),
    {
        match self {
            LoadError::MissingConfig { n, fields } => {
                let mut s = String::from_str("config is missing ");
                push_dec(&mut s, *n as u64);
                s.append(" required field(s): ");
                s.append(fields.as_str());
                s
            },
            LoadError::StructCheck(m) => {
                let mut s = String::from_str("config fails a structural check: ");
                s.append(m.as_str());
                s
            },
            LoadError::ElementCount { name, got, want } => {
                let mut s = String::from_str("tensor '");
                s.append(name.as_str());
                s.append("' has ");
                push_dec(&mut s, *got as u64);
                s.append(" elements, expected ");
                push_dec(&mut s, *want as u64);
                s
            },
            LoadError::MissingTensor { name } => {
                let mut s = String::from_str("tensor '");
                s.append(name.as_str());
                s.append("' not found in the file index");
                s
            },
            LoadError::DoesNotFit { need, have } => {
                let mut s = String::from_str("this run needs ");
                s.append(need.as_str());
                s.append(", the machine has ");
                s.append(have.as_str());
                s.append(" available");
                s
            },
            LoadError::BadFile(m) => {
                let mut s = String::from_str("corrupt file: ");
                s.append(m.as_str());
                s
            },
            LoadError::BadMagic { magic } => {
                let mut s = String::from_str("not a GGUF file: bad magic [");
                push_hex(&mut s, magic[0]);
                s.append(", ");
                push_hex(&mut s, magic[1]);
                s.append(", ");
                push_hex(&mut s, magic[2]);
                s.append(", ");
                push_hex(&mut s, magic[3]);
                s.append("] (expected 'GGUF')");
                s
            },
            LoadError::UnsupportedVersion(v) => {
                let mut s = String::from_str("unsupported GGUF version ");
                push_dec(&mut s, *v as u64);
                s.append(" (supported: 2 and 3)");
                s
            },
            LoadError::TensorOutOfBounds { name, offset, nbytes, file_size } => {
                let mut s = String::from_str("tensor '");
                s.append(name.as_str());
                s.append("' claims bytes [");
                push_dec(&mut s, *offset);
                s.append(", ");
                push_dec(&mut s, *offset);
                s.append("+");
                push_dec(&mut s, *nbytes);
                s.append(") beyond file size ");
                push_dec(&mut s, *file_size);
                s
            },
            LoadError::TensorOverlap { a, b, a_end, b_start } => {
                let mut s = String::from_str("tensor data overlap: '");
                s.append(a.as_str());
                s.append("' ends at ");
                push_dec(&mut s, *a_end);
                s.append(", '");
                s.append(b.as_str());
                s.append("' starts at ");
                push_dec(&mut s, *b_start);
                s
            },
            LoadError::MisalignedTensor { name, offset, align } => {
                let mut s = String::from_str("tensor '");
                s.append(name.as_str());
                s.append("' at offset ");
                push_dec(&mut s, *offset);
                s.append(" is not aligned to ");
                push_dec(&mut s, *align);
                s.append(" bytes");
                s
            },
            LoadError::UnknownGgmlType(id) => {
                let mut s = String::from_str("unknown ggml type id ");
                push_dec(&mut s, *id as u64);
                s
            },
            LoadError::Io(e) => {
                let mut s = String::from_str("i/o error: ");
                s.append(io_error_text(e).as_str());
                s
            },
        }
    }
}

impl From<std::io::Error> for LoadError {
    fn from(e: std::io::Error) -> (res: LoadError) {
        LoadError::Io(e)
    }
}

impl vstd::std_specs::convert::FromSpecImpl<std::io::Error> for LoadError {
    open spec fn obeys_from_spec() -> bool {
        true
    }

    open spec fn from_spec(e: std::io::Error) -> LoadError {
        LoadError::Io(e)
    }
}

/// The symbolic index of a weight inside a model.
#[derive(Debug, Clone, Copy, PartialEq, Eq, Hash)]
pub struct WeightId(pub u64);

impl WeightId {
    /// The weight's short name: `w` and its number.
    pub fn label(&self) -> (res: String)
        ensures
            res@ == "w"@ + dec(self.0 as nat),
    {
        let mut s = String::from_str("w");
        push_dec(&mut s, self.0);
        s
    }
}

} // verus!
