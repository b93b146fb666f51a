//! Reading at a position: what stands at each place of the file, and the readers that give it.
//!
//! Every reader is held to two ends: that of the bytes at hand and the declared size of the
//! file. Which of the two a read passes decides the refusal.

use vstd::prelude::*;
use vstd::slice::slice_subrange;
use vstd::utf8::{decode_utf8, valid_utf8};

use crate::error::{LoadError, Refusal};
use crate::text::{dec, push_dec};

verus! {

/// The bytes of a file, read from front to back.
pub struct ByteSource<'a> {
    pub data: &'a [u8],
    /// Where the next read starts.
    pub at: u64,
}

/// What a read gives: a value and the position behind it, or a refusal.
pub type Parsed<T> = Result<(T, int), Refusal>;

/// The refusal of a read past the declared size.
pub open spec fn past_end(n: int, at: int, fs: int) -> Refusal {
    Refusal::BadFile(
        "read of "@ + dec(n as nat) + " bytes at offset "@ + dec(at as nat)
            + " exceeds file size "@ + dec(fs as nat),
    )
}

/// The refusal of a read within the declared size for which the bytes are not there.
pub open spec fn cut_short(at: int, fs: int) -> Refusal {
    Refusal::BadFile(
        "truncated file: unexpected EOF at offset "@ + dec(at as nat) + " (file size "@ + dec(
            fs as nat,
        ) + ")"@,
    )
}

/// The `n` bytes at `at`.
pub open spec fn bytes_at(data: Seq<u8>, fs: int, at: int, n: int) -> Parsed<Seq<u8>> {
    if at + n > fs {
        Err(past_end(n, at, fs))
    } else if at + n > data.len() {
        Err(cut_short(at, fs))
    } else {
        Ok((data.subrange(at, at + n), at + n))
    }
}

/// The number that bytes encode, least significant byte first.
pub open spec fn le(bytes: Seq<u8>) -> nat
    decreases bytes.len(),
{
    if bytes.len() == 0 {
        0
    } else {
        bytes[0] as nat + 256 * le(bytes.skip(1))
    }
}

/// The byte at a place, and the place behind it.
pub open spec fn u8_at(data: Seq<u8>, fs: int, at: int) -> Parsed<u8> {
    match bytes_at(data, fs, at, 1) {
        Ok((b, p)) => Ok((b[0], p)),
        Err(e) => Err(e),
    }
}

/// The number of two bytes at a place, and the place behind it.
pub open spec fn u16_at(data: Seq<u8>, fs: int, at: int) -> Parsed<u16> {
    match bytes_at(data, fs, at, 2) {
        Ok((b, p)) => Ok((le(b) as u16, p)),
        Err(e) => Err(e),
    }
}

/// The number of four bytes at a place, and the place behind it.
pub open spec fn u32_at(data: Seq<u8>, fs: int, at: int) -> Parsed<u32> {
    match bytes_at(data, fs, at, 4) {
        Ok((b, p)) => Ok((le(b) as u32, p)),
        Err(e) => Err(e),
    }
}

/// The number of eight bytes at a place, and the place behind it.
pub open spec fn u64_at(data: Seq<u8>, fs: int, at: int) -> Parsed<u64> {
    match bytes_at(data, fs, at, 8) {
        Ok((b, p)) => Ok((le(b) as u64, p)),
        Err(e) => Err(e),
    }
}

/// The text that the bytes of a string stand for, where bytes that are no UTF-8 are replaced.
pub uninterp spec fn lossy_text(bytes: Seq<u8>) -> Seq<char>;

/// `String::from_utf8_lossy` of std: the text of the bytes. Bytes that are valid UTF-8 give the
/// text they encode; what stands for invalid ones depends on the bytes alone.
#[verifier::external_body]
fn lossy(bytes: &[u8]) -> (res: String)
    ensures
        res@ == lossy_text(bytes@),
        valid_utf8(bytes@) ==> res@ == decode_utf8(bytes@),
{
    String::from_utf8_lossy(bytes).into_owned()
}

/// The refusal of a string that claims more bytes than the file has.
pub open spec fn long_string(len: int, at: int, fs: int) -> Refusal {
    Refusal::BadFile(
        "string length "@ + dec(len as nat) + " at offset "@ + dec(at as nat)
            + " exceeds file size "@ + dec(fs as nat),
    )
}

/// The string at `at`: its length in bytes as a `u64`, and the bytes. Bytes that are valid UTF-8
/// are the text they encode.
pub open spec fn string_at(data: Seq<u8>, fs: int, at: int) -> Parsed<Seq<char>> {
    match u64_at(data, fs, at) {
        Err(e) => Err(e),
        Ok((len, p)) => if len > fs {
            Err(long_string(len as int, at, fs))
        } else {
            match bytes_at(data, fs, p, len as int) {
                Err(e) => Err(e),
                Ok((b, q)) => Ok((
                    if valid_utf8(b) {
                        decode_utf8(b)
                    } else {
                        lossy_text(b)
                    },
                    q,
                )),
            }
        },
    }
}

/// A refusal because bytes are not there that the declared size promises.
pub open spec fn cut_off(e: Refusal, fs: int) -> bool {
    exists|p: int| e == #[trigger] cut_short(p, fs)
}

/// What was read from the front of a file is what is read from more of it, unless it was refused
/// because the front ends too early.
pub open spec fn steady<V>(front: Result<V, Refusal>, more: Result<V, Refusal>, fs: int) -> bool {
    more == front || (front matches Err(e) && cut_off(e, fs))
}

/// Bytes that are there stay where they are.
pub proof fn lemma_bytes_steady(data: Seq<u8>, more: Seq<u8>, fs: int, at: int, n: int)
    requires
        0 <= at,
        0 <= n,
    ensures
        steady(bytes_at(data, fs, at, n), bytes_at(data + more, fs, at, n), fs),
{
    if at + n <= data.len() {
        assert((data + more).subrange(at, at + n) =~= data.subrange(at, at + n));
    } else {
        assert(cut_off(cut_short(at, fs), fs));
    }
}

/// A string that is there stays what it is.
pub proof fn lemma_string_steady(data: Seq<u8>, more: Seq<u8>, fs: int, at: int)
    requires
        0 <= at,
    ensures
        steady(string_at(data, fs, at), string_at(data + more, fs, at), fs),
{
    lemma_bytes_steady(data, more, fs, at, 8);
    if let Ok((len, p)) = u64_at(data, fs, at) {
        lemma_bytes_steady(data, more, fs, p, len as int);
    }
}

/// That a read from `at` gave what the file holds there, and moved the position behind it.
pub open spec fn read_gave<T: View>(
    before: ByteSource<'_>,
    after: ByteSource<'_>,
    expected: Parsed<T::V>,
    res: Result<T, LoadError>,
) -> bool {
    &&& after.data == before.data
    &&& match expected {
        Ok((v, p)) => res is Ok && res->Ok_0@ == v && after.at == p,
        Err(e) => res is Err && res->Err_0@ == e,
    }
}

/// The position of the next read.
pub fn pos(r: &ByteSource<'_>) -> (res: u64)
    ensures
        res == r.at,
{
    r.at
}

/// The next `len` bytes, if neither end of the file is passed. A refused read leaves the position
/// where it was.
pub fn read_checked<'a>(r: &mut ByteSource<'a>, len: u64, file_size: u64) -> (res: Result<
    &'a [u8],
    LoadError,
>)
    ensures
        read_gave(
            *old(r),
            *final(r),
            bytes_at(old(r).data@, file_size as int, old(r).at as int, len as int),
            res,
        ),
        res is Err ==> final(r).at == old(r).at,
{
    let at: u64 = pos(r);
    let inside = match at.checked_add(len) {
        Some(end) => end <= file_size,
        None => false,
    };
    if !inside {
        let mut m = String::from_str("read of ");
        push_dec(&mut m, len);
        m.append(" bytes at offset ");
        push_dec(&mut m, at);
        m.append(" exceeds file size ");
        push_dec(&mut m, file_size);
        return Err(LoadError::corrupt(m));
    }
    let data = r.data;
    let end: u64 = at + len;
    if end > data.len() as u64 {
        let mut m = String::from_str("truncated file: unexpected EOF at offset ");
        push_dec(&mut m, at);
        m.append(" (file size ");
        push_dec(&mut m, file_size);
        m.append(")");
        return Err(LoadError::corrupt(m));
    }
    r.at = end;
    Ok(slice_subrange(data, at as usize, end as usize))
}

proof fn lemma_le_1(b: Seq<u8>)
    requires
        b.len() == 1,
    ensures
        le(b) == b[0],
{
    reveal_with_fuel(le, 2);
}

proof fn lemma_le_2(b: Seq<u8>)
    requires
        b.len() == 2,
    ensures
        le(b) == b[0] + 0x100 * b[1],
{
    lemma_le_1(b.skip(1));
}

proof fn lemma_le_4(b: Seq<u8>)
    requires
        b.len() == 4,
    ensures
        le(b) == b[0] + 0x100 * b[1] + 0x1_0000 * b[2] + 0x100_0000 * b[3],
{
    let c = b.skip(1).skip(1);
    lemma_le_2(c);
    assert(le(b.skip(1)) == b[1] + 256 * le(c));
}

proof fn lemma_le_8(b: Seq<u8>)
    requires
        b.len() == 8,
    ensures
        le(b) == b[0] + 0x100 * b[1] + 0x1_0000 * b[2] + 0x100_0000 * b[3] + 0x1_0000_0000 * b[4]
            + 0x100_0000_0000 * b[5] + 0x1_0000_0000_0000 * b[6] + 0x100_0000_0000_0000 * b[7],
{
    let c1 = b.skip(1);
    let c2 = c1.skip(1);
    let c3 = c2.skip(1);
    let c4 = c3.skip(1);
    lemma_le_4(c4);
    assert(le(c3) == b[3] + 256 * le(c4));
    assert(le(c2) == b[2] + 256 * le(c3));
    assert(le(c1) == b[1] + 256 * le(c2));
}

/// Reads a byte.
pub fn rd_u8(r: &mut ByteSource<'_>, fs: u64) -> (res: Result<u8, LoadError>)
    ensures
        read_gave(*old(r), *final(r), u8_at(old(r).data@, fs as int, old(r).at as int), res),
        res is Err ==> final(r).at == old(r).at,
{
    match read_checked(r, 1, fs) {
        Ok(b) => Ok(b[0]),
        Err(e) => Err(e),
    }
}

/// Reads a number of two bytes.
pub fn rd_u16(r: &mut ByteSource<'_>, fs: u64) -> (res: Result<u16, LoadError>)
    ensures
        read_gave(*old(r), *final(r), u16_at(old(r).data@, fs as int, old(r).at as int), res),
        res is Err ==> final(r).at == old(r).at,
{
    match read_checked(r, 2, fs) {
        Ok(b) => {
            proof {
                lemma_le_2(b@);
            }
            Ok(b[0] as u16 + b[1] as u16 * 0x100)
        },
        Err(e) => Err(e),
    }
}

/// Reads a number of four bytes.
pub fn rd_u32(r: &mut ByteSource<'_>, fs: u64) -> (res: Result<u32, LoadError>)
    ensures
        read_gave(*old(r), *final(r), u32_at(old(r).data@, fs as int, old(r).at as int), res),
        res is Err ==> final(r).at == old(r).at,
{
    match read_checked(r, 4, fs) {
        Ok(b) => {
            proof {
                lemma_le_4(b@);
            }
            Ok(
                b[0] as u32 + b[1] as u32 * 0x100 + b[2] as u32 * 0x1_0000 + b[3] as u32
                    * 0x100_0000,
            )
        },
        Err(e) => Err(e),
    }
}

/// Reads a number of eight bytes.
pub fn rd_u64(r: &mut ByteSource<'_>, fs: u64) -> (res: Result<u64, LoadError>)
    ensures
        read_gave(*old(r), *final(r), u64_at(old(r).data@, fs as int, old(r).at as int), res),
        res is Err ==> final(r).at == old(r).at,
{
    match read_checked(r, 8, fs) {
        Ok(b) => {
            proof {
                lemma_le_8(b@);
            }
            Ok(
                b[0] as u64 + b[1] as u64 * 0x100 + b[2] as u64 * 0x1_0000 + b[3] as u64
                    * 0x100_0000 + b[4] as u64 * 0x1_0000_0000 + b[5] as u64 * 0x100_0000_0000
                    + b[6] as u64 * 0x1_0000_0000_0000 + b[7] as u64 * 0x100_0000_0000_0000,
            )
        },
        Err(e) => Err(e),
    }
}

/// The string at the position, with what is not UTF-8 replaced. A refused one leaves the position
/// behind its length, or where it was if the length could not be read.
pub fn rd_string(r: &mut ByteSource<'_>, fs: u64) -> (res: Result<String, LoadError>)
    ensures
        read_gave(*old(r), *final(r), string_at(old(r).data@, fs as int, old(r).at as int), res),
        res is Err ==> final(r).at == match u64_at(old(r).data@, fs as int, old(r).at as int) {
            Ok((_, p)) => p,
            Err(_) => old(r).at as int,
        },
{
    let at: u64 = pos(r);
    let len: u64 = match rd_u64(r, fs) {
        Ok(n) => n,
        Err(e) => {
            return Err(e);
        },
    };
    if len > fs {
        let mut m = String::from_str("string length ");
        push_dec(&mut m, len);
        m.append(" at offset ");
        push_dec(&mut m, at);
        m.append(" exceeds file size ");
        push_dec(&mut m, fs);
        return Err(LoadError::corrupt(m));
    }
    match read_checked(r, len, fs) {
        Ok(b) => Ok(lossy(b)),
        Err(e) => Err(e),
    }
}

} // verus!
