//! Bytes as letters: every byte has a printable character that stands for it in the vocabulary.

use vstd::prelude::*;

verus! {

/// `std::char::from_u32` of std gives the character with a code, and `None` for a number that is
/// no Unicode scalar value: one above U+10FFFF or a surrogate.
pub assume_specification[ std::char::from_u32 ](i: u32) -> (res: Option<char>)
    ensures
        res == (if i <= 0xD7FF || (0xE000 <= i && i <= 0x10FFFF) {
            Some(i as char)
        } else {
            None::<char>
        }),
;

/// Bytes that stand for themselves: the printable ones of Latin-1.
pub open spec fn kept(b: int) -> bool {
    33 <= b <= 126 || 161 <= b <= 172 || 174 <= b <= 255
}

/// How many bytes below `b` do not stand for themselves.
pub open spec fn gaps_below(b: int) -> int
    decreases b,
{
    if b <= 0 {
        0
    } else if kept(b - 1) {
        gaps_below(b - 1)
    } else {
        gaps_below(b - 1) + 1
    }
}

/// The letter of a byte: its own character where it is printable, else the next character from
/// U+0100 on, in ascending order of the bytes.
pub open spec fn letter_of(b: u8) -> char {
    if kept(b as int) {
        b as char
    } else {
        (256 + gaps_below(b as int)) as char
    }
}

/// The byte that a letter stands for.
pub open spec fn byte_of(c: char) -> Option<u8> {
    if exists|b: u8| letter_of(b) == c {
        Some(choose|b: u8| letter_of(b) == c)
    } else {
        None
    }
}

/// The letters of bytes.
pub open spec fn letters(bytes: Seq<u8>) -> Seq<char> {
    bytes.map_values(|b: u8| letter_of(b))
}

proof fn lemma_gaps_grow(a: int, b: int)
    requires
        0 <= a < b <= 256,
    ensures
        gaps_below(a) <= gaps_below(b),
        !kept(a) ==> gaps_below(a) < gaps_below(b),
        0 <= gaps_below(a) <= a,
        gaps_below(b) <= b,
    decreases b,
{
    if a < b - 1 {
        lemma_gaps_grow(a, b - 1);
    } else if a > 0 {
        lemma_gaps_grow(a - 1, a);
    }
}

/// Different bytes have different letters.
pub proof fn law_letters_differ(a: u8, b: u8)
    requires
        a != b,
    ensures
        letter_of(a) != letter_of(b),
{
    if a < b {
        lemma_gaps_grow(a as int, b as int);
    } else {
        lemma_gaps_grow(b as int, a as int);
    }
    lemma_letter_range(a);
    lemma_letter_range(b);
}

proof fn lemma_letter_range(b: u8)
    ensures
        kept(b as int) ==> letter_of(b) as int == b,
        !kept(b as int) ==> letter_of(b) as int == 256 + gaps_below(b as int),
        0 <= gaps_below(b as int) <= b,
        letter_of(b) as int <= 511,
        letter_of(b) != ' ',
{
    if b > 0 {
        lemma_gaps_grow(b - 1, b as int);
    }
}

/// A letter leads back to its byte, and no letter is a space.
pub proof fn law_letter_leads_back(b: u8)
    ensures
        byte_of(letter_of(b)) == Some(b),
        letter_of(b) != ' ',
{
    lemma_letter_range(b);
    let c = choose|c: u8| letter_of(c) == letter_of(b);
    if c != b {
        law_letters_differ(b, c);
    }
}

/// The byte of a letter has that letter.
pub proof fn law_byte_leads_back(c: char)
    ensures
        byte_of(c) matches Some(b) ==> letter_of(b) == c,
{
}

/// The table in both directions.
pub struct ByteTable {
    letters: Vec<char>,
    /// The byte of each character below U+0200 that is a letter.
    bytes: Vec<Option<u8>>,
}

impl ByteTable {
    /// Both directions hold what the table says.
    pub closed spec fn wf(&self) -> bool {
        &&& self.letters@.len() == 256
        &&& forall|b: u8| self.letters@[b as int] == #[trigger] letter_of(b)
        &&& self.bytes@.len() == 512
        &&& forall|c: char| 0 <= (c as int) < 512 ==> self.bytes@[c as int] == #[trigger] byte_of(c)
    }

    /// The letter of a byte.
    pub fn letter(&self, b: u8) -> (res: char)
        requires
            self.wf(),
        ensures
            res == letter_of(b),
    {
        self.letters[b as usize]
    }

    /// The byte of a letter.
    pub fn byte(&self, c: char) -> (res: Option<u8>)
        requires
            self.wf(),
        ensures
            res == byte_of(c),
    {
        let n: u32 = c as u32;
        if n < 512 {
            self.bytes[n as usize]
        } else {
            proof {
                if byte_of(c) is Some {
                    let b = choose|b: u8| letter_of(b) == c;
                    lemma_letter_range(b);
                }
            }
            None
        }
    }

    /// The letters of bytes.
    pub fn translate(&self, bytes: &[u8]) -> (res: Vec<char>)
        requires
            self.wf(),
        ensures
            res@ == letters(bytes@),
    {
        let mut res: Vec<char> = Vec::new();
        let mut i: usize = 0;
        while i < bytes.len()
            invariant
                self.wf(),
                i <= bytes@.len(),
                res@ == letters(bytes@.take(i as int)),
            decreases bytes@.len() - i,
        {
            res.push(self.letter(bytes[i]));
            proof {
                assert(res@ =~= letters(bytes@.take(i + 1)));
            }
            i += 1;
        }
        proof {
            assert(bytes@.take(i as int) =~= bytes@);
        }
        res
    }
}

/// Builds the table.
pub fn byte_to_unicode() -> (res: ByteTable)
    ensures
        res.wf(),
{
    let mut letters: Vec<char> = Vec::new();
    let mut bytes: Vec<Option<u8>> = Vec::new();
    let mut k: u32 = 0;
    while k < 512
        invariant
            k <= 512,
            bytes@.len() == k,
            forall|i: int| 0 <= i < k ==> bytes@[i] is None,
        decreases 512 - k,
    {
        bytes.push(None);
        k += 1;
    }
    let mut n: u32 = 0;
    let mut b: u32 = 0;
    while b < 256
        invariant
            b <= 256,
            n == gaps_below(b as int),
            n <= b,
            letters@.len() == b,
            bytes@.len() == 512,
            forall|i: u8| i < b ==> letters@[i as int] == #[trigger] letter_of(i),
            forall|i: u8| i < b ==> bytes@[#[trigger] letter_of(i) as int] == Some(i),
            forall|j: int|
                0 <= j < 512 && (#[trigger] bytes@[j]) is Some ==> bytes@[j]->0 < b && letter_of(
                    bytes@[j]->0,
                ) as int == j,
        decreases 256 - b,
    {
        let code: u32 = if (33 <= b && b <= 126) || (161 <= b && b <= 172) || (174 <= b && b <= 255) {
            b
        } else {
            let code: u32 = 256 + n;
            n += 1;
            code
        };
        let byte: u8 = b as u8;
        proof {
            lemma_letter_range(byte);
            assert(code == letter_of(byte) as int);
            assert forall|i: u8| i < b implies #[trigger] letter_of(i) as int != code by {
                law_letters_differ(i, byte);
            }
            assert forall|i: u8| #[trigger] letter_of(i) as int <= 511 by {
                lemma_letter_range(i);
            }
        }
        if let Some(c) = std::char::from_u32(code) {
            letters.push(c);
        }
        bytes.set(code as usize, Some(byte));
        b += 1;
    }
    proof {
        assert forall|c: char| 0 <= (c as int) < 512 implies bytes@[c as int] == #[trigger] byte_of(c) by {
            if byte_of(c) is Some {
                let i = choose|i: u8| letter_of(i) == c;
                assert(bytes@[letter_of(i) as int] == Some(i));
            } else if bytes@[c as int] is Some {
                assert(letter_of(bytes@[c as int]->0) as int == c as int);
                assert(letter_of(bytes@[c as int]->0) == c);
            }
        }
    }
    ByteTable { letters, bytes }
}

/// The letters by their numbers: a printable byte of Latin-1 is its own letter, and the others are
/// numbered on from 256: those up to the space, those from 127 to 160, and the soft hyphen.
pub proof fn law_letters_by_number(b: u8)
    ensures
        33 <= b <= 126 || 161 <= b <= 172 || 174 <= b ==> letter_of(b) as int == b,
        b <= 32 ==> letter_of(b) as int == 256 + b,
        127 <= b <= 160 ==> letter_of(b) as int == 256 + 33 + (b - 127),
        b == 173 ==> letter_of(b) as int == 256 + 33 + 34,
{
    lemma_letter_range(b);
    lemma_gaps_counted(b as int);
}

proof fn lemma_gaps_counted(b: int)
    requires
        0 <= b <= 255,
    ensures
        b <= 33 ==> gaps_below(b) == b,
        33 <= b <= 127 ==> gaps_below(b) == 33,
        127 <= b <= 161 ==> gaps_below(b) == 33 + (b - 127),
        161 <= b <= 173 ==> gaps_below(b) == 67,
        174 <= b ==> gaps_below(b) == 68,
    decreases b,
{
    if b > 0 {
        lemma_gaps_counted(b - 1);
    }
}

} // verus!
