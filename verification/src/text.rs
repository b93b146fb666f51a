//! Text: characters in and out of strings, comparison, and numbers in decimal and hexadecimal.

use vstd::prelude::*;
use vstd::utf8::{encode_utf8, encode_utf8_decode_utf8};

verus! {

/// `String::push` of std appends the given character to the end of the string.
pub assume_specification[ std::string::String::push ](s: &mut std::string::String, ch: char)
    ensures
        final(s)@ == old(s)@.push(ch),
;

/// The decimal digit of value `d`.
pub open spec fn digit(d: nat) -> char {
    (48 + d) as char
}

/// The decimal numeral of `n`, without leading zeros.
pub open spec fn dec(n: nat) -> Seq<char>
    decreases n,
{
    if n < 10 {
        seq![digit(n)]
    } else {
        dec(n / 10).push(digit(n % 10))
    }
}

/// The numeral of `n` with a minus sign where it is negative.
pub open spec fn signed_dec(n: int) -> Seq<char> {
    if n < 0 {
        seq!['-'] + dec((-n) as nat)
    } else {
        dec(n as nat)
    }
}

/// Appends the decimal numeral of `n`.
pub fn push_dec(s: &mut String, n: u64)
    ensures
        final(s)@ == old(s)@ + dec(n as nat),
    decreases n,
{
    if n < 10 {
        s.push((48 + n as u8) as char);
    } else {
        push_dec(s, n / 10);
        s.push((48 + (n % 10) as u8) as char);
    }
}

/// Appends the numeral of `n`, with its sign where it is negative.
pub fn push_signed_dec(s: &mut String, n: i64)
    ensures
        final(s)@ == old(s)@ + signed_dec(n as int),
{
    if n < 0 {
        s.push('-');
        if n == i64::MIN {
            push_dec(s, 9223372036854775808u64);
        } else {
            push_dec(s, (-n) as u64);
        }
    } else {
        push_dec(s, n as u64);
    }
}

/// The upper-case hexadecimal digit of value `d`.
pub open spec fn hex_digit(d: nat) -> char {
    if d < 10 {
        (48 + d) as char
    } else {
        (55 + d) as char
    }
}

/// The two hexadecimal digits of a byte.
pub open spec fn hex_byte(b: u8) -> Seq<char> {
    seq![hex_digit((b / 16) as nat), hex_digit((b % 16) as nat)]
}

fn hex_char(d: u8) -> (c: char)
    requires
        d < 16,
    ensures
        c == hex_digit(d as nat),
{
    if d < 10 {
        (48 + d) as char
    } else {
        (55 + d) as char
    }
}

/// Appends the two hexadecimal digits of `b`.
pub fn push_hex(s: &mut String, b: u8)
    ensures
        final(s)@ == old(s)@ + hex_byte(b),
{
    s.push(hex_char(b / 16));
    s.push(hex_char(b % 16));
}

/// Whether two texts are the same, character for character.
pub fn same(a: &str, b: &str) -> (res: bool)
    ensures
        res == (a@ == b@),
{
    let x = a.as_bytes();
    let y = b.as_bytes();
    proof {
        encode_utf8_decode_utf8(a@);
        encode_utf8_decode_utf8(b@);
    }
    if x.len() != y.len() {
        return false;
    }
    let mut i: usize = 0;
    while i < x.len()
        invariant
            i <= x@.len(),
            x@ == encode_utf8(a@),
            y@ == encode_utf8(b@),
            x@.len() == y@.len(),
            forall|j: int| 0 <= j < i ==> x@[j] == y@[j],
        decreases x@.len() - i,
    {
        if x[i] != y[i] {
            return false;
        }
        i += 1;
    }
    proof {
        assert(x@ =~= y@);
    }
    true
}

/// The characters of a text.
pub fn chars_of(s: &str) -> (res: Vec<char>)
    ensures
        res@ == s@,
{
    let mut res: Vec<char> = Vec::new();
    for c in it: s.chars()
        invariant
            it.seq() == s@,
            res@ == s@.take(it.index() as int),
    {
        res.push(c);
    }
    res
}

/// The text made of the given characters.
pub fn string_of(cs: &[char]) -> (res: String)
    ensures
        res@ == cs@,
{
    let mut res = String::new();
    let mut i: usize = 0;
    while i < cs.len()
        invariant
            i <= cs@.len(),
            res@ == cs@.take(i as int),
        decreases cs@.len() - i,
    {
        res.push(cs[i]);
        proof {
            assert(cs@.take(i as int).push(cs@[i as int]) =~= cs@.take(i + 1));
        }
        i += 1;
    }
    proof {
        assert(cs@.take(cs@.len() as int) =~= cs@);
    }
    res
}

/// A decimal digit of ASCII.
pub open spec fn is_digit(c: char) -> bool {
    '0' <= c && c <= '9'
}

/// Every character is a decimal digit.
pub open spec fn all_digits(s: Seq<char>) -> bool {
    forall|i: int| 0 <= i < s.len() ==> is_digit(#[trigger] s[i])
}

/// The number that digits stand for.
pub open spec fn value_of(s: Seq<char>) -> nat
    decreases s.len(),
{
    if s.len() == 0 {
        0
    } else {
        value_of(s.drop_last()) * 10 + ((s.last() as int) - 48) as nat
    }
}

/// The digits of a numeral: what is left without a leading plus sign.
pub open spec fn digits_of(s: Seq<char>) -> Seq<char> {
    if s.len() > 0 && s[0] == '+' {
        s.skip(1)
    } else {
        s
    }
}

/// Why a text is no numeral of a bounded number.
#[derive(Debug, Clone, Copy, PartialEq, Eq, Structural)]
pub enum NumberError {
    /// There is nothing.
    Empty,
    /// A character is no digit, or there is only a sign.
    NotADigit,
    /// The number is greater than the greatest that is allowed.
    TooLarge,
}

/// The number that characters stand for, read from the front, up to the first that is no digit or
/// that takes the number above `max`.
pub open spec fn scanned(s: Seq<char>, max: nat) -> Result<nat, NumberError>
    decreases s.len(),
{
    if s.len() == 0 {
        Ok(0)
    } else {
        match scanned(s.drop_last(), max) {
            Err(e) => Err(e),
            Ok(n) => if !is_digit(s.last()) {
                Err(NumberError::NotADigit)
            } else if n * 10 + ((s.last() as int) - 48) > max {
                Err(NumberError::TooLarge)
            } else {
                Ok(n * 10 + ((s.last() as int) - 48) as nat)
            },
        }
    }
}

/// The number that a text stands for, if it is at most `max`: decimal digits, with a plus sign
/// before them or without.
pub open spec fn number_of(s: Seq<char>, max: nat) -> Result<nat, NumberError> {
    if s.len() == 0 {
        Err(NumberError::Empty)
    } else if digits_of(s).len() == 0 {
        Err(NumberError::NotADigit)
    } else {
        scanned(digits_of(s), max)
    }
}

/// What is read as a number is exactly the digits whose number is small enough, and the number is
/// theirs.
pub proof fn law_scanned_is_value(s: Seq<char>, max: nat)
    ensures
        scanned(s, max) is Ok <==> all_digits(s) && value_of(s) <= max,
        scanned(s, max) is Ok ==> scanned(s, max)->Ok_0 == value_of(s),
    decreases s.len(),
{
    if s.len() > 0 {
        let front = s.drop_last();
        law_scanned_is_value(front, max);
        assert(all_digits(s) <==> all_digits(front) && is_digit(s.last())) by {
            if all_digits(s) {
                assert forall|i: int| 0 <= i < front.len() implies is_digit(#[trigger] front[i]) by {
                    assert(is_digit(s[i]));
                }
                assert(is_digit(s[s.len() - 1]));
            }
            if all_digits(front) && is_digit(s.last()) {
                assert forall|i: int| 0 <= i < s.len() implies is_digit(#[trigger] s[i]) by {
                    if i < s.len() - 1 {
                        assert(is_digit(front[i]));
                    }
                }
            }
        }
    }
}

proof fn lemma_scan_stops(s: Seq<char>, max: nat, k: int)
    requires
        0 <= k <= s.len(),
        scanned(s.take(k), max) is Err,
    ensures
        scanned(s, max) == scanned(s.take(k), max),
    decreases s.len(),
{
    if k == s.len() {
        assert(s.take(k) =~= s);
    } else {
        assert(s.drop_last().take(k) =~= s.take(k));
        lemma_scan_stops(s.drop_last(), max, k);
    }
}

/// Reads the number that a text stands for.
pub fn read_number(s: &[char], max: u64) -> (res: Result<u64, NumberError>)
    ensures
        match number_of(s@, max as nat) {
            Ok(n) => res is Ok && res->Ok_0 == n,
            Err(e) => res is Err && res->Err_0 == e,
        },
{
    if s.len() == 0 {
        return Err(NumberError::Empty);
    }
    let start: usize = if s[0] == '+' {
        1
    } else {
        0
    };
    let ghost d = digits_of(s@);
    proof {
        assert(d =~= s@.skip(start as int));
    }
    if start == s.len() {
        return Err(NumberError::NotADigit);
    }
    let mut n: u64 = 0;
    let mut i: usize = start;
    proof {
        assert(d.take(0) =~= Seq::<char>::empty());
    }
    while i < s.len()
        invariant
            start <= i <= s@.len(),
            s@.len() > 0,
            d == digits_of(s@),
            d.len() > 0,
            d == s@.skip(start as int),
            scanned(d.take(i - start), max as nat) == Ok::<nat, NumberError>(n as nat),
            n <= max,
        decreases s@.len() - i,
    {
        let ghost k = i - start;
        let c = s[i];
        proof {
            assert(d[k] == c);
            assert(d.take(k + 1).drop_last() =~= d.take(k));
            assert(d.take(k + 1).last() == d[k]);
            if scanned(d.take(k + 1), max as nat) is Err {
                lemma_scan_stops(d, max as nat, k + 1);
            }
        }
        if !('0' <= c && c <= '9') {
            return Err(NumberError::NotADigit);
        }
        let digit: u64 = (c as u32 - 48) as u64;
        let next = match n.checked_mul(10) {
            Some(m) => m.checked_add(digit),
            None => None,
        };
        match next {
            Some(m) => {
                if m > max {
                    return Err(NumberError::TooLarge);
                }
                n = m;
            },
            None => {
                return Err(NumberError::TooLarge);
            },
        }
        i += 1;
    }
    proof {
        assert(d.take(i - start) =~= d);
    }
    Ok(n)
}

/// White space, as Unicode lists it.
pub open spec fn is_white(c: char) -> bool {
    ||| '\u{9}' <= c <= '\u{D}'
    ||| c == '\u{20}'
    ||| c == '\u{85}'
    ||| c == '\u{A0}'
    ||| c == '\u{1680}'
    ||| '\u{2000}' <= c <= '\u{200A}'
    ||| c == '\u{2028}'
    ||| c == '\u{2029}'
    ||| c == '\u{202F}'
    ||| c == '\u{205F}'
    ||| c == '\u{3000}'
}

/// Whether a character is white space.
pub fn white(c: char) -> (res: bool)
    ensures
        res == is_white(c),
{
    ('\u{9}' <= c && c <= '\u{D}') || c == '\u{20}' || c == '\u{85}' || c == '\u{A0}' || c
        == '\u{1680}' || ('\u{2000}' <= c && c <= '\u{200A}') || c == '\u{2028}' || c == '\u{2029}'
        || c == '\u{202F}' || c == '\u{205F}' || c == '\u{3000}'
}

/// A text without the white space at its front.
pub open spec fn trimmed_front(s: Seq<char>) -> Seq<char>
    decreases s.len(),
{
    if s.len() > 0 && is_white(s[0]) {
        trimmed_front(s.skip(1))
    } else {
        s
    }
}

/// A text without the white space at its back.
pub open spec fn trimmed_back(s: Seq<char>) -> Seq<char>
    decreases s.len(),
{
    if s.len() > 0 && is_white(s.last()) {
        trimmed_back(s.drop_last())
    } else {
        s
    }
}

/// A text without the white space at both ends.
pub open spec fn trimmed(s: Seq<char>) -> Seq<char> {
    trimmed_back(trimmed_front(s))
}

/// A text without the white space at both ends.
pub fn trim(s: &[char]) -> (res: &[char])
    ensures
        res@ == trimmed(s@),
{
    let n: usize = s.len();
    let mut a: usize = 0;
    proof {
        assert(s@.skip(0) =~= s@);
    }
    while a < n && white(s[a])
        invariant
            n == s@.len(),
            a <= n,
            trimmed_front(s@) == trimmed_front(s@.skip(a as int)),
        decreases n - a,
    {
        proof {
            assert(s@.skip(a as int).skip(1) =~= s@.skip(a + 1));
            assert(s@.skip(a as int)[0] == s@[a as int]);
        }
        a += 1;
    }
    let ghost front = s@.skip(a as int);
    proof {
        assert(a < n ==> front[0] == s@[a as int]);
        assert(trimmed_front(s@) == front);
        assert(s@.subrange(a as int, n as int) =~= front);
    }
    let mut b: usize = n;
    while b > a && white(s[b - 1])
        invariant
            n == s@.len(),
            a <= b <= n,
            front == s@.skip(a as int),
            trimmed_back(front) == trimmed_back(s@.subrange(a as int, b as int)),
        decreases b,
    {
        proof {
            assert(s@.subrange(a as int, b as int).last() == s@[b - 1]);
            assert(s@.subrange(a as int, b as int).drop_last() =~= s@.subrange(a as int, b - 1));
        }
        b -= 1;
    }
    proof {
        assert(b > a ==> s@.subrange(a as int, b as int).last() == s@[b - 1]);
    }
    vstd::slice::slice_subrange(s, a, b)
}

/// The parts of a text between separators; one more than there are separators.
pub open spec fn fields(s: Seq<char>, sep: char) -> Seq<Seq<char>>
    decreases s.len(),
{
    if s.len() == 0 {
        seq![Seq::empty()]
    } else {
        let front = fields(s.drop_last(), sep);
        if s.last() == sep {
            front.push(Seq::empty())
        } else {
            front.drop_last().push(front.last().push(s.last()))
        }
    }
}

/// The words of a text: the longest stretches without white space.
pub open spec fn words(s: Seq<char>) -> Seq<Seq<char>>
    decreases s.len(),
{
    if s.len() == 0 {
        Seq::empty()
    } else {
        let front = words(s.drop_last());
        if is_white(s.last()) {
            front
        } else if s.len() == 1 || is_white(s[s.len() - 2]) {
            front.push(seq![s.last()])
        } else {
            front.drop_last().push(front.last().push(s.last()))
        }
    }
}

/// Lists of characters as texts.
pub open spec fn char_lists(v: Seq<Vec<char>>) -> Seq<Seq<char>> {
    v.map_values(|x: Vec<char>| x@)
}

/// Adds a character to the last list.
fn push_to_last(v: &mut Vec<Vec<char>>, c: char)
    requires
        old(v)@.len() > 0,
    ensures
        final(v)@.len() == old(v)@.len(),
        char_lists(final(v)@) == char_lists(old(v)@).drop_last().push(
            char_lists(old(v)@).last().push(c),
        ),
{
    let last: usize = v.len() - 1;
    let ghost before = v@;
    v[last].push(c);
    proof {
        assert(char_lists(v@) =~= char_lists(before).drop_last().push(
            char_lists(before).last().push(c),
        ));
    }
}

/// Parts a text at separators.
pub fn split_fields(s: &[char], sep: char) -> (res: Vec<Vec<char>>)
    ensures
        char_lists(res@) == fields(s@, sep),
        res@.len() > 0,
{
    let mut v: Vec<Vec<char>> = Vec::new();
    v.push(Vec::new());
    let mut i: usize = 0;
    proof {
        assert(s@.take(0) =~= Seq::<char>::empty());
        assert(v@[0]@ =~= Seq::<char>::empty());
        assert(char_lists(v@) =~= seq![Seq::<char>::empty()]);
    }
    while i < s.len()
        invariant
            i <= s@.len(),
            v@.len() > 0,
            char_lists(v@) == fields(s@.take(i as int), sep),
        decreases s@.len() - i,
    {
        let c = s[i];
        let ghost before = v@;
        proof {
            assert(s@.take(i + 1).drop_last() =~= s@.take(i as int));
            assert(s@.take(i + 1).last() == c);
        }
        if c == sep {
            v.push(Vec::new());
            proof {
                assert(v@.last()@ =~= Seq::<char>::empty());
                assert(char_lists(v@) =~= char_lists(before).push(Seq::empty()));
            }
        } else {
            push_to_last(&mut v, c);
        }
        i += 1;
    }
    proof {
        assert(s@.take(i as int) =~= s@);
    }
    v
}

/// Parts a text into words.
pub fn split_words_at_white(s: &[char]) -> (res: Vec<Vec<char>>)
    ensures
        char_lists(res@) == words(s@),
{
    let mut v: Vec<Vec<char>> = Vec::new();
    let mut inside = false;
    let mut i: usize = 0;
    proof {
        assert(s@.take(0) =~= Seq::<char>::empty());
        assert(char_lists(v@) =~= Seq::<Seq<char>>::empty());
    }
    while i < s.len()
        invariant
            i <= s@.len(),
            inside == (i > 0 && !is_white(s@[i - 1])),
            inside ==> v@.len() > 0,
            char_lists(v@) == words(s@.take(i as int)),
        decreases s@.len() - i,
    {
        let c = s[i];
        let ghost before = v@;
        proof {
            assert(s@.take(i + 1).drop_last() =~= s@.take(i as int));
            assert(s@.take(i + 1).last() == c);
            assert(i > 0 ==> s@.take(i + 1)[i - 1] == s@[i - 1]);
        }
        if white(c) {
            inside = false;
        } else if inside {
            push_to_last(&mut v, c);
        } else {
            let mut w: Vec<char> = Vec::new();
            w.push(c);
            v.push(w);
            proof {
                assert(w@ =~= seq![c]);
                assert(char_lists(v@) =~= char_lists(before).push(seq![c]));
            }
            inside = true;
        }
        i += 1;
    }
    proof {
        assert(s@.take(i as int) =~= s@);
    }
    v
}

/// The bytes that a text takes.
pub open spec fn utf8_len(s: Seq<char>) -> int {
    encode_utf8(s).len() as int
}

proof fn lemma_dec_value(n: nat)
    ensures
        dec(n).len() > 0,
        all_digits(dec(n)),
        value_of(dec(n)) == n,
    decreases n,
{
    if n < 10 {
        let s = dec(n);
        assert(s.drop_last() =~= Seq::<char>::empty());
        assert(value_of(s.drop_last()) == 0);
        assert(s.last() as int == 48 + n);
    } else {
        lemma_dec_value(n / 10);
        let s = dec(n);
        assert(s.drop_last() =~= dec(n / 10));
        assert(s.last() as int == 48 + n % 10);
        assert forall|i: int| 0 <= i < s.len() implies is_digit(#[trigger] s[i]) by {
            if i < s.len() - 1 {
                assert(s[i] == dec(n / 10)[i]);
            }
        }
    }
}

/// A number that is written in digits is read back, where it is small enough.
pub proof fn law_numerals_are_read_back(n: nat, max: nat)
    ensures
        n <= max ==> number_of(dec(n), max) == Ok::<nat, NumberError>(n),
        n > max ==> number_of(dec(n), max) is Err,
{
    lemma_dec_value(n);
    law_scanned_is_value(dec(n), max);
    assert(is_digit(dec(n)[0]));
    assert(digits_of(dec(n)) == dec(n));
}

/// Trimming takes white space from both ends and nothing else: what is left is a stretch of the
/// text with only white space before and behind it, and it neither begins nor ends with any.
pub proof fn law_trimming_leaves_the_middle(s: Seq<char>)
    ensures
        exists|a: Seq<char>, b: Seq<char>|
            {
                &&& s == a + trimmed(s) + b
                &&& #[trigger] all_white(a)
                &&& #[trigger] all_white(b)
            },
        trimmed(s).len() > 0 ==> !is_white(trimmed(s)[0]) && !is_white(trimmed(s).last()),
{
    let a = lemma_front(s);
    let m = trimmed_front(s);
    let b = lemma_back(m);
    assert(s =~= a + trimmed(s) + b);
    if trimmed(s).len() > 0 {
        assert(trimmed(s)[0] == m[0]);
    }
}

/// Every character is white space.
pub open spec fn all_white(s: Seq<char>) -> bool {
    forall|i: int| 0 <= i < s.len() ==> is_white(#[trigger] s[i])
}

proof fn lemma_front(s: Seq<char>) -> (a: Seq<char>)
    ensures
        s == a + trimmed_front(s),
        all_white(a),
        trimmed_front(s).len() > 0 ==> !is_white(trimmed_front(s)[0]),
    decreases s.len(),
{
    if s.len() > 0 && is_white(s[0]) {
        let rest = lemma_front(s.skip(1));
        let a = seq![s[0]] + rest;
        let t = trimmed_front(s);
        assert(s.skip(1) == rest + t);
        assert(s =~= seq![s[0]] + s.skip(1));
        assert(seq![s[0]] + (rest + t) =~= a + t);
        a
    } else {
        assert(s =~= Seq::<char>::empty() + s);
        Seq::empty()
    }
}

proof fn lemma_back(s: Seq<char>) -> (b: Seq<char>)
    ensures
        s == trimmed_back(s) + b,
        all_white(b),
        trimmed_back(s).len() > 0 ==> !is_white(trimmed_back(s).last()),
    decreases s.len(),
{
    if s.len() > 0 && is_white(s.last()) {
        let rest = lemma_back(s.drop_last());
        let b = rest.push(s.last());
        let t = trimmed_back(s);
        assert(s.drop_last() == t + rest);
        assert(s =~= s.drop_last().push(s.last()));
        assert((t + rest).push(s.last()) =~= t + b);
        b
    } else {
        assert(s =~= s + Seq::<char>::empty());
        Seq::empty()
    }
}

} // verus!
