//! The budget of controlled memory: reading one from text, and keeping accounts against it.
//!
//! The budget bounds what the runtime holds resident on purpose: materialised weights, caches,
//! scratch and overhead. The mapped file does not count against it.

use vstd::prelude::*;

use crate::gguf::value::{debug_text, quoted};
use crate::text::{
    all_digits, chars_of, dec, is_digit, is_white, law_numerals_are_read_back, number_of,
    read_number, string_of, trim, trimmed,
};

verus! {

/// Why a text is no size.
#[derive(Debug, PartialEq, Eq)]
pub enum ParseSizeError {
    Empty,
    Zero,
    UnknownSuffix(String),
    Overflow,
    NotANumber,
}

/// What a [`ParseSizeError`] says.
pub enum SizeFault {
    Empty,
    Zero,
    UnknownSuffix(Seq<char>),
    Overflow,
    NotANumber,
}

impl View for ParseSizeError {
    type V = SizeFault;

    open spec fn view(&self) -> SizeFault {
        match *self {
            ParseSizeError::Empty => SizeFault::Empty,
            ParseSizeError::Zero => SizeFault::Zero,
            ParseSizeError::UnknownSuffix(s) => SizeFault::UnknownSuffix(s@),
            ParseSizeError::Overflow => SizeFault::Overflow,
            ParseSizeError::NotANumber => SizeFault::NotANumber,
        }
    }
}

impl SizeFault {
    /// The words that report the fault.
    pub open spec fn message(self) -> Seq<char> {
        match self {
            SizeFault::Empty => "vacío"@,
            SizeFault::Zero => "cero — el presupuesto debe ser > 0"@,
            SizeFault::UnknownSuffix(s) => "sufijo "@ + quoted(s)
                + " desconocido (válidos: K/KB, M/MB, G/GB, T/TB, o bytes sin sufijo)"@,
            SizeFault::Overflow => "desborda u64"@,
            SizeFault::NotANumber => "no es un número"@,
        }
    }
}

impl ParseSizeError {
    /// The words that report the error.
    pub fn message(&self) -> (res: String)
        ensures
            res@ == self@.message(),
    {
        match self {
            ParseSizeError::Empty => String::from_str("vacío"),
            ParseSizeError::Zero => String::from_str("cero — el presupuesto debe ser > 0"),
            ParseSizeError::UnknownSuffix(s) => {
                let mut m = String::from_str("sufijo ");
                m.append(debug_text(s.as_str()).as_str());
                m.append(
                    " desconocido (válidos: K/KB, M/MB, G/GB, T/TB, o bytes sin sufijo)",
                );
                m
            },
            ParseSizeError::Overflow => String::from_str("desborda u64"),
            ParseSizeError::NotANumber => String::from_str("no es un número"),
        }
    }
}

/// What a unit letter multiplies by: a power of 1024.
pub open spec fn unit_of(c: char) -> Option<u64> {
    if c == 'K' || c == 'k' {
        Some(1024)
    } else if c == 'M' || c == 'm' {
        Some(1_048_576)
    } else if c == 'G' || c == 'g' {
        Some(1_073_741_824)
    } else if c == 'T' || c == 't' {
        Some(1_099_511_627_776)
    } else {
        None
    }
}

/// The number part and the factor of a text that ends in a unit: a unit letter, alone or with a
/// `B` behind it, in either case.
pub open spec fn suffixed(s: Seq<char>) -> Option<(Seq<char>, u64)> {
    let n = s.len();
    if n >= 2 && (s[n - 1] == 'B' || s[n - 1] == 'b') && unit_of(s[n - 2]) is Some {
        Some((s.take(n - 2), unit_of(s[n - 2])->0))
    } else if n >= 1 && unit_of(s[n - 1]) is Some {
        Some((s.take(n - 1), unit_of(s[n - 1])->0))
    } else {
        None
    }
}

/// A letter of ASCII.
pub open spec fn is_letter(c: char) -> bool {
    ('a' <= c && c <= 'z') || ('A' <= c && c <= 'Z')
}

/// Every character is a letter of ASCII.
pub open spec fn all_ascii_letters(s: Seq<char>) -> bool {
    forall|i: int| 0 <= i < s.len() ==> is_letter(#[trigger] s[i])
}

/// A text without the digits at its front.
pub open spec fn without_digits(s: Seq<char>) -> Seq<char>
    decreases s.len(),
{
    if s.len() > 0 && is_digit(s[0]) {
        without_digits(s.skip(1))
    } else {
        s
    }
}

/// The size of a number part with its factor.
pub open spec fn scaled(num: Seq<char>, factor: u64) -> Result<int, SizeFault> {
    match number_of(num, u64::MAX as nat) {
        Ok(n) => if n == 0 {
            Err(SizeFault::Zero)
        } else if n * factor > u64::MAX {
            Err(SizeFault::Overflow)
        } else {
            Ok(n * factor)
        },
        Err(_) => if num.len() > 0 && all_digits(num) {
            Err(SizeFault::Overflow)
        } else {
            Err(SizeFault::NotANumber)
        },
    }
}

/// The size in bytes that a text stands for.
pub open spec fn size_of(text: Seq<char>) -> Result<int, SizeFault> {
    let s = trimmed(text);
    if s.len() == 0 {
        Err(SizeFault::Empty)
    } else {
        match suffixed(s) {
            Some((num, factor)) => scaled(num, factor),
            None => if all_digits(s) {
                scaled(s, 1)
            } else {
                let tail = without_digits(s);
                if tail.len() > 0 && all_ascii_letters(tail) {
                    Err(SizeFault::UnknownSuffix(tail))
                } else {
                    Err(SizeFault::NotANumber)
                }
            },
        }
    }
}

fn unit(c: char) -> (res: Option<u64>)
    ensures
        res == unit_of(c),
{
    if c == 'K' || c == 'k' {
        Some(1024)
    } else if c == 'M' || c == 'm' {
        Some(1_048_576)
    } else if c == 'G' || c == 'g' {
        Some(1_073_741_824)
    } else if c == 'T' || c == 't' {
        Some(1_099_511_627_776)
    } else {
        None
    }
}

fn only_digits(s: &[char]) -> (res: bool)
    ensures
        res == all_digits(s@),
{
    let mut i: usize = 0;
    while i < s.len()
        invariant
            i <= s@.len(),
            forall|j: int| 0 <= j < i ==> is_digit(#[trigger] s@[j]),
        decreases s@.len() - i,
    {
        let c = s[i];
        if !('0' <= c && c <= '9') {
            proof {
                assert(!is_digit(s@[i as int]));
            }
            return false;
        }
        i += 1;
    }
    true
}

fn only_letters(s: &[char]) -> (res: bool)
    ensures
        res == all_ascii_letters(s@),
{
    let mut i: usize = 0;
    while i < s.len()
        invariant
            i <= s@.len(),
            forall|j: int| 0 <= j < i ==> is_letter(#[trigger] s@[j]),
        decreases s@.len() - i,
    {
        let c = s[i];
        if !(('a' <= c && c <= 'z') || ('A' <= c && c <= 'Z')) {
            proof {
                assert(!is_letter(s@[i as int]));
            }
            return false;
        }
        i += 1;
    }
    true
}

/// The number part and the factor of a text that ends in a unit.
pub fn strip_suffix_ci(s: &[char]) -> (res: Option<(&[char], u64)>)
    ensures
        match suffixed(s@) {
            Some((num, factor)) => res matches Some((n, f)) && n@ == num && f == factor,
            None => res is None,
        },
{
    let n: usize = s.len();
    if n >= 2 && (s[n - 1] == 'B' || s[n - 1] == 'b') {
        if let Some(f) = unit(s[n - 2]) {
            return Some((vstd::slice::slice_subrange(s, 0, n - 2), f));
        }
    }
    if n >= 1 {
        if let Some(f) = unit(s[n - 1]) {
            return Some((vstd::slice::slice_subrange(s, 0, n - 1), f));
        }
    }
    None
}

fn digits_stripped(s: &[char]) -> (res: &[char])
    ensures
        res@ == without_digits(s@),
{
    let n: usize = s.len();
    let mut a: usize = 0;
    proof {
        assert(s@.skip(0) =~= s@);
    }
    while a < n && '0' <= s[a] && s[a] <= '9'
        invariant
            n == s@.len(),
            a <= n,
            without_digits(s@) == without_digits(s@.skip(a as int)),
        decreases n - a,
    {
        proof {
            assert(s@.skip(a as int).skip(1) =~= s@.skip(a + 1));
            assert(s@.skip(a as int)[0] == s@[a as int]);
        }
        a += 1;
    }
    proof {
        assert(a < n ==> s@.skip(a as int)[0] == s@[a as int]);
        assert(s@.subrange(a as int, n as int) =~= s@.skip(a as int));
    }
    vstd::slice::slice_subrange(s, a, n)
}

fn scale(num: &[char], factor: u64) -> (res: Result<u64, ParseSizeError>)
    ensures
        match scaled(num@, factor) {
            Ok(n) => res is Ok && res->Ok_0 == n,
            Err(e) => res is Err && res->Err_0@ == e,
        },
{
    match read_number(num, u64::MAX) {
        Ok(n) => {
            if n == 0 {
                return Err(ParseSizeError::Zero);
            }
            match n.checked_mul(factor) {
                Some(bytes) => Ok(bytes),
                None => Err(ParseSizeError::Overflow),
            }
        },
        Err(_) => {
            if num.len() > 0 && only_digits(num) {
                Err(ParseSizeError::Overflow)
            } else {
                Err(ParseSizeError::NotANumber)
            }
        },
    }
}

/// Reads a size in bytes: a number with a unit (`512M`, `4GB`; powers of 1024, in either case) or
/// without one. White space around it does not count. A size is never zero.
pub fn parse_size(s: &str) -> (res: Result<u64, ParseSizeError>)
    ensures
        match size_of(s@) {
            Ok(n) => res is Ok && res->Ok_0 == n,
            Err(e) => res is Err && res->Err_0@ == e,
        },
        res matches Ok(n) ==> n > 0,
{
    let chars = chars_of(s);
    let t = trim(chars.as_slice());
    proof {
        assert(forall|n: int, f: u64| #![trigger n * f] n >= 1 && f >= 1 ==> n * f >= 1)
            by (nonlinear_arith);
    }
    if t.len() == 0 {
        return Err(ParseSizeError::Empty);
    }
    match strip_suffix_ci(t) {
        Some((num, factor)) => scale(num, factor),
        None => {
            if only_digits(t) {
                return scale(t, 1);
            }
            let tail = digits_stripped(t);
            if tail.len() > 0 && only_letters(tail) {
                return Err(ParseSizeError::UnknownSuffix(string_of(tail)));
            }
            Err(ParseSizeError::NotANumber)
        },
    }
}

/// A count as a `u64` holds it: what is greater stays at the greatest.
pub open spec fn capped(n: int) -> u64 {
    if n > u64::MAX {
        u64::MAX
    } else {
        n as u64
    }
}

/// The accounts of controlled memory.
#[derive(Debug, Clone, Copy)]
pub struct MemoryAccounting {
    /// The upper bound.
    pub configured_budget: u64,
    /// What the run cannot do without.
    pub mandatory_bytes: u64,
    /// Weights copied to the heap; none where they are views of the mapped file.
    pub weight_buffer_bytes: u64,
    /// Cached blocks of weights.
    pub weight_cache_bytes: u64,
    pub kv_cache_bytes: u64,
    /// The peak of the activations.
    pub scratch_bytes: u64,
    /// Tokenizer, index and overhead.
    pub runtime_bytes: u64,
}

impl MemoryAccounting {
    /// The sum of the five kinds of controlled memory.
    pub open spec fn total(self) -> int {
        self.weight_buffer_bytes + self.weight_cache_bytes + self.kv_cache_bytes
            + self.scratch_bytes + self.runtime_bytes
    }

    /// That sum as a `u64` holds it: what is greater stays at the greatest.
    pub open spec fn used(self) -> int {
        if self.total() > u64::MAX {
            u64::MAX as int
        } else {
            self.total()
        }
    }

    /// Both promises of a budget hold: what is mandatory fits, and so does what is used.
    pub open spec fn respected(self) -> bool {
        self.mandatory_bytes <= self.configured_budget && self.used() <= self.configured_budget
    }

    /// Accounts with nothing in use.
    pub fn new(configured_budget: u64, mandatory_bytes: u64) -> (res: MemoryAccounting)
        ensures
            res.configured_budget == configured_budget,
            res.mandatory_bytes == mandatory_bytes,
            res.weight_buffer_bytes == 0,
            res.weight_cache_bytes == 0,
            res.kv_cache_bytes == 0,
            res.scratch_bytes == 0,
            res.runtime_bytes == 0,
    {
        MemoryAccounting {
            configured_budget,
            mandatory_bytes,
            weight_buffer_bytes: 0,
            weight_cache_bytes: 0,
            kv_cache_bytes: 0,
            scratch_bytes: 0,
            runtime_bytes: 0,
        }
    }

    /// The controlled bytes in use.
    pub fn used_controlled_bytes(&self) -> (res: u64)
        ensures
            res == self.used(),
    {
        self.weight_buffer_bytes.saturating_add(self.weight_cache_bytes).saturating_add(
            self.kv_cache_bytes,
        ).saturating_add(self.scratch_bytes).saturating_add(self.runtime_bytes)
    }

    /// What is left of the budget; nothing where more is used than it allows.
    pub fn available_budget(&self) -> (res: u64)
        ensures
            res == (if self.used() > self.configured_budget {
                0
            } else {
                self.configured_budget - self.used()
            }),
    {
        self.configured_budget.saturating_sub(self.used_controlled_bytes())
    }

    /// Whether the budget holds.
    pub fn budget_respected(&self) -> (res: bool)
        ensures
            res == self.respected(),
    {
        self.mandatory_bytes <= self.configured_budget && self.used_controlled_bytes()
            <= self.configured_budget
    }
}

/// Where a budget below the greatest `u64` holds, all that is in use fits into it without any
/// sum cut short; a budget that is used up to its last byte still holds; and one below what is
/// mandatory never does.
pub proof fn law_accounts_balance(a: MemoryAccounting)
    ensures
        a.respected() && a.configured_budget < u64::MAX ==> a.total() == a.used() && a.total()
            <= a.configured_budget,
        a.mandatory_bytes <= a.configured_budget && a.used() == a.configured_budget
            ==> a.respected(),
        a.mandatory_bytes > a.configured_budget ==> !a.respected(),
{
}

/// Releasing memory of any kind never uses more, and keeps a budget that held.
pub proof fn law_release_keeps_budget(a: MemoryAccounting, b: MemoryAccounting)
    requires
        a.configured_budget == b.configured_budget,
        a.mandatory_bytes == b.mandatory_bytes,
        b.weight_buffer_bytes <= a.weight_buffer_bytes,
        b.weight_cache_bytes <= a.weight_cache_bytes,
        b.kv_cache_bytes <= a.kv_cache_bytes,
        b.scratch_bytes <= a.scratch_bytes,
        b.runtime_bytes <= a.runtime_bytes,
    ensures
        b.used() <= a.used(),
        a.respected() ==> b.respected(),
{
}

/// A size read from a text is never zero.
pub proof fn law_size_never_zero(text: Seq<char>)
    ensures
        size_of(text) matches Ok(n) ==> 0 < n <= u64::MAX,
{
    assert(forall|n: int, f: u64| #![trigger n * f] n >= 1 && f >= 1 ==> n * f >= 1)
        by (nonlinear_arith);
}

/// What the runtime as a whole may take. `None` stands for as much as there is.
#[derive(Debug, Clone, Copy)]
pub struct Budget {
    pub total: u64,
    pub trunk: Option<u64>,
    pub expert_cache: Option<u64>,
    pub kv_limit: Option<u64>,
}

/// How long a weight stays in memory.
#[derive(Debug, Clone, Copy, PartialEq, Eq, Structural)]
pub enum ResidencyClass {
    /// Loaded at the start and kept.
    AlwaysResident,
    /// A dense layer, visited in a fixed order for every token.
    Trunk,
    /// An expert, visited as the data asks.
    RoutedExpert,
}

/// Every kind of memory counts, byte for byte: more of one kind is as much more in total. Where
/// nothing is in use the total is zero.
pub proof fn law_every_kind_counts(a: MemoryAccounting, b: MemoryAccounting)
    ensures
        b == (MemoryAccounting { weight_buffer_bytes: b.weight_buffer_bytes, ..a }) ==> b.total()
            - a.total() == b.weight_buffer_bytes - a.weight_buffer_bytes,
        b == (MemoryAccounting { weight_cache_bytes: b.weight_cache_bytes, ..a }) ==> b.total()
            - a.total() == b.weight_cache_bytes - a.weight_cache_bytes,
        b == (MemoryAccounting { kv_cache_bytes: b.kv_cache_bytes, ..a }) ==> b.total() - a.total()
            == b.kv_cache_bytes - a.kv_cache_bytes,
        b == (MemoryAccounting { scratch_bytes: b.scratch_bytes, ..a }) ==> b.total() - a.total()
            == b.scratch_bytes - a.scratch_bytes,
        b == (MemoryAccounting { runtime_bytes: b.runtime_bytes, ..a }) ==> b.total() - a.total()
            == b.runtime_bytes - a.runtime_bytes,
        a.weight_buffer_bytes == 0 && a.weight_cache_bytes == 0 && a.kv_cache_bytes == 0
            && a.scratch_bytes == 0 && a.runtime_bytes == 0 ==> a.total() == 0,
{
}

/// Each unit is 1024 of the one before it, and the smallest is 1024 bytes; upper and lower case
/// mean the same.
pub proof fn law_units_follow_each_other()
    ensures
        unit_of('K') == Some(1024u64),
        unit_of('M') == Some((1024 * unit_of('K')->0) as u64),
        unit_of('G') == Some((1024 * unit_of('M')->0) as u64),
        unit_of('T') == Some((1024 * unit_of('G')->0) as u64),
        unit_of('k') == unit_of('K'),
        unit_of('m') == unit_of('M'),
        unit_of('g') == unit_of('G'),
        unit_of('t') == unit_of('T'),
{
}

/// A unit can be written with a `B` behind it and means the same; the number is what stands before
/// it. A text that ends in no unit has none.
pub proof fn law_units_with_or_without_b(num: Seq<char>, u: char, b: char)
    requires
        unit_of(u) is Some,
        b == 'B' || b == 'b',
    ensures
        suffixed(num.push(u)) == Some((num, unit_of(u)->0)),
        suffixed(num.push(u).push(b)) == Some((num, unit_of(u)->0)),
        suffixed(num) is Some ==> num.len() > 0 && (unit_of(num.last()) is Some || num.last() == 'B'
            || num.last() == 'b'),
{
    assert(num.push(u).take(num.len() as int) =~= num);
    assert(num.push(u).push(b).take(num.len() as int) =~= num);
}

/// A size that is written as a number, alone or with a unit behind it, is read as the number times
/// the unit. Nothing is not accepted as a size, nor is what a `u64` does not hold.
pub proof fn law_sizes_are_read(n: nat, u: char)
    requires
        unit_of(u) is Some,
    ensures
        size_of(dec(n)) == sized(n, 1),
        size_of(dec(n).push(u)) == sized(n, unit_of(u)->0 as int),
{
    let d = dec(n);
    let s = d.push(u);
    law_numerals_are_read_back(n, u64::MAX as nat);
    lemma_numeral(n);
    lemma_trimmed_already(d);
    lemma_trimmed_already(s);
    law_units_with_or_without_b(d, u, 'B');
    assert(is_digit(d.last()));
    assert(suffixed(d) is None);
    let f = unit_of(u)->0 as int;
    assert(n * f >= n) by (nonlinear_arith)
        requires
            f >= 1,
            n >= 0,
    ;
    assert(n * 1 == n);
}

/// The size of `n` units of `factor` bytes.
pub open spec fn sized(n: nat, factor: int) -> Result<int, SizeFault> {
    if n == 0 {
        Err(SizeFault::Zero)
    } else if n * factor > u64::MAX {
        Err(SizeFault::Overflow)
    } else {
        Ok(n * factor)
    }
}

proof fn lemma_numeral(n: nat)
    ensures
        dec(n).len() > 0,
        all_digits(dec(n)),
    decreases n,
{
    if n >= 10 {
        lemma_numeral(n / 10);
        let s = dec(n);
        assert forall|i: int| 0 <= i < s.len() implies is_digit(#[trigger] s[i]) by {
            if i < s.len() - 1 {
                assert(s[i] == dec(n / 10)[i]);
            }
        }
    }
}

proof fn lemma_trimmed_already(s: Seq<char>)
    requires
        s.len() > 0,
        !is_white(s[0]),
        !is_white(s.last()),
    ensures
        trimmed(s) == s,
{
}

} // verus!
