//! What kind of character one is: letter, number, mark or white space, and its lower case.
//!
//! The Unicode properties are those of the `regex` crate, asked one character at a time.

use vstd::prelude::*;

verus! {

/// `regex::Regex`, a compiled pattern.
#[verifier::external_type_specification]
#[verifier::external_body]
pub struct ExRegex(regex::Regex);

/// `regex::Error`, what an invalid pattern gives.
#[verifier::external_type_specification]
#[verifier::external_body]
pub struct ExRegexError(regex::Error);

/// The texts in which a compiled pattern has a match.
pub uninterp spec fn matched_by(re: regex::Regex) -> Set<Seq<char>>;

/// The texts in which a pattern, compiled with the default options, has a match.
pub uninterp spec fn matches_of(pattern: Seq<char>) -> Set<Seq<char>>;

/// The patterns of single characters by property.
pub open spec fn is_property(pattern: Seq<char>) -> bool {
    ||| pattern == LETTER@
    ||| pattern == NUMBER@
    ||| pattern == MARK@
    ||| pattern == WHITE_SPACE@
}

/// `Regex::new` of the `regex` crate compiles a pattern with the default options. What the
/// result matches depends on the pattern alone. The general categories L, N and M and the class
/// of white space are part of the pattern syntax that the crate documents, so that these four
/// patterns compile.
#[verifier::external_body]
fn compile(pattern: &str) -> (res: Result<regex::Regex, regex::Error>)
    ensures
        res matches Ok(re) ==> matched_by(re) == matches_of(pattern@),
        is_property(pattern@) ==> res is Ok,
{
    regex::Regex::new(pattern)
}

/// `Regex::is_match` of the `regex` crate: whether the pattern has a match anywhere in a text.
#[verifier::external_body]
fn is_match(re: &regex::Regex, text: &str) -> (res: bool)
    ensures
        res == matched_by(*re).contains(text@),
{
    re.is_match(text)
}

/// Letters.
pub const LETTER: &'static str = "\\p{L}";

/// Numbers.
pub const NUMBER: &'static str = "\\p{N}";

/// Marks, which combine with the letter before them.
pub const MARK: &'static str = "\\p{M}";

/// White space.
pub const WHITE_SPACE: &'static str = "\\s";

/// The properties of a character by which texts are split.
#[derive(Debug, Clone, Copy, PartialEq, Eq, Structural)]
pub struct Flags {
    pub letter: bool,
    pub number: bool,
    pub mark: bool,
    pub ws: bool,
}

impl Flags {
    /// No property, as behind the end of a text.
    pub open spec fn none() -> Flags {
        Flags { letter: false, number: false, mark: false, ws: false }
    }
}

impl Default for Flags {
    fn default() -> (res: Flags)
        ensures
            res == Flags::none(),
    {
        Flags { letter: false, number: false, mark: false, ws: false }
    }
}

/// The properties of a character.
pub open spec fn flags_of(c: char) -> Flags {
    Flags {
        letter: matches_of(LETTER@).contains(seq![c]),
        number: matches_of(NUMBER@).contains(seq![c]),
        mark: matches_of(MARK@).contains(seq![c]),
        ws: matches_of(WHITE_SPACE@).contains(seq![c]),
    }
}

/// The properties of each character of a text.
pub open spec fn flags_of_all(chars: Seq<char>) -> Seq<Flags> {
    chars.map_values(|c: char| flags_of(c))
}

/// The compiled property patterns.
pub struct Classes {
    letter: regex::Regex,
    number: regex::Regex,
    mark: regex::Regex,
    ws: regex::Regex,
}

impl Classes {
    /// Each pattern matches what it should.
    pub closed spec fn wf(&self) -> bool {
        &&& matched_by(self.letter) == matches_of(LETTER@)
        &&& matched_by(self.number) == matches_of(NUMBER@)
        &&& matched_by(self.mark) == matches_of(MARK@)
        &&& matched_by(self.ws) == matches_of(WHITE_SPACE@)
    }

    /// Compiles the property patterns.
    pub fn new() -> (res: Classes)
        ensures
            res.wf(),
    {
        let letter = property(LETTER);
        let number = property(NUMBER);
        let mark = property(MARK);
        let ws = property(WHITE_SPACE);
        Classes { letter, number, mark, ws }
    }

    /// The properties of a character.
    pub fn classify(&self, c: char) -> (res: Flags)
        requires
            self.wf(),
        ensures
            res == flags_of(c),
    {
        let mut s = String::new();
        s.push(c);
        proof {
            assert(s@ =~= seq![c]);
        }
        let text = s.as_str();
        Flags {
            letter: is_match(&self.letter, text),
            number: is_match(&self.number, text),
            mark: is_match(&self.mark, text),
            ws: is_match(&self.ws, text),
        }
    }

    /// The properties of each character.
    pub fn classify_all(&self, chars: &[char]) -> (res: Vec<Flags>)
        requires
            self.wf(),
        ensures
            res@ == flags_of_all(chars@),
    {
        let mut res: Vec<Flags> = Vec::new();
        let mut i: usize = 0;
        while i < chars.len()
            invariant
                self.wf(),
                i <= chars@.len(),
                res@.len() == i,
                forall|j: int| 0 <= j < i ==> res@[j] == flags_of(#[trigger] chars@[j]),
            decreases chars@.len() - i,
        {
            res.push(self.classify(chars[i]));
            i += 1;
        }
        proof {
            assert(res@ =~= flags_of_all(chars@));
        }
        res
    }
}

fn property(pattern: &'static str) -> (res: regex::Regex)
    requires
        is_property(pattern@),
    ensures
        matched_by(res) == matches_of(pattern@),
{
    compile(pattern).unwrap()
}

/// The properties of a character.
pub fn classify(c: char) -> (res: Flags)
    ensures
        res == flags_of(c),
{
    Classes::new().classify(c)
}

/// The characters that a character becomes in lower case.
pub uninterp spec fn lowercase_of(c: char) -> Seq<char>;

/// `char::to_lowercase` of std: the characters of the lower-case mapping of a character, by the
/// Unicode tables of the standard library.
#[verifier::external_body]
fn to_lowercase(c: char) -> (res: Vec<char>)
    ensures
        res@ == lowercase_of(c),
{
    c.to_lowercase().collect()
}

/// The lower case of a character, where it is a single character.
pub open spec fn lower_of(c: char) -> Option<char> {
    if lowercase_of(c).len() == 1 {
        Some(lowercase_of(c)[0])
    } else {
        None
    }
}

/// The lower case of each character of a text.
pub open spec fn lower_of_all(chars: Seq<char>) -> Seq<Option<char>> {
    chars.map_values(|c: char| lower_of(c))
}

/// The lower case of a character, where it is a single character.
pub fn lower(c: char) -> (res: Option<char>)
    ensures
        res == lower_of(c),
{
    let all = to_lowercase(c);
    if all.len() == 1 {
        Some(all[0])
    } else {
        None
    }
}

/// The lower case of each character.
pub fn lower_all(chars: &[char]) -> (res: Vec<Option<char>>)
    ensures
        res@ == lower_of_all(chars@),
{
    let mut res: Vec<Option<char>> = Vec::new();
    let mut i: usize = 0;
    while i < chars.len()
        invariant
            i <= chars@.len(),
            res@.len() == i,
            forall|j: int| 0 <= j < i ==> res@[j] == lower_of(#[trigger] chars@[j]),
        decreases chars@.len() - i,
    {
        res.push(lower(chars[i]));
        i += 1;
    }
    proof {
        assert(res@ =~= lower_of_all(chars@));
    }
    res
}

} // verus!
