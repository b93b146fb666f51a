//! The words of a text.
//!
//! A text is cut into words from front to back. What the word at a position is depends on the
//! family of pre-tokenizer; each family follows the alternatives of a published pattern, in
//! their order, on the raw text.

use vstd::prelude::*;

use super::classes::{flags_of_all, lower_all, lower_of_all, Classes, Flags};
use crate::error::{LoadError, Refusal};
use crate::gguf::value::{debug_text, quoted};
use crate::text::{chars_of, same, string_of};

verus! {

/// The pattern whose alternatives [`PreKind::Qwen35`] follows.
pub const RE_QWEN35: &'static str =
    "(?:'[sS]|'[tT]|'[rR][eE]|'[vV][eE]|'[mM]|'[lL][lL]|'[dD])|[^\\r\\n\\p{L}\\p{N}]?[\\p{L}\\p{M}]+|\\p{N}| ?[^\\s\\p{L}\\p{M}\\p{N}]+[\\r\\n]*|\\s*[\\r\\n]+|\\s+(?!\\S)|\\s+";

/// The pattern whose alternatives [`PreKind::Qwen2`] follows.
pub const RE_QWEN2: &'static str =
    "(?:'[sS]|'[tT]|'[rR][eE]|'[vV][eE]|'[mM]|'[lL][lL]|'[dD])|[^\\r\\n\\p{L}\\p{N}]?\\p{L}+|\\p{N}| ?[^\\s\\p{L}\\p{N}]+[\\r\\n]*|\\s*[\\r\\n]+|\\s+(?!\\S)|\\s+";

/// The pattern whose alternatives [`PreKind::Gpt2`] follows.
pub const RE_GPT2: &'static str =
    "'s|'t|'re|'ve|'m|'ll|'d| ?\\p{L}+| ?\\p{N}+| ?[^\\s\\p{L}\\p{N}]+|\\s+(?!\\S)";

/// The family of pre-tokenizer.
#[derive(Debug, Clone, Copy, PartialEq, Eq, Structural)]
pub enum PreKind {
    Gpt2,
    Qwen2,
    Qwen35,
}

/// The family that a model names, or the refusal of a name that is not known.
pub open spec fn pre_kind_of(pre: Seq<char>) -> Result<PreKind, Refusal> {
    if pre == "qwen35"@ {
        Ok(PreKind::Qwen35)
    } else if pre == "qwen2"@ {
        Ok(PreKind::Qwen2)
    } else if pre == "default"@ || pre == ""@ {
        Ok(PreKind::Gpt2)
    } else {
        Err(
            Refusal::BadFile(
                "tokenizer.ggml.pre = "@ + quoted(pre)
                    + " — pre-tokenizador no implementado (qwen35, qwen2, default)"@,
            ),
        )
    }
}

impl PreKind {
    /// The family that a model names.
    pub fn from_pre(pre: &str) -> (res: Result<PreKind, LoadError>)
        ensures
            match pre_kind_of(pre@) {
                Ok(k) => res is Ok && res->Ok_0 == k,
                Err(e) => res is Err && res->Err_0@ == e,
            },
    {
        if same(pre, "qwen35") {
            Ok(PreKind::Qwen35)
        } else if same(pre, "qwen2") {
            Ok(PreKind::Qwen2)
        } else if same(pre, "default") || same(pre, "") {
            Ok(PreKind::Gpt2)
        } else {
            let mut m = String::from_str("tokenizer.ggml.pre = ");
            m.append(debug_text(pre).as_str());
            m.append(" — pre-tokenizador no implementado (qwen35, qwen2, default)");
            Err(LoadError::corrupt(m))
        }
    }
}

/// A text with the properties and the lower case of each of its characters.
pub struct Marked {
    pub chars: Seq<char>,
    pub flags: Seq<Flags>,
    pub lowers: Seq<Option<char>>,
}

impl Marked {
    /// There is one entry per character.
    pub open spec fn wf(self) -> bool {
        self.flags.len() == self.chars.len() && self.lowers.len() == self.chars.len()
    }

    /// The number of characters.
    pub open spec fn len(self) -> int {
        self.chars.len() as int
    }

    /// The properties at a position; none behind the end.
    pub open spec fn at(self, p: int) -> Flags {
        if 0 <= p < self.flags.len() {
            self.flags[p]
        } else {
            Flags::none()
        }
    }
}

/// The text with what Unicode says of its characters.
pub open spec fn marked(chars: Seq<char>) -> Marked {
    Marked { chars, flags: flags_of_all(chars), lowers: lower_of_all(chars) }
}

/// A kind of run: characters that a word takes as long as they come.
#[derive(Clone, Copy, PartialEq, Eq, Structural)]
pub enum Run {
    Letters,
    Numbers,
    /// Letters and, with `marks`, combining marks.
    Word { marks: bool },
    /// Neither white space nor letter nor number nor, with `marks`, combining mark.
    Symbols { marks: bool },
    WhiteSpace,
    LineEnds,
}

/// Whether properties are those of a word's inside.
pub open spec fn wordy(f: Flags, marks: bool) -> bool {
    f.letter || (marks && f.mark)
}

/// Whether properties are those of no symbol.
pub open spec fn no_symbol(f: Flags, marks: bool) -> bool {
    f.ws || f.letter || (marks && f.mark) || f.number
}

/// A character that ends a line.
pub open spec fn line_end(c: char) -> bool {
    c == '\r' || c == '\n'
}

/// Whether the character at `p` belongs to a run.
pub open spec fn in_run(t: Marked, run: Run, p: int) -> bool {
    0 <= p < t.len() && match run {
        Run::Letters => t.at(p).letter,
        Run::Numbers => t.at(p).number,
        Run::Word { marks } => wordy(t.at(p), marks),
        Run::Symbols { marks } => !no_symbol(t.at(p), marks),
        Run::WhiteSpace => t.at(p).ws,
        Run::LineEnds => line_end(t.chars[p]),
    }
}

/// Where the run that starts at `p` ends: the first position from `p` on that is not in it.
pub open spec fn run_end(t: Marked, run: Run, p: int) -> int
    decreases t.len() - p,
{
    if in_run(t, run, p) {
        run_end(t, run, p + 1)
    } else {
        p
    }
}

/// The last line end from `p` up to `e`, if there is one.
pub open spec fn last_line_end(t: Marked, p: int, e: int) -> Option<int>
    decreases e - p,
{
    if e <= p {
        None
    } else if line_end(t.chars[e - 1]) {
        Some(e - 1)
    } else {
        last_line_end(t, p, e - 1)
    }
}

/// The character at `p` as contractions compare it: itself, or its lower case.
pub open spec fn folded(t: Marked, pre: PreKind, p: int) -> Option<char> {
    if pre == PreKind::Gpt2 {
        Some(t.chars[p])
    } else {
        t.lowers[p]
    }
}

/// The length of the contraction at `p`: an apostrophe with `s`, `t`, `m` or `d`, or with `re`,
/// `ve` or `ll`. 0 where there is none.
pub open spec fn contraction(t: Marked, pre: PreKind, p: int) -> int {
    if t.chars[p] != '\'' || p + 1 >= t.len() {
        0
    } else {
        let a = folded(t, pre, p + 1);
        if a == Some('s') || a == Some('t') || a == Some('m') || a == Some('d') {
            2
        } else if p + 2 >= t.len() {
            0
        } else {
            let b = folded(t, pre, p + 2);
            if (a == Some('r') && b == Some('e')) || (a == Some('v') && b == Some('e')) || (a
                == Some('l') && b == Some('l')) {
                3
            } else {
                0
            }
        }
    }
}

/// The end of white space at `p`: a run of two or more that something follows leaves its last
/// character to it. A character that is in no run stands alone.
pub open spec fn white_end(t: Marked, p: int) -> int {
    let e = run_end(t, Run::WhiteSpace, p);
    if e - p > 1 && e < t.len() {
        e - 1
    } else if e > p {
        e
    } else {
        p + 1
    }
}

/// The end of the word at `p` without contractions, for [`PreKind::Gpt2`]: letters, numbers or
/// symbols, each with a space before, or white space.
pub open spec fn gpt2_end(t: Marked, p: int) -> int {
    let space = t.chars[p] == ' ';
    let f = if space {
        t.at(p + 1)
    } else {
        t.at(p)
    };
    let q = if space {
        p + 1
    } else {
        p
    };
    if f.letter {
        run_end(t, Run::Letters, q)
    } else if f.number {
        run_end(t, Run::Numbers, q)
    } else if !f.ws {
        run_end(t, Run::Symbols { marks: false }, q)
    } else {
        white_end(t, p)
    }
}

/// The end of the word at `p` without contractions, for the other two families: one character
/// that is neither line end nor number and a run of letters; a single number; symbols with a
/// space before and line ends behind; white space up to its last line end; white space. With
/// `marks` combining marks count as letters.
pub open spec fn qwen_end(t: Marked, marks: bool, p: int) -> int {
    let f = t.at(p);
    let space = t.chars[p] == ' ';
    let g = if space {
        t.at(p + 1)
    } else {
        f
    };
    let q = if space {
        p + 1
    } else {
        p
    };
    if !line_end(t.chars[p]) && !f.number && (wordy(f, marks) || wordy(t.at(p + 1), marks)) {
        run_end(t, Run::Word { marks }, p + 1)
    } else if f.number {
        p + 1
    } else if !no_symbol(g, marks) {
        run_end(t, Run::LineEnds, run_end(t, Run::Symbols { marks }, q))
    } else {
        match last_line_end(t, p, run_end(t, Run::WhiteSpace, p)) {
            Some(l) => l + 1,
            None => white_end(t, p),
        }
    }
}

/// The end of the word that starts at `p`.
pub open spec fn word_end(t: Marked, pre: PreKind, p: int) -> int {
    let k = contraction(t, pre, p);
    if k > 0 {
        p + k
    } else {
        match pre {
            PreKind::Gpt2 => gpt2_end(t, p),
            PreKind::Qwen2 => qwen_end(t, false, p),
            PreKind::Qwen35 => qwen_end(t, true, p),
        }
    }
}

proof fn lemma_run_end(t: Marked, run: Run, p: int)
    requires
        0 <= p <= t.len(),
    ensures
        p <= run_end(t, run, p) <= t.len(),
        in_run(t, run, p) ==> p < run_end(t, run, p),
    decreases t.len() - p,
{
    if in_run(t, run, p) {
        lemma_run_end(t, run, p + 1);
    }
}

proof fn lemma_last_line_end(t: Marked, p: int, e: int)
    ensures
        last_line_end(t, p, e) matches Some(l) ==> p <= l < e,
    decreases e - p,
{
    if e > p && !line_end(t.chars[e - 1]) {
        lemma_last_line_end(t, p, e - 1);
    }
}

/// A word has a character and ends within the text.
pub proof fn lemma_word_end(t: Marked, pre: PreKind, p: int)
    requires
        t.wf(),
        0 <= p < t.len(),
    ensures
        p < word_end(t, pre, p) <= t.len(),
{
    lemma_run_end(t, Run::Letters, p);
    lemma_run_end(t, Run::Letters, p + 1);
    lemma_run_end(t, Run::Numbers, p);
    lemma_run_end(t, Run::Numbers, p + 1);
    lemma_run_end(t, Run::WhiteSpace, p);
    let e = run_end(t, Run::WhiteSpace, p);
    lemma_last_line_end(t, p, e);
    lemma_run_end(t, Run::Word { marks: true }, p + 1);
    lemma_run_end(t, Run::Word { marks: false }, p + 1);
    lemma_symbols_end(t, true, p);
    lemma_symbols_end(t, true, p + 1);
    lemma_symbols_end(t, false, p);
    lemma_symbols_end(t, false, p + 1);
}

proof fn lemma_symbols_end(t: Marked, marks: bool, q: int)
    requires
        0 <= q <= t.len(),
    ensures
        q <= run_end(t, Run::Symbols { marks }, q) <= run_end(
            t,
            Run::LineEnds,
            run_end(t, Run::Symbols { marks }, q),
        ) <= t.len(),
        in_run(t, Run::Symbols { marks }, q) ==> q < run_end(t, Run::Symbols { marks }, q),
{
    lemma_run_end(t, Run::Symbols { marks }, q);
    lemma_run_end(t, Run::LineEnds, run_end(t, Run::Symbols { marks }, q));
}

/// The words of a text from `p` on.
pub open spec fn words_from(t: Marked, pre: PreKind, p: int) -> Seq<Seq<char>>
    decreases t.len() - p,
    when t.wf() && 0 <= p
{
    if p >= t.len() {
        Seq::empty()
    } else {
        proof {
            lemma_word_end(t, pre, p);
        }
        let e = word_end(t, pre, p);
        seq![t.chars.subrange(p, e)] + words_from(t, pre, e)
    }
}

/// The words of a text.
pub open spec fn words_of(chars: Seq<char>, pre: PreKind) -> Seq<Seq<char>> {
    words_from(marked(chars), pre, 0)
}

/// A text at hand for splitting.
pub struct SplitCtx<'a> {
    pub chars: &'a [char],
    pub flags: &'a [Flags],
    pub lowers: &'a [Option<char>],
}

impl<'a> View for SplitCtx<'a> {
    type V = Marked;

    open spec fn view(&self) -> Marked {
        Marked { chars: self.chars@, flags: self.flags@, lowers: self.lowers@ }
    }
}

impl<'a> SplitCtx<'a> {
    /// The character at a position.
    pub fn cpt(&self, pos: usize) -> (res: Option<char>)
        ensures
            res == (if pos < self@.len() {
                Some(self@.chars[pos as int])
            } else {
                None::<char>
            }),
    {
        if pos < self.chars.len() {
            Some(self.chars[pos])
        } else {
            None
        }
    }

    /// The properties at a position; none behind the end.
    pub fn flags(&self, pos: usize) -> (res: Flags)
        ensures
            res == self@.at(pos as int),
    {
        if pos < self.flags.len() {
            self.flags[pos]
        } else {
            Flags::default()
        }
    }

    fn belongs(&self, run: Run, pos: usize) -> (res: bool)
        requires
            self@.wf(),
        ensures
            res == in_run(self@, run, pos as int),
    {
        match self.cpt(pos) {
            None => false,
            Some(c) => {
                let f = self.flags(pos);
                match run {
                    Run::Letters => f.letter,
                    Run::Numbers => f.number,
                    Run::Word { marks } => f.letter || (marks && f.mark),
                    Run::Symbols { marks } => !(f.ws || f.letter || (marks && f.mark) || f.number),
                    Run::WhiteSpace => f.ws,
                    Run::LineEnds => c == '\r' || c == '\n',
                }
            },
        }
    }

    fn end_of_run(&self, run: Run, start: usize) -> (res: usize)
        requires
            self@.wf(),
            start <= self@.len(),
        ensures
            res == run_end(self@, run, start as int),
            start <= res <= self@.len(),
    {
        let n: usize = self.chars.len();
        let mut pos: usize = start;
        while pos < n && self.belongs(run, pos)
            invariant
                n == self@.len(),
                self@.wf(),
                start <= pos <= n,
                run_end(self@, run, start as int) == run_end(self@, run, pos as int),
            decreases self@.len() - pos,
        {
            pos += 1;
        }
        pos
    }

    /// The last line end from `start` up to `end`.
    fn line_end_before(&self, start: usize, end: usize) -> (res: Option<usize>)
        requires
            start <= end <= self@.len(),
        ensures
            match last_line_end(self@, start as int, end as int) {
                Some(l) => res is Some && res->0 == l,
                None => res is None,
            },
            res matches Some(l) ==> start <= l < end,
    {
        let mut e: usize = end;
        while e > start
            invariant
                start <= e <= end <= self@.len(),
                last_line_end(self@, start as int, end as int) == last_line_end(
                    self@,
                    start as int,
                    e as int,
                ),
            decreases e,
        {
            let c = self.chars[e - 1];
            if c == '\r' || c == '\n' {
                return Some(e - 1);
            }
            e -= 1;
        }
        None
    }

    fn fold(&self, pre: PreKind, pos: usize) -> (res: Option<char>)
        requires
            self@.wf(),
            pos < self@.len(),
        ensures
            res == folded(self@, pre, pos as int),
    {
        if pre == PreKind::Gpt2 {
            Some(self.chars[pos])
        } else {
            self.lowers[pos]
        }
    }

    /// The length of the contraction at a position, or 0.
    fn contraction_len(&self, pre: PreKind, pos: usize) -> (res: usize)
        requires
            self@.wf(),
            pos < self@.len(),
        ensures
            res == contraction(self@, pre, pos as int),
            pos + res <= self@.len() <= usize::MAX,
    {
        let n: usize = self.chars.len();
        if self.chars[pos] != '\'' || pos + 1 >= n {
            return 0;
        }
        let n1 = self.fold(pre, pos + 1);
        if let Some(c) = n1 {
            if c == 's' || c == 't' || c == 'm' || c == 'd' {
                return 2;
            }
        }
        if pos + 2 < n {
            let n2 = self.fold(pre, pos + 2);
            if let (Some(a), Some(b)) = (n1, n2) {
                if (a == 'r' && b == 'e') || (a == 'v' && b == 'e') || (a == 'l' && b == 'l') {
                    return 3;
                }
            }
        }
        0
    }

    fn end_of_white(&self, pos: usize) -> (res: usize)
        requires
            self@.wf(),
            pos < self@.len(),
        ensures
            res == white_end(self@, pos as int),
    {
        let n: usize = self.chars.len();
        let e: usize = self.end_of_run(Run::WhiteSpace, pos);
        if e - pos > 1 && e < n {
            e - 1
        } else if e > pos {
            e
        } else {
            pos + 1
        }
    }

    fn end_gpt2(&self, pos: usize) -> (res: usize)
        requires
            self@.wf(),
            pos < self@.len(),
        ensures
            res == gpt2_end(self@, pos as int),
    {
        let space = self.chars[pos] == ' ';
        let start: usize = if space {
            pos + 1
        } else {
            pos
        };
        let f = self.flags(start);
        if f.letter {
            return self.end_of_run(Run::Letters, start);
        }
        if f.number {
            return self.end_of_run(Run::Numbers, start);
        }
        if !f.ws {
            return self.end_of_run(Run::Symbols { marks: false }, start);
        }
        self.end_of_white(pos)
    }

    fn end_qwen(&self, marks: bool, pos: usize) -> (res: usize)
        requires
            self@.wf(),
            pos < self@.len(),
        ensures
            res == qwen_end(self@, marks, pos as int),
    {
        let c = self.chars[pos];
        let f = self.flags(pos);
        if !(c == '\r' || c == '\n' || f.number) {
            let nf = self.flags(pos + 1);
            if f.letter || (marks && f.mark) || nf.letter || (marks && nf.mark) {
                return self.end_of_run(Run::Word { marks }, pos + 1);
            }
        }
        if f.number {
            return pos + 1;
        }
        let start: usize = if c == ' ' {
            pos + 1
        } else {
            pos
        };
        let g = self.flags(start);
        if !(g.ws || g.letter || (marks && g.mark) || g.number) {
            let e: usize = self.end_of_run(Run::Symbols { marks }, start);
            return self.end_of_run(Run::LineEnds, e);
        }
        let w: usize = self.end_of_run(Run::WhiteSpace, pos);
        match self.line_end_before(pos, w) {
            Some(l) => l + 1,
            None => self.end_of_white(pos),
        }
    }

    /// The end of the word that starts at a position.
    pub fn end_of_word(&self, pre: PreKind, pos: usize) -> (res: usize)
        requires
            self@.wf(),
            pos < self@.len(),
        ensures
            res == word_end(self@, pre, pos as int),
            pos < res <= self@.len(),
    {
        proof {
            lemma_word_end(self@, pre, pos as int);
        }
        let k: usize = self.contraction_len(pre, pos);
        if k > 0 {
            return pos + k;
        }
        match pre {
            PreKind::Gpt2 => self.end_gpt2(pos),
            PreKind::Qwen2 => self.end_qwen(false, pos),
            PreKind::Qwen35 => self.end_qwen(true, pos),
        }
    }

    /// The words of the text.
    pub fn words(&self, pre: PreKind) -> (res: Vec<Vec<char>>)
        requires
            self@.wf(),
        ensures
            res@.map_values(|w: Vec<char>| w@) == words_from(self@, pre, 0),
    {
        let n: usize = self.chars.len();
        let mut words: Vec<Vec<char>> = Vec::new();
        let mut pos: usize = 0;
        proof {
            assert(Seq::<Seq<char>>::empty() + words_from(self@, pre, 0) =~= words_from(
                self@,
                pre,
                0,
            ));
            assert(words@.map_values(|w: Vec<char>| w@) =~= Seq::<Seq<char>>::empty());
        }
        while pos < n
            invariant
                n == self@.len(),
                self@.wf(),
                pos <= n,
                words@.map_values(|w: Vec<char>| w@) + words_from(self@, pre, pos as int)
                    == words_from(self@, pre, 0),
            decreases n - pos,
        {
            let end: usize = self.end_of_word(pre, pos);
            let ghost done = words@;
            let word = vstd::slice::slice_to_vec(vstd::slice::slice_subrange(self.chars, pos, end));
            words.push(word);
            proof {
                let w = self@.chars.subrange(pos as int, end as int);
                let rest = words_from(self@, pre, end as int);
                assert(words_from(self@, pre, pos as int) == seq![w] + rest);
                assert(words@.map_values(|w: Vec<char>| w@) =~= done.map_values(
                    |w: Vec<char>| w@,
                ).push(w));
                assert(done.map_values(|w: Vec<char>| w@) + (seq![w] + rest) =~= words@.map_values(
                    |w: Vec<char>| w@,
                ) + rest);
            }
            pos = end;
        }
        proof {
            assert(words@.map_values(|w: Vec<char>| w@) + Seq::<Seq<char>>::empty()
                =~= words@.map_values(|w: Vec<char>| w@));
        }
        words
    }
}

/// The words of a text, with compiled properties at hand.
pub fn split_chars(classes: &Classes, chars: &[char], pre: PreKind) -> (res: Vec<Vec<char>>)
    requires
        classes.wf(),
    ensures
        res@.map_values(|w: Vec<char>| w@) == words_of(chars@, pre),
{
    let flags = classes.classify_all(chars);
    let lowers = lower_all(chars);
    let ctx = SplitCtx { chars, flags: flags.as_slice(), lowers: lowers.as_slice() };
    ctx.words(pre)
}

/// The words of a text.
pub fn split_words(text: &str, pre: PreKind) -> (res: Vec<String>)
    ensures
        res@.map_values(|w: String| w@) == words_of(text@, pre),
{
    let chars = chars_of(text);
    let words = split_chars(&Classes::new(), chars.as_slice(), pre);
    let mut res: Vec<String> = Vec::new();
    let mut i: usize = 0;
    while i < words.len()
        invariant
            i <= words@.len(),
            res@.len() == i,
            forall|j: int| 0 <= j < i ==> (#[trigger] res@[j])@ == words@[j]@,
        decreases words@.len() - i,
    {
        res.push(string_of(words[i].as_slice()));
        i += 1;
    }
    proof {
        assert(res@.map_values(|w: String| w@) =~= words@.map_values(|w: Vec<char>| w@));
    }
    res
}

/// The words of a text, put together again, are the text; and no word is empty.
pub proof fn law_words_make_text(chars: Seq<char>, pre: PreKind)
    ensures
        words_of(chars, pre).flatten() == chars,
        forall|i: int| 0 <= i < words_of(chars, pre).len() ==> (#[trigger] words_of(chars, pre)[i]).len() > 0,
{
    lemma_words_make_text(marked(chars), pre, 0);
    assert(chars.skip(0) =~= chars);
}

proof fn lemma_words_make_text(t: Marked, pre: PreKind, p: int)
    requires
        t.wf(),
        0 <= p <= t.len(),
    ensures
        words_from(t, pre, p).flatten() == t.chars.skip(p),
        forall|i: int| 0 <= i < words_from(t, pre, p).len() ==> (#[trigger] words_from(t, pre, p)[i]).len() > 0,
    decreases t.len() - p,
{
    let words = words_from(t, pre, p);
    if p < t.len() {
        lemma_word_end(t, pre, p);
        let e = word_end(t, pre, p);
        let w = t.chars.subrange(p, e);
        let rest = words_from(t, pre, e);
        lemma_words_make_text(t, pre, e);
        assert(words == seq![w] + rest);
        assert(words.first() == w);
        assert(words.drop_first() =~= rest);
        assert(words.flatten() == w + rest.flatten());
        assert(w + t.chars.skip(e) =~= t.chars.skip(p));
        assert forall|i: int| 0 <= i < words.len() implies (#[trigger] words[i]).len() > 0 by {
            if i > 0 {
                assert(words[i] == rest[i - 1]);
            }
        }
    } else {
        assert(words.flatten() =~= t.chars.skip(p));
    }
}

} // verus!
