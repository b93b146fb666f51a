//! Words by the published patterns: which alternative of a pattern takes a word, and how far.
//!
//! The alternatives of a pattern are tried in their order, and each takes as much as it can. They
//! are stated here as the patterns spell them, by the properties of single characters.

use vstd::prelude::*;

use super::split::{
    contraction, gpt2_end, in_run, last_line_end, lemma_word_end, marked, qwen_end, run_end,
    white_end, word_end, words_from, words_of, Marked, PreKind, Run,
};

verus! {

/// A property of a place in a text, as patterns name them.
#[derive(Clone, Copy, PartialEq, Eq, Structural)]
pub enum Class {
    /// `\p{L}`
    Letter,
    /// `\p{N}`
    Number,
    /// `[\p{L}\p{M}]`
    LetterOrMark,
    /// `[^\s\p{L}\p{N}]`
    Symbol,
    /// `[^\s\p{L}\p{M}\p{N}]`
    SymbolNoMark,
    /// `\s`
    White,
    /// `[\r\n]`
    LineEnd,
    /// `[^\r\n\p{L}\p{N}]`
    Lead,
}

/// The character at `i` is there and has the property.
pub open spec fn is_a(t: Marked, c: Class, i: int) -> bool {
    let f = t.flags[i];
    let ends_line = t.chars[i] == '\r' || t.chars[i] == '\n';
    0 <= i < t.chars.len() && match c {
        Class::Letter => f.letter,
        Class::Number => f.number,
        Class::LetterOrMark => f.letter || f.mark,
        Class::Symbol => !f.ws && !f.letter && !f.number,
        Class::SymbolNoMark => !f.ws && !f.letter && !f.mark && !f.number,
        Class::White => f.ws,
        Class::LineEnd => ends_line,
        Class::Lead => !ends_line && !f.letter && !f.number,
    }
}

/// All characters from `p` up to `e` have the property.
pub open spec fn all_are(t: Marked, c: Class, p: int, e: int) -> bool {
    p <= e <= t.chars.len() && forall|i: int| p <= i < e ==> #[trigger] is_a(t, c, i)
}

/// `c+`, greedy.
pub open spec fn plus(t: Marked, c: Class, p: int, e: int) -> bool {
    p < e && all_are(t, c, p, e) && !is_a(t, c, e)
}

/// `c*`, greedy.
pub open spec fn star(t: Marked, c: Class, p: int, e: int) -> bool {
    p <= e && all_are(t, c, p, e) && !is_a(t, c, e)
}

/// `\s*[\r\n]+`: white space up to its last line end.
pub open spec fn through_line_end(t: Marked, p: int, e: int) -> bool {
    &&& p < e
    &&& all_are(t, Class::White, p, e)
    &&& is_a(t, Class::LineEnd, e - 1)
    &&& forall|i: int|
        e <= i && all_are(t, Class::White, p, i + 1) ==> !#[trigger] is_a(t, Class::LineEnd, i)
}

/// Behind `e` comes white space, or nothing.
pub open spec fn open_behind(t: Marked, e: int) -> bool {
    e >= t.chars.len() || is_a(t, Class::White, e)
}

/// `\s+(?!\S)`: as much white space as has no other character right behind it.
pub open spec fn white_not_before_other(t: Marked, p: int, e: int) -> bool {
    &&& p < e
    &&& all_are(t, Class::White, p, e)
    &&& open_behind(t, e)
    &&& forall|i: int| e < i && all_are(t, Class::White, p, i) ==> !#[trigger] open_behind(t, i)
}

/// ` ?`: with a space before, or without.
pub open spec fn after_space(t: Marked, p: int, q: int) -> bool {
    q == p || (q == p + 1 && p < t.chars.len() && t.chars[p] == ' ')
}

/// A contraction: an apostrophe with `s`, `t`, `m` or `d`, or with `re`, `ve` or `ll`; with
/// letters of either case, except in the oldest pattern.
pub open spec fn contracts(t: Marked, pre: PreKind, p: int, e: int) -> bool {
    let a = said(t, pre, p + 1);
    let b = said(t, pre, p + 2);
    &&& t.chars[p] == '\''
    &&& e <= t.chars.len()
    &&& (e == p + 2 && (a == Some('s') || a == Some('t') || a == Some('m') || a == Some('d'))) || (
    e == p + 3 && ((a == Some('r') && b == Some('e')) || (a == Some('v') && b == Some('e')) || (a
        == Some('l') && b == Some('l'))))
}

/// The letter at `i` as contractions are compared.
pub open spec fn said(t: Marked, pre: PreKind, i: int) -> Option<char> {
    if pre == PreKind::Gpt2 {
        Some(t.chars[i])
    } else {
        t.lowers[i]
    }
}

/// What words are made of: letters, and in the newest pattern combining marks.
pub open spec fn words_class(pre: PreKind) -> Class {
    if pre == PreKind::Qwen35 {
        Class::LetterOrMark
    } else {
        Class::Letter
    }
}

/// What symbols are, by the same distinction.
pub open spec fn symbols_class(pre: PreKind) -> Class {
    if pre == PreKind::Qwen35 {
        Class::SymbolNoMark
    } else {
        Class::Symbol
    }
}

/// Alternative `k` of the pattern takes the characters from `p` up to `e`.
pub open spec fn takes(t: Marked, pre: PreKind, k: int, p: int, e: int) -> bool {
    if pre == PreKind::Gpt2 {
        ||| k == 0 && contracts(t, pre, p, e)
        ||| k == 1 && exists|q: int| #[trigger] after_space(t, p, q) && plus(t, Class::Letter, q, e)
        ||| k == 2 && exists|q: int| #[trigger] after_space(t, p, q) && plus(t, Class::Number, q, e)
        ||| k == 3 && exists|q: int| #[trigger] after_space(t, p, q) && plus(t, Class::Symbol, q, e)
        ||| k == 4 && white_not_before_other(t, p, e)
    } else {
        ||| k == 0 && contracts(t, pre, p, e)
        ||| k == 1 && (plus(t, words_class(pre), p, e) || (is_a(t, Class::Lead, p) && plus(
            t,
            words_class(pre),
            p + 1,
            e,
        )))
        ||| k == 2 && is_a(t, Class::Number, p) && e == p + 1
        ||| k == 3 && exists|q: int, s: int|
            #[trigger] after_space(t, p, q) && #[trigger] plus(t, symbols_class(pre), q, s)
                && star(t, Class::LineEnd, s, e)
        ||| k == 4 && through_line_end(t, p, e)
        ||| k == 5 && white_not_before_other(t, p, e)
        ||| k == 6 && plus(t, Class::White, p, e)
    }
}

/// The pattern takes the characters from `p` up to `e`: by the first of its alternatives that
/// takes any; where none does, a single character stands alone.
pub open spec fn follows(t: Marked, pre: PreKind, p: int, e: int) -> bool {
    ||| exists|k: int| #[trigger]
        takes(t, pre, k, p, e) && forall|j: int, f: int| j < k ==> !#[trigger] takes(t, pre, j, p, f)
    ||| e == p + 1 && forall|j: int, f: int| !#[trigger] takes(t, pre, j, p, f)
}

/// No character has two of the properties; spaces and line ends are white space, and apostrophes
/// are not.
pub open spec fn classes_apart(t: Marked) -> bool {
    forall|i: int|
        0 <= i < t.chars.len() ==> {
            let f = #[trigger] t.flags[i];
            let c = t.chars[i];
            &&& !(f.letter && f.number) && !(f.letter && f.mark) && !(f.letter && f.ws)
            &&& !(f.number && f.mark) && !(f.number && f.ws) && !(f.mark && f.ws)
            &&& c == ' ' || c == '\r' || c == '\n' ==> f.ws
            &&& c == '\'' ==> !f.ws
        }
}

proof fn lemma_run(t: Marked, run: Run, p: int)
    requires
        0 <= p <= t.len(),
    ensures
        p <= run_end(t, run, p) <= t.len(),
        forall|i: int| p <= i < run_end(t, run, p) ==> #[trigger] in_run(t, run, i),
        !in_run(t, run, run_end(t, run, p)),
    decreases t.len() - p,
{
    if in_run(t, run, p) {
        lemma_run(t, run, p + 1);
    }
}

/// Runs are what the classes of the patterns say.
proof fn lemma_classes(t: Marked, i: int)
    requires
        t.wf(),
    ensures
        in_run(t, Run::Letters, i) == is_a(t, Class::Letter, i),
        in_run(t, Run::Numbers, i) == is_a(t, Class::Number, i),
        in_run(t, Run::Word { marks: true }, i) == is_a(t, Class::LetterOrMark, i),
        in_run(t, Run::Word { marks: false }, i) == is_a(t, Class::Letter, i),
        in_run(t, Run::Symbols { marks: true }, i) == is_a(t, Class::SymbolNoMark, i),
        in_run(t, Run::Symbols { marks: false }, i) == is_a(t, Class::Symbol, i),
        in_run(t, Run::WhiteSpace, i) == is_a(t, Class::White, i),
        in_run(t, Run::LineEnds, i) == is_a(t, Class::LineEnd, i),
{
}

proof fn lemma_star(t: Marked, run: Run, c: Class, p: int)
    requires
        t.wf(),
        0 <= p <= t.len(),
        forall|i: int| in_run(t, run, i) == #[trigger] is_a(t, c, i),
    ensures
        star(t, c, p, run_end(t, run, p)),
        is_a(t, c, p) ==> plus(t, c, p, run_end(t, run, p)),
{
    lemma_run(t, run, p);
    let e = run_end(t, run, p);
    assert forall|i: int| p <= i < e implies #[trigger] is_a(t, c, i) by {
        assert(in_run(t, run, i));
    }
    assert(!in_run(t, run, e) ==> !is_a(t, c, e)) by {
        assert(in_run(t, run, e) == is_a(t, c, e));
    }
    if is_a(t, c, p) && e == p {
        assert(in_run(t, run, p));
    }
}

/// The end of a run of white space is that of all stretches of it.
proof fn lemma_white_bounded(t: Marked, p: int, e: int, f: int)
    requires
        star(t, Class::White, p, e),
        all_are(t, Class::White, p, f),
    ensures
        f <= e,
{
    if f > e {
        assert(is_a(t, Class::White, e));
    }
}

proof fn lemma_last(t: Marked, p: int, e: int)
    requires
        0 <= p <= e <= t.len(),
    ensures
        match last_line_end(t, p, e) {
            Some(l) => p <= l < e && is_a(t, Class::LineEnd, l) && forall|i: int|
                l < i < e ==> !#[trigger] is_a(t, Class::LineEnd, i),
            None => forall|i: int| p <= i < e ==> !#[trigger] is_a(t, Class::LineEnd, i),
        },
    decreases e - p,
{
    if e > p {
        if !is_a(t, Class::LineEnd, e - 1) {
            lemma_last(t, p, e - 1);
        }
    }
}

proof fn lemma_contraction(t: Marked, pre: PreKind, p: int)
    requires
        t.wf(),
        0 <= p < t.len(),
    ensures
        contraction(t, pre, p) > 0 ==> contracts(t, pre, p, p + contraction(t, pre, p)),
        contraction(t, pre, p) <= 0 ==> forall|e: int| !#[trigger] contracts(t, pre, p, e),
{
}

/// White space that no line end takes: what is left of a run for the word behind it.
proof fn lemma_white(t: Marked, p: int)
    requires
        t.wf(),
        0 <= p < t.len(),
        is_a(t, Class::White, p),
    ensures
        ({
            let r = run_end(t, Run::WhiteSpace, p);
            let e = white_end(t, p);
            &&& star(t, Class::White, p, r)
            &&& plus(t, Class::White, p, r)
            &&& r - p > 1 || r == t.len() ==> white_not_before_other(t, p, e)
            &&& r - p <= 1 && r < t.len() ==> e == p + 1 && e == r && forall|f: int|
                !#[trigger] white_not_before_other(t, p, f)
        }),
{
    assert forall|i: int| in_run(t, Run::WhiteSpace, i) == #[trigger] is_a(t, Class::White, i) by {
        lemma_classes(t, i);
    }
    lemma_star(t, Run::WhiteSpace, Class::White, p);
    let r = run_end(t, Run::WhiteSpace, p);
    let e = white_end(t, p);
    if r - p > 1 || r == t.len() {
        assert forall|i: int| p <= i < e implies #[trigger] is_a(t, Class::White, i) by {}
        if r < t.len() {
            assert(is_a(t, Class::White, e));
        }
        assert forall|i: int|
            e < i && all_are(t, Class::White, p, i) implies !#[trigger] open_behind(t, i) by {
            lemma_white_bounded(t, p, r, i);
        }
    } else {
        assert forall|f: int| !#[trigger] white_not_before_other(t, p, f) by {
            if white_not_before_other(t, p, f) {
                lemma_white_bounded(t, p, r, f);
                assert(f == r);
                assert(open_behind(t, r));
            }
        }
    }
}

proof fn lemma_gpt2_follows(t: Marked, p: int)
    requires
        t.wf(),
        classes_apart(t),
        0 <= p < t.len(),
        contraction(t, PreKind::Gpt2, p) <= 0,
    ensures
        follows(t, PreKind::Gpt2, p, gpt2_end(t, p)),
{
    let pre = PreKind::Gpt2;
    lemma_contraction(t, pre, p);
    assert forall|i: int| #![trigger is_a(t, Class::Letter, i)]
        in_run(t, Run::Letters, i) == is_a(t, Class::Letter, i) by {
        lemma_classes(t, i);
    }
    assert forall|i: int| #![trigger is_a(t, Class::Number, i)]
        in_run(t, Run::Numbers, i) == is_a(t, Class::Number, i) by {
        lemma_classes(t, i);
    }
    assert forall|i: int| #![trigger is_a(t, Class::Symbol, i)]
        in_run(t, Run::Symbols { marks: false }, i) == is_a(t, Class::Symbol, i) by {
        lemma_classes(t, i);
    }
    let f = t.flags[p];
    let space = t.chars[p] == ' ';
    let q = if space {
        p + 1
    } else {
        p
    };
    let e = gpt2_end(t, p);
    assert(after_space(t, p, q));
    assert(after_space(t, p, p));
    if space {
        assert(f.ws);
    }
    if q < t.len() {
        let g = t.flags[q];
        assert(is_a(t, Class::Letter, q) == g.letter);
        assert(is_a(t, Class::Number, q) == g.number);
        if g.letter {
            lemma_star(t, Run::Letters, Class::Letter, q);
            assert(takes(t, pre, 1, p, e));
        } else if g.number {
            lemma_star(t, Run::Numbers, Class::Number, q);
            assert(takes(t, pre, 2, p, e));
            lemma_not_taken(t, pre, Class::Letter, p, q);
        } else if !g.ws {
            lemma_star(t, Run::Symbols { marks: false }, Class::Symbol, q);
            assert(is_a(t, Class::Symbol, q));
            assert(takes(t, pre, 3, p, e));
            lemma_not_taken(t, pre, Class::Letter, p, q);
            lemma_not_taken(t, pre, Class::Number, p, q);
        } else {
            assert(f.ws);
            assert(is_a(t, Class::White, p));
            lemma_white(t, p);
            lemma_not_taken(t, pre, Class::Letter, p, q);
            lemma_not_taken(t, pre, Class::Number, p, q);
            lemma_not_taken(t, pre, Class::Symbol, p, q);
            let r = run_end(t, Run::WhiteSpace, p);
            if r - p > 1 || r == t.len() {
                assert(takes(t, pre, 4, p, e));
            } else {
                assert(forall|j: int, g: int| !#[trigger] takes(t, pre, j, p, g));
            }
        }
    } else {
        assert(is_a(t, Class::White, p));
        lemma_white(t, p);
        lemma_run(t, Run::Symbols { marks: false }, q);
        assert(e == p + 1);
        lemma_not_taken(t, pre, Class::Letter, p, q);
        lemma_not_taken(t, pre, Class::Number, p, q);
        lemma_not_taken(t, pre, Class::Symbol, p, q);
        let r = run_end(t, Run::WhiteSpace, p);
        assert(r == t.len());
        assert(white_end(t, p) == p + 1);
        assert(takes(t, pre, 4, p, e));
    }
}

/// Nothing is taken of a class that neither the character nor, behind a space, the next one has.
proof fn lemma_not_taken(t: Marked, pre: PreKind, c: Class, p: int, q: int)
    requires
        t.wf(),
        0 <= p < t.len(),
        q == if t.chars[p] == ' ' {
            p + 1
        } else {
            p
        },
        !is_a(t, c, q),
        !is_a(t, c, p),
    ensures
        forall|s: int, e: int| #[trigger] after_space(t, p, s) ==> !#[trigger] plus(t, c, s, e),
{
    assert forall|s: int, e: int| #[trigger] after_space(t, p, s) implies !#[trigger] plus(
        t,
        c,
        s,
        e,
    ) by {
        if plus(t, c, s, e) {
            assert(is_a(t, c, s));
        }
    }
}

proof fn lemma_qwen_follows(t: Marked, pre: PreKind, p: int)
    requires
        t.wf(),
        classes_apart(t),
        0 <= p < t.len(),
        pre != PreKind::Gpt2,
        contraction(t, pre, p) <= 0,
    ensures
        follows(t, pre, p, qwen_end(t, pre == PreKind::Qwen35, p)),
{
    let marks = pre == PreKind::Qwen35;
    let words = words_class(pre);
    let symbols = symbols_class(pre);
    lemma_contraction(t, pre, p);
    assert forall|i: int| #![trigger is_a(t, words, i)]
        in_run(t, Run::Word { marks }, i) == is_a(t, words, i) by {
        lemma_classes(t, i);
    }
    assert forall|i: int| #![trigger is_a(t, symbols, i)]
        in_run(t, Run::Symbols { marks }, i) == is_a(t, symbols, i) by {
        lemma_classes(t, i);
    }
    assert forall|i: int| #![trigger is_a(t, Class::LineEnd, i)]
        in_run(t, Run::LineEnds, i) == is_a(t, Class::LineEnd, i) by {
        lemma_classes(t, i);
    }
    let f = t.flags[p];
    let space = t.chars[p] == ' ';
    let q = if space {
        p + 1
    } else {
        p
    };
    let e = qwen_end(t, marks, p);
    assert(after_space(t, p, q));
    assert(is_a(t, words, p) == (f.letter || (marks && f.mark)));
    assert(t.at(p) == f);
    if !is_a(t, Class::LineEnd, p) && !f.number && (is_a(t, words, p) || is_a(t, words, p + 1)) {
        lemma_star(t, Run::Word { marks }, words, p + 1);
        assert(e == run_end(t, Run::Word { marks }, p + 1));
        if is_a(t, words, p) {
            assert forall|i: int| p <= i < e implies #[trigger] is_a(t, words, i) by {}
            assert(plus(t, words, p, e));
        } else {
            assert(is_a(t, Class::Lead, p));
            assert(plus(t, words, p + 1, e));
        }
        assert(takes(t, pre, 1, p, e));
    } else {
        assert forall|g: int| !#[trigger] takes(t, pre, 1, p, g) by {
            if plus(t, words, p, g) {
                assert(is_a(t, words, p));
            }
            if plus(t, words, p + 1, g) {
                assert(is_a(t, words, p + 1));
            }
        }
        if f.number {
            assert(takes(t, pre, 2, p, e));
        } else if is_a(t, symbols, q) {
            let s = run_end(t, Run::Symbols { marks }, q);
            lemma_star(t, Run::Symbols { marks }, symbols, q);
            lemma_star(t, Run::LineEnds, Class::LineEnd, s);
            assert(plus(t, symbols, q, s));
            assert(e == run_end(t, Run::LineEnds, s));
            assert(star(t, Class::LineEnd, s, e));
            assert(after_space(t, p, q) && plus(t, symbols, q, s));
            assert(takes(t, pre, 3, p, e));
        } else {
            assert(is_a(t, Class::White, p));
            lemma_not_taken(t, pre, symbols, p, q);
            lemma_white(t, p);
            let r = run_end(t, Run::WhiteSpace, p);
            lemma_last(t, p, r);
            if q >= t.len() {
                assert(r == t.len());
                lemma_run(t, Run::Symbols { marks }, q);
                lemma_run(t, Run::LineEnds, q);
                assert(e == p + 1);
                assert(last_line_end(t, p, r) is None);
            }
            assert(e == match last_line_end(t, p, r) {
                Some(l) => l + 1,
                None => white_end(t, p),
            });
            assert(forall|g: int| !#[trigger] takes(t, pre, 3, p, g));
            match last_line_end(t, p, r) {
                Some(l) => {
                    assert forall|i: int|
                        e <= i && all_are(t, Class::White, p, i + 1) implies !#[trigger] is_a(
                        t,
                        Class::LineEnd,
                        i,
                    ) by {
                        lemma_white_bounded(t, p, r, i + 1);
                    }
                    assert forall|i: int| p <= i < e implies #[trigger] is_a(t, Class::White, i) by {}
                    assert(takes(t, pre, 4, p, e));
                },
                None => {
                    assert forall|g: int| !#[trigger] takes(t, pre, 4, p, g) by {
                        if through_line_end(t, p, g) {
                            lemma_white_bounded(t, p, r, g);
                            assert(is_a(t, Class::LineEnd, g - 1));
                        }
                    }
                    if r - p > 1 || r == t.len() {
                        assert(takes(t, pre, 5, p, e));
                    } else {
                        assert(takes(t, pre, 6, p, e));
                    }
                },
            }
        }
    }
}

/// Every word is taken by the pattern: by the first of its alternatives that takes any characters,
/// and as far as that alternative goes.
pub proof fn law_word_follows_pattern(t: Marked, pre: PreKind, p: int)
    requires
        t.wf(),
        classes_apart(t),
        0 <= p < t.len(),
    ensures
        p < word_end(t, pre, p) <= t.len(),
        follows(t, pre, p, word_end(t, pre, p)),
{
    lemma_word_end(t, pre, p);
    lemma_contraction(t, pre, p);
    if contraction(t, pre, p) > 0 {
        assert(takes(t, pre, 0, p, word_end(t, pre, p)));
        assert(forall|j: int, f: int| j < 0 ==> !#[trigger] takes(t, pre, j, p, f));
    } else if pre == PreKind::Gpt2 {
        lemma_gpt2_follows(t, p);
    } else {
        lemma_qwen_follows(t, pre, p);
    }
}

/// `cuts` are the places where the words of a text begin, and its end: what lies between two of
/// them is a word, taken by the pattern.
pub open spec fn cut_by_pattern(t: Marked, pre: PreKind, words: Seq<Seq<char>>, cuts: Seq<int>) -> bool {
    &&& cuts.len() == words.len() + 1
    &&& cuts.last() == t.len()
    &&& forall|i: int|
        0 <= i < words.len() ==> 0 <= (#[trigger] cuts[i]) < cuts[i + 1] <= t.len() && words[i]
            == t.chars.subrange(cuts[i], cuts[i + 1]) && follows(t, pre, cuts[i], cuts[i + 1])
}

proof fn lemma_cuts(t: Marked, pre: PreKind, p: int) -> (cuts: Seq<int>)
    requires
        t.wf(),
        classes_apart(t),
        0 <= p <= t.len(),
    ensures
        cut_by_pattern(t, pre, words_from(t, pre, p), cuts),
        cuts[0] == p,
    decreases t.len() - p,
{
    let words = words_from(t, pre, p);
    if p >= t.len() {
        seq![p]
    } else {
        law_word_follows_pattern(t, pre, p);
        let e = word_end(t, pre, p);
        let rest = lemma_cuts(t, pre, e);
        let more = words_from(t, pre, e);
        let cuts = seq![p] + rest;
        assert(words == seq![t.chars.subrange(p, e)] + more);
        assert forall|i: int| 0 <= i < words.len() implies 0 <= (#[trigger] cuts[i]) < cuts[i + 1]
            <= t.len() && words[i] == t.chars.subrange(cuts[i], cuts[i + 1]) && follows(
            t,
            pre,
            cuts[i],
            cuts[i + 1],
        ) by {
            if i > 0 {
                assert(cuts[i] == rest[i - 1]);
                assert(cuts[i + 1] == rest[i]);
                assert(words[i] == more[i - 1]);
            } else {
                assert(cuts[1] == rest[0]);
            }
        }
        assert(cuts.last() == rest.last());
        cuts
    }
}

/// The words of a text are cut from its front to its back, each by the pattern from where the one
/// before it ends.
pub proof fn law_words_follow_pattern(chars: Seq<char>, pre: PreKind)
    requires
        classes_apart(marked(chars)),
    ensures
        exists|cuts: Seq<int>| #[trigger]
            cut_by_pattern(marked(chars), pre, words_of(chars, pre), cuts) && cuts[0] == 0,
{
    let cuts = lemma_cuts(marked(chars), pre, 0);
    assert(cut_by_pattern(marked(chars), pre, words_of(chars, pre), cuts));
}

/// White space before a word leaves it its last character: a word of two or more characters, all
/// of them white space and none a line end, has white space or nothing behind it.
pub proof fn law_white_space_leaves_its_last(t: Marked, pre: PreKind, p: int)
    requires
        t.wf(),
        classes_apart(t),
        0 <= p < t.len(),
        word_end(t, pre, p) - p >= 2,
        forall|i: int| p <= i < word_end(t, pre, p) ==> #[trigger] is_a(t, Class::White, i),
        forall|i: int| p <= i < word_end(t, pre, p) ==> !#[trigger] is_a(t, Class::LineEnd, i),
    ensures
        open_behind(t, word_end(t, pre, p)),
{
    let e = word_end(t, pre, p);
    law_word_follows_pattern(t, pre, p);
    assert(is_a(t, Class::White, p) && is_a(t, Class::White, e - 1) && is_a(t, Class::White, p + 1));
    let k = choose|k: int| #[trigger]
        takes(t, pre, k, p, e) && forall|j: int, f: int| j < k ==> !#[trigger] takes(t, pre, j, p, f);
    assert(t.flags[p].ws && t.flags[e - 1].ws && t.flags[p + 1].ws);
    if pre == PreKind::Gpt2 {
        if k == 1 {
            let q = choose|q: int| #[trigger] after_space(t, p, q) && plus(t, Class::Letter, q, e);
            assert(is_a(t, Class::Letter, e - 1));
        }
        if k == 2 {
            let q = choose|q: int| #[trigger] after_space(t, p, q) && plus(t, Class::Number, q, e);
            assert(is_a(t, Class::Number, e - 1));
        }
        if k == 3 {
            let q = choose|q: int| #[trigger] after_space(t, p, q) && plus(t, Class::Symbol, q, e);
            assert(is_a(t, Class::Symbol, e - 1));
        }
        if k == 0 {
            assert(t.chars[p] == '\'');
        }
    } else {
        if k == 1 {
            assert(is_a(t, words_class(pre), e - 1));
        }
        if k == 3 {
            let symbols = symbols_class(pre);
            let (q, s) = choose|q: int, s: int|
                #[trigger] after_space(t, p, q) && #[trigger] plus(t, symbols, q, s) && star(
                    t,
                    Class::LineEnd,
                    s,
                    e,
                );
            assert(is_a(t, symbols, s - 1) && is_a(t, Class::White, s - 1));
        }
        if k == 4 {
            assert(is_a(t, Class::LineEnd, e - 1));
        }
        if k == 6 && !open_behind(t, e) {
            assert(white_not_before_other(t, p, e - 1)) by {
                assert forall|i: int|
                    e - 1 < i && all_are(t, Class::White, p, i) implies !#[trigger] open_behind(
                    t,
                    i,
                ) by {
                    lemma_white_bounded(t, p, e, i);
                }
            }
            assert(takes(t, pre, 5, p, e - 1));
        }
    }
}

} // verus!
