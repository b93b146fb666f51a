//! The tokenizer: building one from parts, encoding and decoding.

use vstd::hash_map::StringHashMap;
use vstd::prelude::*;
use vstd::utf8::encode_utf8;

use super::bpe::{bpe_merge, merged, sides, symbol_texts, MergeRanks};
use super::byte_table::{byte_of, byte_to_unicode, letters, ByteTable};
use super::classes::Classes;
use super::split::{split_chars, words_of, PreKind};
use super::token_type::{CONTROL, UNKNOWN, UNUSED, USER_DEFINED};
use crate::budget::capped;
use crate::error::{LoadError, Refusal};
use crate::gguf::value::{debug_text, quoted, texts};
use crate::text::{chars_of, dec, push_dec, string_of, utf8_len};

verus! {

/// Why a text or a list of ids is not translated.
#[derive(Debug)]
pub enum TokenError {
    /// There is no vocabulary.
    NoVocab,
    /// An id that no token has.
    IdOutOfRange(u32),
    /// A symbol that is not in the vocabulary and of which a letter is not in it either.
    PieceMissing(String),
    /// A token with a character that is no letter of the byte table.
    BadPieceChar(String),
}

/// What a [`TokenError`] says.
pub enum TokenFault {
    NoVocab,
    IdOutOfRange(u32),
    PieceMissing(Seq<char>),
    BadPieceChar(Seq<char>),
}

impl View for TokenError {
    type V = TokenFault;

    open spec fn view(&self) -> TokenFault {
        match *self {
            TokenError::NoVocab => TokenFault::NoVocab,
            TokenError::IdOutOfRange(id) => TokenFault::IdOutOfRange(id),
            TokenError::PieceMissing(s) => TokenFault::PieceMissing(s@),
            TokenError::BadPieceChar(s) => TokenFault::BadPieceChar(s@),
        }
    }
}

impl TokenFault {
    /// The sentence that reports the fault.
    pub open spec fn message(self) -> Seq<char> {
        match self {
            TokenFault::NoVocab => "tokenizer has no vocab"@,
            TokenFault::IdOutOfRange(id) => "input token id "@ + dec(id as nat) + " out of range"@,
            TokenFault::PieceMissing(s) => "piece "@ + quoted(s)
                + " not in vocab (char-level byte fallback failed too)"@,
            TokenFault::BadPieceChar(s) => "piece "@ + quoted(s)
                + " contains a char outside the byte-to-unicode table"@,
        }
    }
}

impl TokenError {
    /// The sentence that reports the error.
    pub fn message(&self) -> (res: String)
        ensures
            res@ == self@.message(),
    {
        match self {
            TokenError::NoVocab => String::from_str("tokenizer has no vocab"),
            TokenError::IdOutOfRange(id) => {
                let mut m = String::from_str("input token id ");
                push_dec(&mut m, *id as u64);
                m.append(" out of range");
                m
            },
            TokenError::PieceMissing(s) => {
                let mut m = String::from_str("piece ");
                m.append(debug_text(s.as_str()).as_str());
                m.append(" not in vocab (char-level byte fallback failed too)");
                m
            },
            TokenError::BadPieceChar(s) => {
                let mut m = String::from_str("piece ");
                m.append(debug_text(s.as_str()).as_str());
                m.append(" contains a char outside the byte-to-unicode table");
                m
            },
        }
    }
}

/// The literal that `Debug` of std writes for a character: in single quotes, with escapes.
pub uninterp spec fn quoted_char(c: char) -> Seq<char>;

/// `Debug` of std for `char`, as the format string `{:?}` writes it; it depends on the character
/// alone.
#[verifier::external_body]
fn debug_char(c: char) -> (res: String)
    ensures
        res@ == quoted_char(c),
{
    format!("{:?}", c)
}

/// What a tokenizer is made from.
pub struct Bpe {
    /// The tokens, each in letters of the byte table; a token's id is its place.
    pub tokens: Seq<Seq<char>>,
    pub types: Seq<i32>,
    /// The merge lines; a line's rank is its place.
    pub merges: Seq<Seq<char>>,
    pub pre: PreKind,
    pub pre_name: Seq<char>,
    pub eos: Option<u32>,
    pub bos: Option<u32>,
}

/// Token `i` is the last with that text.
pub open spec fn last_token(tokens: Seq<Seq<char>>, piece: Seq<char>, i: int) -> bool {
    &&& 0 <= i < tokens.len()
    &&& tokens[i] == piece
    &&& forall|j: int| i < j < tokens.len() ==> #[trigger] tokens[j] != piece
}

/// The id of a text: where several tokens have it, that of the last.
pub open spec fn id_of(tokens: Seq<Seq<char>>, piece: Seq<char>) -> Option<u32> {
    if exists|i: int| last_token(tokens, piece, i) {
        Some((choose|i: int| last_token(tokens, piece, i)) as u32)
    } else {
        None
    }
}

/// A text has an id exactly where it is a token, and its id is the place of the last such token.
pub proof fn lemma_id_of(tokens: Seq<Seq<char>>, piece: Seq<char>)
    ensures
        id_of(tokens, piece) is Some <==> tokens.contains(piece),
        forall|i: int| #[trigger] last_token(tokens, piece, i) ==> id_of(tokens, piece) == Some(i as u32),
        id_of(tokens, piece) matches Some(id) ==> exists|i: int| #[trigger]
            last_token(tokens, piece, i) && id == i as u32,
{
    assert forall|i: int| #[trigger] last_token(tokens, piece, i) implies id_of(tokens, piece)
        == Some(i as u32) by {
        let c = choose|c: int| last_token(tokens, piece, c);
        if c < i {
            assert(tokens[i] != piece);
        }
        if i < c {
            assert(tokens[c] != piece);
        }
    }
    if tokens.contains(piece) {
        let i = choose|i: int| 0 <= i < tokens.len() && tokens[i] == piece;
        lemma_last_token(tokens, piece, i);
    }
}

proof fn lemma_last_token(tokens: Seq<Seq<char>>, piece: Seq<char>, i: int)
    requires
        0 <= i < tokens.len(),
        tokens[i] == piece,
    ensures
        exists|k: int| last_token(tokens, piece, k),
    decreases tokens.len() - i,
{
    if !last_token(tokens, piece, i) {
        let j = choose|j: int| i < j < tokens.len() && #[trigger] tokens[j] == piece;
        lemma_last_token(tokens, piece, j);
    }
}

// ---- Encoding -------------------------------------------------------------------------------

/// Each character on its own.
pub open spec fn singles(s: Seq<char>) -> Seq<Seq<char>> {
    s.map_values(|c: char| seq![c])
}

/// The symbols of a word: the letters of its bytes, merged.
pub open spec fn word_symbols(merges: Seq<Seq<char>>, word: Seq<char>) -> Seq<Seq<char>> {
    merged(merges, singles(letters(encode_utf8(word))))
}

/// The ids of the letters of a symbol, up to the first that has none; and whether all have one.
pub open spec fn letter_ids(tokens: Seq<Seq<char>>, sym: Seq<char>) -> (Seq<u32>, bool)
    decreases sym.len(),
{
    if sym.len() == 0 {
        (Seq::empty(), true)
    } else {
        let (ids, ok) = letter_ids(tokens, sym.drop_last());
        if !ok {
            (ids, false)
        } else {
            match id_of(tokens, seq![sym.last()]) {
                Some(id) => (ids.push(id), true),
                None => (ids, false),
            }
        }
    }
}

/// The ids of a symbol: its own id, or those of its letters.
pub open spec fn symbol_ids(tokens: Seq<Seq<char>>, sym: Seq<char>) -> (Seq<u32>, bool) {
    match id_of(tokens, sym) {
        Some(id) => (seq![id], true),
        None => letter_ids(tokens, sym),
    }
}

/// The ids of symbols, up to the first that has none.
pub open spec fn symbols_ids(tokens: Seq<Seq<char>>, syms: Seq<Seq<char>>) -> (
    Seq<u32>,
    Option<TokenFault>,
)
    decreases syms.len(),
{
    if syms.len() == 0 {
        (Seq::empty(), None)
    } else {
        let (ids, fault) = symbols_ids(tokens, syms.drop_last());
        if fault is Some {
            (ids, fault)
        } else {
            let (more, ok) = symbol_ids(tokens, syms.last());
            (
                ids + more,
                if ok {
                    None
                } else {
                    Some(TokenFault::PieceMissing(syms.last()))
                },
            )
        }
    }
}

/// The ids of words, up to the first symbol that has none.
pub open spec fn words_ids(m: Bpe, words: Seq<Seq<char>>) -> (Seq<u32>, Option<TokenFault>)
    decreases words.len(),
{
    if words.len() == 0 {
        (Seq::empty(), None)
    } else {
        let (ids, fault) = words_ids(m, words.drop_last());
        if fault is Some {
            (ids, fault)
        } else {
            let (more, fault) = symbols_ids(m.tokens, word_symbols(m.merges, words.last()));
            (ids + more, fault)
        }
    }
}

/// The ids of a text; where one is missing, those before it and the fault.
pub open spec fn encoding(m: Bpe, text: Seq<char>) -> (Seq<u32>, Option<TokenFault>) {
    if m.tokens.len() == 0 {
        (Seq::empty(), Some(TokenFault::NoVocab))
    } else {
        words_ids(m, words_of(text, m.pre))
    }
}

// ---- Decoding -------------------------------------------------------------------------------

/// The bytes of the letters of a token, up to the first character that is no letter; and whether
/// all are.
pub open spec fn letter_bytes(piece: Seq<char>) -> (Seq<u8>, bool)
    decreases piece.len(),
{
    if piece.len() == 0 {
        (Seq::empty(), true)
    } else {
        let (bytes, ok) = letter_bytes(piece.drop_last());
        if !ok {
            (bytes, false)
        } else {
            match byte_of(piece.last()) {
                Some(b) => (bytes.push(b), true),
                None => (bytes, false),
            }
        }
    }
}

/// The bytes of a token: nothing for a control, unknown or unused one, the text itself for a
/// user-defined one, and the bytes of its letters for any other.
pub open spec fn token_bytes(m: Bpe, id: u32) -> (Seq<u8>, Option<TokenFault>) {
    if id >= m.tokens.len() {
        (Seq::empty(), Some(TokenFault::IdOutOfRange(id)))
    } else {
        let piece = m.tokens[id as int];
        let t = m.types[id as int];
        if t == CONTROL || t == UNKNOWN || t == UNUSED {
            (Seq::empty(), None)
        } else if t == USER_DEFINED {
            (encode_utf8(piece), None)
        } else {
            let (bytes, ok) = letter_bytes(piece);
            (
                bytes,
                if ok {
                    None
                } else {
                    Some(TokenFault::BadPieceChar(piece))
                },
            )
        }
    }
}

/// The bytes of ids; where one has none, those before it and the fault.
pub open spec fn decoding(m: Bpe, ids: Seq<u32>) -> (Seq<u8>, Option<TokenFault>)
    decreases ids.len(),
{
    if ids.len() == 0 {
        (Seq::empty(), None)
    } else {
        let (bytes, fault) = decoding(m, ids.drop_last());
        if fault is Some {
            (bytes, fault)
        } else {
            let (more, fault) = token_bytes(m, ids.last());
            (bytes + more, fault)
        }
    }
}

// ---- Building -------------------------------------------------------------------------------

/// The first character of a token that is no letter of the byte table.
pub open spec fn first_bad(piece: Seq<char>) -> Option<char>
    decreases piece.len(),
{
    if piece.len() == 0 {
        None
    } else {
        match first_bad(piece.drop_last()) {
            Some(c) => Some(c),
            None => if byte_of(piece.last()) is None {
                Some(piece.last())
            } else {
                None
            },
        }
    }
}

/// The refusal of the first token with a character that is no letter, if there is one.
pub open spec fn tokens_fault(tokens: Seq<Seq<char>>) -> Option<Refusal>
    decreases tokens.len(),
{
    if tokens.len() == 0 {
        None
    } else {
        match tokens_fault(tokens.drop_last()) {
            Some(e) => Some(e),
            None => match first_bad(tokens.last()) {
                None => None,
                Some(bad) => Some(
                    Refusal::BadFile(
                        "pieza "@ + dec((tokens.len() - 1) as nat) + " "@ + quoted(tokens.last())
                            + ": char "@ + quoted_char(bad)
                            + " fuera de la tabla byte-to-unicode (vocab corrupto, no texto exótico)"@,
                    ),
                ),
            },
        }
    }
}

/// The refusal of one merge line, if it has no two sides.
pub open spec fn line_fault(rank: int, line: Seq<char>) -> Option<Refusal> {
    match sides(line) {
        None => Some(
            Refusal::BadFile(
                "merge "@ + dec(rank as nat) + " "@ + quoted(line)
                    + " sin separador de espacio"@,
            ),
        ),
        Some((l, r)) => if l.len() == 0 || r.len() == 0 {
            Some(
                Refusal::BadFile(
                    "merge "@ + dec(rank as nat) + " "@ + quoted(line) + " con lado vacío"@,
                ),
            )
        } else {
            None
        },
    }
}

/// The refusal of the first merge line that has no two sides, if there is one.
pub open spec fn merges_fault(lines: Seq<Seq<char>>) -> Option<Refusal>
    decreases lines.len(),
{
    if lines.len() == 0 {
        None
    } else {
        match merges_fault(lines.drop_last()) {
            Some(e) => Some(e),
            None => line_fault(lines.len() - 1, lines.last()),
        }
    }
}

/// The refusal of a vocabulary and its merges, if one is due.
pub open spec fn parts_fault(tokens: Seq<Seq<char>>, merges: Seq<Seq<char>>) -> Option<Refusal> {
    match tokens_fault(tokens) {
        Some(e) => Some(e),
        None => merges_fault(merges),
    }
}

// ---- Memory ---------------------------------------------------------------------------------

/// The bytes that the list of tokens takes.
pub open spec fn tokens_cost(tokens: Seq<Seq<char>>) -> int
    decreases tokens.len(),
{
    if tokens.len() == 0 {
        0
    } else {
        tokens_cost(tokens.drop_last()) + utf8_len(tokens.last()) + 48
    }
}

/// The bytes that the map from texts to ids takes: one entry for each text.
pub open spec fn vocab_cost(tokens: Seq<Seq<char>>) -> int
    decreases tokens.len(),
{
    if tokens.len() == 0 {
        0
    } else if tokens.drop_last().contains(tokens.last()) {
        vocab_cost(tokens.drop_last())
    } else {
        vocab_cost(tokens.drop_last()) + utf8_len(tokens.last()) + 48
    }
}

/// The number of different texts of one character.
pub open spec fn char_pieces(tokens: Seq<Seq<char>>) -> int
    decreases tokens.len(),
{
    if tokens.len() == 0 {
        0
    } else if tokens.last().len() != 1 || tokens.drop_last().contains(tokens.last()) {
        char_pieces(tokens.drop_last())
    } else {
        char_pieces(tokens.drop_last()) + 1
    }
}

/// The bytes that the map from pairs to ranks takes: one entry for each pair.
pub open spec fn merges_cost(lines: Seq<Seq<char>>) -> int
    decreases lines.len(),
{
    if lines.len() == 0 {
        0
    } else if lines.drop_last().contains(lines.last()) {
        merges_cost(lines.drop_last())
    } else {
        let (l, r) = sides(lines.last())->0;
        merges_cost(lines.drop_last()) + utf8_len(l) + utf8_len(r) + 88
    }
}

/// The heap that a tokenizer takes, counted in bytes.
pub open spec fn heap_of(m: Bpe) -> int {
    tokens_cost(m.tokens) + merges_cost(m.merges) + vocab_cost(m.tokens) + char_pieces(m.tokens)
        * 48 + 256 * 32 + 256 * 4 + m.types.len() * 4 + utf8_len(m.pre_name)
}

// ---- The tokenizer --------------------------------------------------------------------------

/// A byte-level BPE tokenizer.
pub struct Gpt2Tokenizer {
    table: ByteTable,
    classes: Classes,
    pre: PreKind,
    pre_str: String,
    merges: MergeRanks,
    vocab: StringHashMap<u32>,
    tokens: Vec<String>,
    token_types: Vec<i32>,
    eos: Option<u32>,
    bos: Option<u32>,
    merges_cost: u64,
    vocab_cost: u64,
    char_pieces: u64,
}

/// The map holds the id of every text among the tokens.
spec fn holds_ids(vocab: Map<Seq<char>, u32>, tokens: Seq<Seq<char>>) -> bool {
    forall|piece: Seq<char>|
        #![trigger vocab.contains_key(piece)]
        (vocab.contains_key(piece) <==> id_of(tokens, piece) is Some) && (vocab.contains_key(piece)
            ==> id_of(tokens, piece) == Some(vocab[piece]))
}

impl View for Gpt2Tokenizer {
    type V = Bpe;

    closed spec fn view(&self) -> Bpe {
        Bpe {
            tokens: texts(self.tokens@),
            types: self.token_types@,
            merges: self.merges.lines(),
            pre: self.pre,
            pre_name: self.pre_str@,
            eos: self.eos,
            bos: self.bos,
        }
    }
}

proof fn lemma_holds_ids_push(
    vocab: Map<Seq<char>, u32>,
    tokens: Seq<Seq<char>>,
    piece: Seq<char>,
)
    requires
        holds_ids(vocab, tokens),
    ensures
        holds_ids(vocab.insert(piece, tokens.len() as u32), tokens.push(piece)),
{
    let more = tokens.push(piece);
    let now = vocab.insert(piece, tokens.len() as u32);
    assert forall|k: Seq<char>| #![trigger now.contains_key(k)] (now.contains_key(k) <==> id_of(
        more,
        k,
    ) is Some) && (now.contains_key(k) ==> id_of(more, k) == Some(now[k])) by {
        lemma_id_of(tokens, k);
        lemma_id_of(more, k);
        if k == piece {
            assert(last_token(more, k, tokens.len() as int));
        } else {
            assert(now.contains_key(k) == vocab.contains_key(k));
            if vocab.contains_key(k) {
                let i = choose|i: int| #[trigger] last_token(tokens, k, i) && id_of(tokens, k)->0
                    == i as u32;
                assert(more[i] == k);
                assert forall|j: int| i < j < more.len() implies #[trigger] more[j] != k by {
                    if j < tokens.len() {
                        assert(tokens[j] != k);
                    }
                }
                assert(last_token(more, k, i));
            } else if more.contains(k) {
                let j = choose|j: int| 0 <= j < more.len() && more[j] == k;
                assert(tokens[j] == k);
                assert(tokens.contains(k));
            }
        }
    }
}

/// The tables over a list of tokens.
struct Vocab {
    ids: StringHashMap<u32>,
    cost: u64,
    char_pieces: u64,
}

fn bad_char(table: &ByteTable, piece: &Vec<char>) -> (res: Option<char>)
    requires
        table.wf(),
    ensures
        res == first_bad(piece@),
{
    let mut i: usize = 0;
    while i < piece.len()
        invariant
            table.wf(),
            i <= piece@.len(),
            first_bad(piece@.take(i as int)) is None,
        decreases piece@.len() - i,
    {
        proof {
            assert(piece@.take(i + 1).drop_last() =~= piece@.take(i as int));
        }
        if table.byte(piece[i]).is_none() {
            proof {
                lemma_first_bad_prefix(piece@, i + 1);
            }
            return Some(piece[i]);
        }
        i += 1;
    }
    proof {
        assert(piece@.take(i as int) =~= piece@);
    }
    None
}

proof fn lemma_first_bad_prefix(piece: Seq<char>, k: int)
    requires
        0 <= k <= piece.len(),
        first_bad(piece.take(k)) is Some,
    ensures
        first_bad(piece) == first_bad(piece.take(k)),
    decreases piece.len(),
{
    if k == piece.len() {
        assert(piece.take(k) =~= piece);
    } else {
        assert(piece.drop_last().take(k) =~= piece.take(k));
        lemma_first_bad_prefix(piece.drop_last(), k);
    }
}

proof fn lemma_tokens_fault_prefix(tokens: Seq<Seq<char>>, k: int)
    requires
        0 <= k <= tokens.len(),
        tokens_fault(tokens.take(k)) is Some,
    ensures
        tokens_fault(tokens) == tokens_fault(tokens.take(k)),
    decreases tokens.len(),
{
    if k == tokens.len() {
        assert(tokens.take(k) =~= tokens);
    } else {
        assert(tokens.drop_last().take(k) =~= tokens.take(k));
        lemma_tokens_fault_prefix(tokens.drop_last(), k);
    }
}

proof fn lemma_merges_fault_prefix(lines: Seq<Seq<char>>, k: int)
    requires
        0 <= k <= lines.len(),
        merges_fault(lines.take(k)) is Some,
    ensures
        merges_fault(lines) == merges_fault(lines.take(k)),
    decreases lines.len(),
{
    if k == lines.len() {
        assert(lines.take(k) =~= lines);
    } else {
        assert(lines.drop_last().take(k) =~= lines.take(k));
        lemma_merges_fault_prefix(lines.drop_last(), k);
    }
}

proof fn lemma_vocab_costs(tokens: Seq<Seq<char>>)
    ensures
        0 <= vocab_cost(tokens),
        0 <= char_pieces(tokens) <= tokens.len(),
    decreases tokens.len(),
{
    if tokens.len() > 0 {
        lemma_vocab_costs(tokens.drop_last());
    }
}

/// Builds the tables over a list of tokens.
fn build_vocab(table: &ByteTable, tokens: &Vec<String>) -> (res: Result<Vocab, LoadError>)
    requires
        table.wf(),
    ensures
        match tokens_fault(texts(tokens@)) {
            Some(e) => res is Err && res->Err_0@ == e,
            None => {
                &&& res is Ok
                &&& holds_ids(res->Ok_0.ids@, texts(tokens@))
                &&& res->Ok_0.cost == capped(vocab_cost(texts(tokens@)))
                &&& res->Ok_0.char_pieces == char_pieces(texts(tokens@))
            },
        },
{
    let ghost ts = texts(tokens@);
    let mut ids: StringHashMap<u32> = StringHashMap::new();
    let mut cost: u64 = 0;
    let mut one: u64 = 0;
    let mut i: usize = 0;
    proof {
        assert(ts.take(0) =~= Seq::<Seq<char>>::empty());
        assert forall|k: Seq<char>| id_of(ts.take(0), k) is None by {
            lemma_id_of(ts.take(0), k);
        }
    }
    while i < tokens.len()
        invariant
            table.wf(),
            ts == texts(tokens@),
            i <= tokens@.len(),
            tokens_fault(ts.take(i as int)) is None,
            holds_ids(ids@, ts.take(i as int)),
            cost == capped(vocab_cost(ts.take(i as int))),
            one == char_pieces(ts.take(i as int)),
        decreases tokens@.len() - i,
    {
        let ghost done = ts.take(i as int);
        let piece = &tokens[i];
        let chars = chars_of(piece.as_str());
        proof {
            assert(ts.take(i + 1).drop_last() =~= done);
            assert(ts.take(i + 1).last() == piece@);
            assert(ts.take(i + 1) =~= done.push(piece@));
            lemma_id_of(done, piece@);
            lemma_vocab_costs(done);
        }
        if let Some(bad) = bad_char(table, &chars) {
            let mut m = String::from_str("pieza ");
            push_dec(&mut m, i as u64);
            m.append(" ");
            m.append(debug_text(piece.as_str()).as_str());
            m.append(": char ");
            m.append(debug_char(bad).as_str());
            m.append(
                " fuera de la tabla byte-to-unicode (vocab corrupto, no texto exótico)",
            );
            proof {
                lemma_tokens_fault_prefix(ts, i + 1);
            }
            return Err(LoadError::corrupt(m));
        }
        if !ids.contains_key(piece.as_str()) {
            cost = cost.saturating_add(piece.as_str().as_bytes().len() as u64).saturating_add(48);
            if chars.len() == 1 {
                one += 1;
            }
        }
        proof {
            lemma_holds_ids_push(ids@, done, piece@);
        }
        ids.insert(piece.clone(), i as u32);
        i += 1;
    }
    proof {
        assert(ts.take(i as int) =~= ts);
    }
    Ok(Vocab { ids, cost, char_pieces: one })
}

/// The place of the first space.
fn first_space(chars: &Vec<char>) -> (res: Option<usize>)
    ensures
        match sides(chars@) {
            None => res is None,
            Some((l, r)) => {
                &&& res is Some
                &&& res->0 < chars@.len()
                &&& l == chars@.take(res->0 as int)
                &&& r == chars@.skip(res->0 + 1)
                &&& chars@[res->0 as int] == ' '
            },
        },
{
    proof {
        chars@.index_of_first_ensures(' ');
    }
    let mut i: usize = 0;
    while i < chars.len()
        invariant
            i <= chars@.len(),
            forall|j: int| 0 <= j < i ==> chars@[j] != ' ',
        decreases chars@.len() - i,
    {
        if chars[i] == ' ' {
            proof {
                assert(chars@.contains(' '));
                chars@.index_of_first_ensures(' ');
            }
            return Some(i);
        }
        i += 1;
    }
    None
}

/// The encoding of texts put together is that of each, put together.
pub proof fn lemma_utf8_concat(a: Seq<char>, b: Seq<char>)
    ensures
        encode_utf8(a + b) == encode_utf8(a) + encode_utf8(b),
    decreases a.len(),
{
    if a.len() == 0 {
        assert(a + b =~= b);
        assert(encode_utf8(a) =~= Seq::<u8>::empty());
        assert(encode_utf8(a) + encode_utf8(b) =~= encode_utf8(b));
    } else {
        lemma_utf8_concat(a.drop_first(), b);
        assert((a + b).drop_first() =~= a.drop_first() + b);
        assert((a + b)[0] == a[0]);
        assert(encode_utf8(a + b) =~= encode_utf8(a) + encode_utf8(b));
    }
}

proof fn lemma_side_lengths(line: Seq<char>)
    requires
        sides(line) is Some,
    ensures
        utf8_len(line) == utf8_len((sides(line)->0).0) + 1 + utf8_len((sides(line)->0).1),
{
    line.index_of_first_ensures(' ');
    let (l, r) = sides(line)->0;
    assert(line =~= l + seq![' '] + r);
    lemma_utf8_concat(l + seq![' '], r);
    lemma_utf8_concat(l, seq![' ']);
    vstd::utf8::is_ascii_chars_encode_utf8(seq![' ']);
}

proof fn lemma_merges_cost(lines: Seq<Seq<char>>)
    ensures
        0 <= merges_cost(lines),
    decreases lines.len(),
{
    if lines.len() > 0 {
        lemma_merges_cost(lines.drop_last());
    }
}

/// The ranks of a list of merge lines, and what they take.
struct Merges {
    ranks: MergeRanks,
    cost: u64,
}

/// Builds the ranks of a list of merge lines.
fn build_merges(lines: &Vec<String>) -> (res: Result<Merges, LoadError>)
    ensures
        match merges_fault(texts(lines@)) {
            Some(e) => res is Err && res->Err_0@ == e,
            None => {
                &&& res is Ok
                &&& res->Ok_0.ranks.wf()
                &&& res->Ok_0.ranks.lines() == texts(lines@)
                &&& res->Ok_0.cost == capped(merges_cost(texts(lines@)))
            },
        },
{
    let ghost ls = texts(lines@);
    let mut ranks = MergeRanks::new();
    let mut cost: u64 = 0;
    let mut i: usize = 0;
    proof {
        assert(ls.take(0) =~= Seq::<Seq<char>>::empty());
    }
    while i < lines.len()
        invariant
            ls == texts(lines@),
            i <= lines@.len(),
            merges_fault(ls.take(i as int)) is None,
            ranks.wf(),
            ranks.lines() == ls.take(i as int),
            cost == capped(merges_cost(ls.take(i as int))),
        decreases lines@.len() - i,
    {
        let line = &lines[i];
        let chars = chars_of(line.as_str());
        proof {
            assert(ls.take(i + 1).drop_last() =~= ls.take(i as int));
            assert(ls.take(i + 1).last() == line@);
            assert(ls.take(i + 1) =~= ls.take(i as int).push(line@));
            if line_fault(i as int, line@) is Some {
                lemma_merges_fault_prefix(ls, i + 1);
            }
            lemma_merges_cost(ls.take(i as int));
        }
        let at: usize = match first_space(&chars) {
            Some(k) => k,
            None => {
                return Err(refuse_merge(i, line, " sin separador de espacio"));
            },
        };
        if at == 0 || at + 1 == chars.len() {
            return Err(refuse_merge(i, line, " con lado vacío"));
        }
        if !ranks.has_line(line) {
            let len: u64 = line.as_str().as_bytes().len() as u64;
            proof {
                lemma_side_lengths(line@);
            }
            cost = cost.saturating_add(len - 1).saturating_add(88);
        }
        ranks.push(line, i as u32);
        i += 1;
    }
    proof {
        assert(ls.take(i as int) =~= ls);
    }
    Ok(Merges { ranks, cost })
}

fn refuse_merge(rank: usize, line: &String, what: &str) -> (res: LoadError)
    ensures
        res@ == Refusal::BadFile("merge "@ + dec(rank as nat) + " "@ + quoted(line@) + what@),
{
    let mut m = String::from_str("merge ");
    push_dec(&mut m, rank as u64);
    m.append(" ");
    m.append(debug_text(line.as_str()).as_str());
    m.append(what);
    LoadError::corrupt(m)
}

impl Gpt2Tokenizer {
    /// The tables agree with the tokens and the merges.
    pub closed spec fn wf(&self) -> bool {
        &&& self.table.wf()
        &&& self.classes.wf()
        &&& self.merges.wf()
        &&& self.tokens@.len() == self.token_types@.len()
        &&& holds_ids(self.vocab@, texts(self.tokens@))
        &&& self.vocab_cost == capped(vocab_cost(texts(self.tokens@)))
        &&& self.char_pieces == char_pieces(texts(self.tokens@))
        &&& self.merges_cost == capped(merges_cost(self.merges.lines()))
    }

    /// Builds a tokenizer from a vocabulary, the types of its tokens and its merge lines.
    pub fn from_parts(
        tokens: Vec<String>,
        token_types: Vec<i32>,
        merges: &Vec<String>,
        pre: PreKind,
        pre_str: String,
        eos: Option<u32>,
        bos: Option<u32>,
    ) -> (res: Result<Gpt2Tokenizer, LoadError>)
        requires
            tokens@.len() == token_types@.len(),
        ensures
            match parts_fault(texts(tokens@), texts(merges@)) {
                Some(e) => res is Err && res->Err_0@ == e,
                None => {
                    &&& res is Ok
                    &&& res->Ok_0.wf()
                    &&& res->Ok_0@ == (Bpe {
                        tokens: texts(tokens@),
                        types: token_types@,
                        merges: texts(merges@),
                        pre,
                        pre_name: pre_str@,
                        eos,
                        bos,
                    })
                },
            },
    {
        let table = byte_to_unicode();
        let vocab = match build_vocab(&table, &tokens) {
            Ok(v) => v,
            Err(e) => {
                return Err(e);
            },
        };
        let merges = match build_merges(merges) {
            Ok(m) => m,
            Err(e) => {
                return Err(e);
            },
        };
        Ok(
            Gpt2Tokenizer {
                table,
                classes: Classes::new(),
                pre,
                pre_str,
                merges: merges.ranks,
                vocab: vocab.ids,
                tokens,
                token_types,
                eos,
                bos,
                merges_cost: merges.cost,
                vocab_cost: vocab.cost,
                char_pieces: vocab.char_pieces,
            },
        )
    }

    /// The id of a text.
    fn id(&self, piece: &[char]) -> (res: Option<u32>)
        requires
            self.wf(),
        ensures
            res == id_of(self@.tokens, piece@),
    {
        let key = string_of(piece);
        proof {
            assert(self.vocab@.contains_key(key@) <==> id_of(texts(self.tokens@), key@) is Some);
        }
        match self.vocab.get(key.as_str()) {
            Some(id) => Some(*id),
            None => None,
        }
    }

    /// Appends the ids of a symbol. Whether there are any for all of it.
    fn push_symbol(&self, sym: &Vec<char>, out: &mut Vec<u32>) -> (ok: bool)
        requires
            self.wf(),
        ensures
            final(out)@ == old(out)@ + symbol_ids(self@.tokens, sym@).0,
            ok == symbol_ids(self@.tokens, sym@).1,
    {
        if let Some(id) = self.id(sym.as_slice()) {
            out.push(id);
            proof {
                assert(out@ =~= old(out)@ + seq![id]);
            }
            return true;
        }
        let ghost start = out@;
        let mut i: usize = 0;
        proof {
            assert(start + Seq::<u32>::empty() =~= start);
            assert(sym@.take(0) =~= Seq::<char>::empty());
        }
        while i < sym.len()
            invariant
                self.wf(),
                i <= sym@.len(),
                start == old(out)@,
                id_of(self@.tokens, sym@) is None,
                letter_ids(self@.tokens, sym@.take(i as int)).1,
                out@ == start + letter_ids(self@.tokens, sym@.take(i as int)).0,
            decreases sym@.len() - i,
        {
            let mut one: Vec<char> = Vec::new();
            one.push(sym[i]);
            proof {
                assert(one@ =~= seq![sym@[i as int]]);
                assert(sym@.take(i + 1).drop_last() =~= sym@.take(i as int));
                assert(sym@.take(i + 1).last() == sym@[i as int]);
            }
            match self.id(one.as_slice()) {
                Some(id) => {
                    let ghost ids = letter_ids(self@.tokens, sym@.take(i as int)).0;
                    out.push(id);
                    proof {
                        assert(out@ =~= start + ids.push(id));
                    }
                },
                None => {
                    proof {
                        lemma_letter_ids_prefix(self@.tokens, sym@, i + 1);
                    }
                    return false;
                },
            }
            i += 1;
        }
        proof {
            assert(sym@.take(i as int) =~= sym@);
        }
        true
    }

    /// Appends the ids of the symbols of a word.
    fn push_word(&self, word: &Vec<char>, out: &mut Vec<u32>) -> (res: Result<(), TokenError>)
        requires
            self.wf(),
        ensures
            final(out)@ == old(out)@ + symbols_ids(
                self@.tokens,
                word_symbols(self@.merges, word@),
            ).0,
            match symbols_ids(self@.tokens, word_symbols(self@.merges, word@)).1 {
                None => res is Ok,
                Some(f) => res is Err && res->Err_0@ == f,
            },
    {
        let text = string_of(word.as_slice());
        let translated = self.table.translate(text.as_str().as_bytes());
        let mut symbols: Vec<Vec<char>> = Vec::new();
        let mut i: usize = 0;
        while i < translated.len()
            invariant
                i <= translated@.len(),
                symbols@.len() == i,
                forall|j: int| 0 <= j < i ==> (#[trigger] symbols@[j])@ == seq![translated@[j]],
            decreases translated@.len() - i,
        {
            let mut one: Vec<char> = Vec::new();
            one.push(translated[i]);
            proof {
                assert(one@ =~= seq![translated@[i as int]]);
            }
            symbols.push(one);
            i += 1;
        }
        proof {
            assert(symbol_texts(symbols@) =~= singles(translated@));
        }
        bpe_merge(&mut symbols, &self.merges);
        let ghost syms = word_symbols(self@.merges, word@);
        let ghost start = out@;
        let mut i: usize = 0;
        proof {
            assert(symbol_texts(symbols@) == syms);
            assert(start + Seq::<u32>::empty() =~= start);
            assert(syms.take(0) =~= Seq::<Seq<char>>::empty());
        }
        while i < symbols.len()
            invariant
                self.wf(),
                start == old(out)@,
                syms == word_symbols(self@.merges, word@),
                symbol_texts(symbols@) == syms,
                i <= symbols@.len(),
                symbols_ids(self@.tokens, syms.take(i as int)).1 is None,
                out@ == start + symbols_ids(self@.tokens, syms.take(i as int)).0,
            decreases symbols@.len() - i,
        {
            let ghost ids = symbols_ids(self@.tokens, syms.take(i as int)).0;
            proof {
                assert(syms.take(i + 1).drop_last() =~= syms.take(i as int));
                assert(syms.take(i + 1).last() == symbols@[i as int]@);
            }
            let ok = self.push_symbol(&symbols[i], out);
            proof {
                let more = symbol_ids(self@.tokens, symbols@[i as int]@).0;
                assert((start + ids) + more =~= start + (ids + more));
            }
            if !ok {
                proof {
                    lemma_symbols_ids_prefix(self@.tokens, syms, i + 1);
                }
                return Err(TokenError::PieceMissing(string_of(symbols[i].as_slice())));
            }
            i += 1;
        }
        proof {
            assert(syms.take(i as int) =~= syms);
        }
        Ok(())
    }

    /// Appends the ids of a text. Where a piece is missing, the ids before it are appended.
    pub fn encode_into(&self, text: &str, out: &mut Vec<u32>) -> (res: Result<(), TokenError>)
        requires
            self.wf(),
        ensures
            final(out)@ == old(out)@ + encoding(self@, text@).0,
            match encoding(self@, text@).1 {
                None => res is Ok,
                Some(f) => res is Err && res->Err_0@ == f,
            },
    {
        let ghost start = out@;
        proof {
            assert(start + Seq::<u32>::empty() =~= start);
        }
        if self.tokens.len() == 0 {
            return Err(TokenError::NoVocab);
        }
        let chars = chars_of(text);
        let words = split_chars(&self.classes, chars.as_slice(), self.pre);
        let ghost ws = words_of(text@, self@.pre);
        let mut i: usize = 0;
        proof {
            assert(words@.map_values(|w: Vec<char>| w@) == ws);
            assert(ws.take(0) =~= Seq::<Seq<char>>::empty());
        }
        while i < words.len()
            invariant
                self.wf(),
                start == old(out)@,
                ws == words_of(text@, self@.pre),
                self@.tokens.len() > 0,
                words@.map_values(|w: Vec<char>| w@) == ws,
                i <= words@.len(),
                words_ids(self@, ws.take(i as int)).1 is None,
                out@ == start + words_ids(self@, ws.take(i as int)).0,
            decreases words@.len() - i,
        {
            let ghost ids = words_ids(self@, ws.take(i as int)).0;
            proof {
                assert(ws.take(i + 1).drop_last() =~= ws.take(i as int));
                assert(ws.take(i + 1).last() == words@[i as int]@);
            }
            let res = self.push_word(&words[i], out);
            proof {
                let more = symbols_ids(
                    self@.tokens,
                    word_symbols(self@.merges, words@[i as int]@),
                ).0;
                assert((start + ids) + more =~= start + (ids + more));
            }
            if let Err(e) = res {
                proof {
                    lemma_words_ids_prefix(self@, ws, i + 1);
                }
                return Err(e);
            }
            i += 1;
        }
        proof {
            assert(ws.take(i as int) =~= ws);
        }
        Ok(())
    }

    /// Appends the bytes of one token.
    fn push_token(&self, id: u32, out: &mut Vec<u8>) -> (res: Result<(), TokenError>)
        requires
            self.wf(),
        ensures
            final(out)@ == old(out)@ + token_bytes(self@, id).0,
            match token_bytes(self@, id).1 {
                None => res is Ok,
                Some(f) => res is Err && res->Err_0@ == f,
            },
    {
        let ghost start = out@;
        proof {
            assert(start + Seq::<u8>::empty() =~= start);
        }
        if id as u64 >= self.tokens.len() as u64 {
            return Err(TokenError::IdOutOfRange(id));
        }
        let piece = &self.tokens[id as usize];
        let t: i32 = self.token_types[id as usize];
        proof {
            assert(self@.tokens[id as int] == piece@);
        }
        if t == CONTROL || t == UNKNOWN || t == UNUSED {
            return Ok(());
        }
        if t == USER_DEFINED {
            let mut raw = vstd::slice::slice_to_vec(piece.as_str().as_bytes());
            out.append(&mut raw);
            return Ok(());
        }
        let chars = chars_of(piece.as_str());
        let mut i: usize = 0;
        proof {
            assert(chars@.take(0) =~= Seq::<char>::empty());
        }
        while i < chars.len()
            invariant
                self.wf(),
                start == old(out)@,
                id < self@.tokens.len(),
                chars@ == self@.tokens[id as int],
                piece@ == chars@,
                t == self@.types[id as int],
                t != CONTROL && t != UNKNOWN && t != UNUSED && t != USER_DEFINED,
                i <= chars@.len(),
                letter_bytes(chars@.take(i as int)).1,
                out@ == start + letter_bytes(chars@.take(i as int)).0,
            decreases chars@.len() - i,
        {
            proof {
                assert(chars@.take(i + 1).drop_last() =~= chars@.take(i as int));
                assert(chars@.take(i + 1).last() == chars@[i as int]);
            }
            match self.table.byte(chars[i]) {
                Some(b) => {
                    let ghost bytes = letter_bytes(chars@.take(i as int)).0;
                    out.push(b);
                    proof {
                        assert(out@ =~= start + bytes.push(b));
                    }
                },
                None => {
                    proof {
                        lemma_letter_bytes_prefix(chars@, i + 1);
                    }
                    return Err(TokenError::BadPieceChar(piece.clone()));
                },
            }
            i += 1;
        }
        proof {
            assert(chars@.take(i as int) =~= chars@);
        }
        Ok(())
    }

    /// Appends the bytes of ids. Where one has none, the bytes before it are appended.
    pub fn decode_into(&self, ids: &[u32], out: &mut Vec<u8>) -> (res: Result<(), TokenError>)
        requires
            self.wf(),
        ensures
            final(out)@ == old(out)@ + decoding(self@, ids@).0,
            match decoding(self@, ids@).1 {
                None => res is Ok,
                Some(f) => res is Err && res->Err_0@ == f,
            },
    {
        let ghost start = out@;
        let mut i: usize = 0;
        proof {
            assert(start + Seq::<u8>::empty() =~= start);
            assert(ids@.take(0) =~= Seq::<u32>::empty());
        }
        while i < ids.len()
            invariant
                self.wf(),
                start == old(out)@,
                i <= ids@.len(),
                decoding(self@, ids@.take(i as int)).1 is None,
                out@ == start + decoding(self@, ids@.take(i as int)).0,
            decreases ids@.len() - i,
        {
            let ghost bytes = decoding(self@, ids@.take(i as int)).0;
            proof {
                assert(ids@.take(i + 1).drop_last() =~= ids@.take(i as int));
                assert(ids@.take(i + 1).last() == ids@[i as int]);
            }
            let res = self.push_token(ids[i], out);
            proof {
                let more = token_bytes(self@, ids@[i as int]).0;
                assert((start + bytes) + more =~= start + (bytes + more));
            }
            if let Err(e) = res {
                proof {
                    lemma_decoding_prefix(self@, ids@, i + 1);
                }
                return Err(e);
            }
            i += 1;
        }
        proof {
            assert(ids@.take(i as int) =~= ids@);
        }
        Ok(())
    }

    /// The text of a token, in letters of the byte table.
    pub fn piece(&self, id: u32) -> (res: Option<&str>)
        ensures
            match res {
                Some(s) => id < self@.tokens.len() && s@ == self@.tokens[id as int],
                None => id >= self@.tokens.len(),
            },
    {
        if (id as u64) < self.tokens.len() as u64 {
            Some(self.tokens[id as usize].as_str())
        } else {
            None
        }
    }

    /// The name of the pre-tokenizer, as the model gives it.
    pub fn pre(&self) -> (res: &str)
        ensures
            res@ == self@.pre_name,
    {
        self.pre_str.as_str()
    }

    /// A careful estimate of the heap that the tokenizer takes, in bytes: texts, entries of the
    /// maps, and fixed amounts per entry.
    pub fn heap_bytes(&self) -> (res: u64)
        requires
            self.wf(),
        ensures
            res == capped(heap_of(self@)),
    {
        let ghost ts = texts(self.tokens@);
        let mut b: u64 = 0;
        let mut i: usize = 0;
        proof {
            assert(ts.take(0) =~= Seq::<Seq<char>>::empty());
        }
        while i < self.tokens.len()
            invariant
                ts == texts(self.tokens@),
                i <= self.tokens@.len(),
                b == capped(tokens_cost(ts.take(i as int))),
                0 <= tokens_cost(ts.take(i as int)),
            decreases self.tokens@.len() - i,
        {
            proof {
                assert(ts.take(i + 1).drop_last() =~= ts.take(i as int));
                assert(ts.take(i + 1).last() == self.tokens@[i as int]@);
            }
            b = b.saturating_add(self.tokens[i].as_str().as_bytes().len() as u64).saturating_add(
                48,
            );
            i += 1;
        }
        proof {
            assert(ts.take(i as int) =~= ts);
            lemma_vocab_costs(ts);
            lemma_merges_cost(self.merges.lines());
        }
        b = b.saturating_add(self.merges_cost);
        b = b.saturating_add(self.vocab_cost);
        b = add_times(b, self.char_pieces, 48);
        b = b.saturating_add(256 * 32);
        b = b.saturating_add(256 * 4);
        b = add_times(b, self.token_types.len() as u64, 4);
        b.saturating_add(self.pre_str.as_str().as_bytes().len() as u64)
    }
}

/// `b` and `n` times `k`, kept at the greatest `u64`.
fn add_times(b: u64, n: u64, k: u64) -> (res: u64)
    ensures
        res == capped(b + n * k),
{
    match n.checked_mul(k) {
        Some(p) => b.saturating_add(p),
        None => u64::MAX,
    }
}

proof fn lemma_letter_ids_prefix(tokens: Seq<Seq<char>>, sym: Seq<char>, k: int)
    requires
        0 <= k <= sym.len(),
        !letter_ids(tokens, sym.take(k)).1,
    ensures
        letter_ids(tokens, sym) == letter_ids(tokens, sym.take(k)),
    decreases sym.len(),
{
    if k == sym.len() {
        assert(sym.take(k) =~= sym);
    } else {
        assert(sym.drop_last().take(k) =~= sym.take(k));
        lemma_letter_ids_prefix(tokens, sym.drop_last(), k);
    }
}

proof fn lemma_symbols_ids_prefix(tokens: Seq<Seq<char>>, syms: Seq<Seq<char>>, k: int)
    requires
        0 <= k <= syms.len(),
        symbols_ids(tokens, syms.take(k)).1 is Some,
    ensures
        symbols_ids(tokens, syms) == symbols_ids(tokens, syms.take(k)),
    decreases syms.len(),
{
    if k == syms.len() {
        assert(syms.take(k) =~= syms);
    } else {
        assert(syms.drop_last().take(k) =~= syms.take(k));
        lemma_symbols_ids_prefix(tokens, syms.drop_last(), k);
    }
}

proof fn lemma_words_ids_prefix(m: Bpe, words: Seq<Seq<char>>, k: int)
    requires
        0 <= k <= words.len(),
        words_ids(m, words.take(k)).1 is Some,
    ensures
        words_ids(m, words) == words_ids(m, words.take(k)),
    decreases words.len(),
{
    if k == words.len() {
        assert(words.take(k) =~= words);
    } else {
        assert(words.drop_last().take(k) =~= words.take(k));
        lemma_words_ids_prefix(m, words.drop_last(), k);
    }
}

proof fn lemma_letter_bytes_prefix(piece: Seq<char>, k: int)
    requires
        0 <= k <= piece.len(),
        !letter_bytes(piece.take(k)).1,
    ensures
        letter_bytes(piece) == letter_bytes(piece.take(k)),
    decreases piece.len(),
{
    if k == piece.len() {
        assert(piece.take(k) =~= piece);
    } else {
        assert(piece.drop_last().take(k) =~= piece.take(k));
        lemma_letter_bytes_prefix(piece.drop_last(), k);
    }
}

proof fn lemma_decoding_prefix(m: Bpe, ids: Seq<u32>, k: int)
    requires
        0 <= k <= ids.len(),
        decoding(m, ids.take(k)).1 is Some,
    ensures
        decoding(m, ids) == decoding(m, ids.take(k)),
    decreases ids.len(),
{
    if k == ids.len() {
        assert(ids.take(k) =~= ids);
    } else {
        assert(ids.drop_last().take(k) =~= ids.take(k));
        lemma_decoding_prefix(m, ids.drop_last(), k);
    }
}

/// A tokenizer: text to ids and ids to bytes.
pub trait Tokenizer {
    /// The tokenizer is consistent.
    spec fn sound(&self) -> bool;

    /// The ids of a text, and the fault if there is one.
    spec fn ids_of(&self, text: Seq<char>) -> (Seq<u32>, Option<TokenFault>);

    /// The bytes of ids, and the fault if there is one.
    spec fn bytes_of(&self, ids: Seq<u32>) -> (Seq<u8>, Option<TokenFault>);

    /// The id that opens a text, that which ends one, the number of tokens, and the kind.
    spec fn facts(&self) -> (Option<u32>, Option<u32>, u32, Seq<char>);

    /// Appends the ids of a text.
    fn encode(&self, text: &str, out: &mut Vec<u32>) -> (res: Result<(), TokenError>)
        requires
            self.sound(),
        ensures
            final(out)@ == old(out)@ + self.ids_of(text@).0,
            match self.ids_of(text@).1 {
                None => res is Ok,
                Some(f) => res is Err && res->Err_0@ == f,
            },
    ;

    /// Appends the bytes of ids.
    fn decode(&self, ids: &[u32], out: &mut Vec<u8>) -> (res: Result<(), TokenError>)
        requires
            self.sound(),
        ensures
            final(out)@ == old(out)@ + self.bytes_of(ids@).0,
            match self.bytes_of(ids@).1 {
                None => res is Ok,
                Some(f) => res is Err && res->Err_0@ == f,
            },
    ;

    fn bos(&self) -> (res: Option<u32>)
        ensures
            res == self.facts().0,
    ;

    fn eos(&self) -> (res: Option<u32>)
        ensures
            res == self.facts().1,
    ;

    fn vocab_size(&self) -> (res: u32)
        ensures
            res == self.facts().2,
    ;

    /// The kind of tokenizer, for reports.
    fn kind(&self) -> (res: &'static str)
        ensures
            res@ == self.facts().3,
    ;
}

impl Tokenizer for Gpt2Tokenizer {
    open spec fn sound(&self) -> bool {
        self.wf()
    }

    open spec fn ids_of(&self, text: Seq<char>) -> (Seq<u32>, Option<TokenFault>) {
        encoding(self@, text)
    }

    open spec fn bytes_of(&self, ids: Seq<u32>) -> (Seq<u8>, Option<TokenFault>) {
        decoding(self@, ids)
    }

    open spec fn facts(&self) -> (Option<u32>, Option<u32>, u32, Seq<char>) {
        (self@.bos, self@.eos, self@.tokens.len() as u32, "gpt2"@)
    }

    fn encode(&self, text: &str, out: &mut Vec<u32>) -> (res: Result<(), TokenError>) {
        self.encode_into(text, out)
    }

    fn decode(&self, ids: &[u32], out: &mut Vec<u8>) -> (res: Result<(), TokenError>) {
        self.decode_into(ids, out)
    }

    fn bos(&self) -> (res: Option<u32>) {
        self.bos
    }

    fn eos(&self) -> (res: Option<u32>) {
        self.eos
    }

    fn vocab_size(&self) -> (res: u32) {
        self.tokens.len() as u32
    }

    fn kind(&self) -> (res: &'static str) {
        "gpt2"
    }
}

} // verus!
