//! What holds of every tokenizer: encoding and decoding undo each other.

use vstd::prelude::*;
use vstd::utf8::encode_utf8;

use super::bpe::law_merging_keeps_text;
use super::byte_table::{
    byte_of, law_byte_leads_back, law_letter_leads_back, letter_of, letters,
};
use super::gpt2::{
    decoding, encoding, first_bad, id_of, last_token, lemma_id_of, lemma_utf8_concat, letter_bytes,
    letter_ids, singles, symbol_ids, symbols_ids, token_bytes, tokens_fault, word_symbols, words_ids,
    Bpe, TokenFault,
};
use super::split::{law_words_make_text, words_of};
use super::token_type::{CONTROL, UNKNOWN, UNUSED, USER_DEFINED};

verus! {

/// Every character is a letter of the byte table.
pub open spec fn all_letters(s: Seq<char>) -> bool {
    forall|i: int| 0 <= i < s.len() ==> byte_of(#[trigger] s[i]) is Some
}

/// The bytes of letters.
pub open spec fn bytes_of_letters(s: Seq<char>) -> Seq<u8> {
    s.map_values(|c: char| byte_of(c)->0)
}

proof fn lemma_letter_bytes(s: Seq<char>)
    ensures
        letter_bytes(s).1 == all_letters(s),
        all_letters(s) ==> letter_bytes(s).0 == bytes_of_letters(s),
    decreases s.len(),
{
    if s.len() > 0 {
        lemma_letter_bytes(s.drop_last());
        assert(s =~= s.drop_last().push(s.last()));
        if all_letters(s) {
            assert forall|i: int| 0 <= i < s.drop_last().len() implies byte_of(
                #[trigger] s.drop_last()[i],
            ) is Some by {
                assert(byte_of(s[i]) is Some);
            }
            assert(byte_of(s[s.len() - 1]) is Some);
            assert(bytes_of_letters(s) =~= bytes_of_letters(s.drop_last()).push(
                byte_of(s.last())->0,
            ));
        } else if letter_bytes(s).1 {
            assert forall|i: int| 0 <= i < s.len() implies byte_of(#[trigger] s[i]) is Some by {
                if i < s.len() - 1 {
                    assert(byte_of(s.drop_last()[i]) is Some);
                }
            }
        }
    } else {
        assert(bytes_of_letters(s) =~= Seq::<u8>::empty());
    }
}

proof fn lemma_letters_back(bytes: Seq<u8>)
    ensures
        all_letters(letters(bytes)),
        bytes_of_letters(letters(bytes)) == bytes,
{
    assert forall|i: int| 0 <= i < bytes.len() implies byte_of(#[trigger] letters(bytes)[i]) == Some(
        bytes[i],
    ) by {
        law_letter_leads_back(bytes[i]);
    }
    assert(bytes_of_letters(letters(bytes)) =~= bytes);
}

/// Decoding a list joined of two gives the bytes of the first and behind them those of the second;
/// where the first has a fault, what it gives, and nothing of the second.
pub proof fn law_decoding_joins(m: Bpe, a: Seq<u32>, b: Seq<u32>)
    ensures
        decoding(m, a + b) == if decoding(m, a).1 is None {
            (decoding(m, a).0 + decoding(m, b).0, decoding(m, b).1)
        } else {
            decoding(m, a)
        },
    decreases b.len(),
{
    if b.len() == 0 {
        assert(a + b =~= a);
        assert(decoding(m, a).0 + Seq::<u8>::empty() =~= decoding(m, a).0);
    } else {
        law_decoding_joins(m, a, b.drop_last());
        assert((a + b).drop_last() =~= a + b.drop_last());
        assert((a + b).last() == b.last());
        let x = decoding(m, a).0;
        let y = decoding(m, b.drop_last()).0;
        let z = token_bytes(m, b.last()).0;
        assert((x + y) + z =~= x + (y + z));
    }
}

proof fn lemma_flatten_push(s: Seq<Seq<char>>)
    requires
        s.len() > 0,
    ensures
        s.flatten() == s.drop_last().flatten() + s.last(),
    decreases s.len(),
{
    if s.len() == 1 {
        assert(s.drop_first() =~= Seq::<Seq<char>>::empty());
        assert(s.drop_last() =~= Seq::<Seq<char>>::empty());
        assert(s.flatten() =~= s.first());
        assert(s.drop_last().flatten() + s.last() =~= s.last());
    } else {
        lemma_flatten_push(s.drop_first());
        let mid = s.drop_first().drop_last();
        assert(mid =~= s.drop_last().drop_first());
        assert(s.flatten() == s.first() + s.drop_first().flatten());
        assert(s.drop_last().first() == s.first());
        assert(s.drop_last().flatten() == s.first() + mid.flatten());
        assert(s.first() + (mid.flatten() + s.last()) =~= (s.first() + mid.flatten()) + s.last());
    }
}

proof fn lemma_singles_flatten(s: Seq<char>)
    ensures
        singles(s).flatten() == s,
    decreases s.len(),
{
    if s.len() == 0 {
        assert(singles(s).flatten() =~= s);
    } else {
        lemma_singles_flatten(s.drop_last());
        lemma_flatten_push(singles(s));
        assert(singles(s).drop_last() =~= singles(s.drop_last()));
        assert(singles(s).last() == seq![s.last()]);
        assert(s.drop_last() + seq![s.last()] =~= s);
    }
}

/// Decoding the token gives the bytes of its letters: it is not silent, and if it stands for
/// itself its text and its letters have the same bytes.
pub open spec fn plain(m: Bpe, id: u32) -> bool {
    &&& id < m.tokens.len()
    &&& m.types[id as int] != CONTROL
    &&& m.types[id as int] != UNKNOWN
    &&& m.types[id as int] != UNUSED
    &&& m.types[id as int] == USER_DEFINED ==> encode_utf8(m.tokens[id as int]) == letter_bytes(
        m.tokens[id as int],
    ).0
}

/// Every id is plain.
pub open spec fn all_plain(m: Bpe, ids: Seq<u32>) -> bool {
    forall|i: int| 0 <= i < ids.len() ==> plain(m, #[trigger] ids[i])
}

/// Ids fit: no id is cut short.
pub open spec fn ids_fit(m: Bpe) -> bool {
    m.tokens.len() <= 0x1_0000_0000
}

proof fn lemma_id_names_piece(m: Bpe, piece: Seq<char>)
    requires
        ids_fit(m),
    ensures
        id_of(m.tokens, piece) matches Some(id) ==> id < m.tokens.len() && m.tokens[id as int] == piece,
{
    lemma_id_of(m.tokens, piece);
    if let Some(id) = id_of(m.tokens, piece) {
        let i = choose|i: int| #[trigger] last_token(m.tokens, piece, i) && id == i as u32;
        assert(id as int == i);
    }
}

proof fn lemma_one_decodes(m: Bpe, id: u32, piece: Seq<char>)
    requires
        ids_fit(m),
        id_of(m.tokens, piece) == Some(id),
        plain(m, id),
        all_letters(piece),
    ensures
        decoding(m, seq![id]) == (bytes_of_letters(piece), None::<TokenFault>),
{
    lemma_id_names_piece(m, piece);
    lemma_letter_bytes(piece);
    reveal_with_fuel(decoding, 2);
    let ids = seq![id];
    assert(ids.drop_last() =~= Seq::<u32>::empty());
    assert(Seq::<u8>::empty() + bytes_of_letters(piece) =~= bytes_of_letters(piece));
}

proof fn lemma_letter_ids_decode(m: Bpe, sym: Seq<char>)
    requires
        ids_fit(m),
        all_letters(sym),
        letter_ids(m.tokens, sym).1,
        all_plain(m, letter_ids(m.tokens, sym).0),
    ensures
        decoding(m, letter_ids(m.tokens, sym).0) == (bytes_of_letters(sym), None::<TokenFault>),
    decreases sym.len(),
{
    let ids = letter_ids(m.tokens, sym).0;
    if sym.len() == 0 {
        assert(bytes_of_letters(sym) =~= Seq::<u8>::empty());
    } else {
        let before = letter_ids(m.tokens, sym.drop_last()).0;
        let c = seq![sym.last()];
        let id = id_of(m.tokens, c)->0;
        assert(ids == before.push(id));
        assert forall|i: int| 0 <= i < before.len() implies plain(m, #[trigger] before[i]) by {
            assert(plain(m, ids[i]));
        }
        assert forall|i: int| 0 <= i < sym.drop_last().len() implies byte_of(
            #[trigger] sym.drop_last()[i],
        ) is Some by {
            assert(byte_of(sym[i]) is Some);
        }
        lemma_letter_ids_decode(m, sym.drop_last());
        assert(ids[before.len() as int] == id);
        assert(byte_of(sym[sym.len() - 1]) is Some);
        assert(all_letters(c));
        lemma_one_decodes(m, id, c);
        law_decoding_joins(m, before, seq![id]);
        assert(before + seq![id] =~= ids);
        assert(bytes_of_letters(sym.drop_last()) + bytes_of_letters(c) =~= bytes_of_letters(sym));
    }
}

proof fn lemma_symbol_decodes(m: Bpe, sym: Seq<char>)
    requires
        ids_fit(m),
        all_letters(sym),
        symbol_ids(m.tokens, sym).1,
        all_plain(m, symbol_ids(m.tokens, sym).0),
    ensures
        decoding(m, symbol_ids(m.tokens, sym).0) == (bytes_of_letters(sym), None::<TokenFault>),
{
    match id_of(m.tokens, sym) {
        Some(id) => {
            assert(plain(m, seq![id][0]));
            lemma_one_decodes(m, id, sym);
        },
        None => {
            lemma_letter_ids_decode(m, sym);
        },
    }
}

proof fn lemma_symbols_decode(m: Bpe, syms: Seq<Seq<char>>)
    requires
        ids_fit(m),
        all_letters(syms.flatten()),
        symbols_ids(m.tokens, syms).1 is None,
        all_plain(m, symbols_ids(m.tokens, syms).0),
    ensures
        decoding(m, symbols_ids(m.tokens, syms).0) == (
            bytes_of_letters(syms.flatten()),
            None::<TokenFault>,
        ),
    decreases syms.len(),
{
    let ids = symbols_ids(m.tokens, syms).0;
    if syms.len() == 0 {
        assert(bytes_of_letters(syms.flatten()) =~= Seq::<u8>::empty());
    } else {
        lemma_flatten_push(syms);
        let head = syms.drop_last().flatten();
        let last = syms.last();
        let before = symbols_ids(m.tokens, syms.drop_last()).0;
        let more = symbol_ids(m.tokens, last).0;
        let all = syms.flatten();
        assert(all == head + last);
        assert(ids == before + more);
        assert forall|i: int| 0 <= i < head.len() implies byte_of(#[trigger] head[i]) is Some by {
            assert(byte_of(all[i]) is Some);
        }
        assert forall|i: int| 0 <= i < last.len() implies byte_of(#[trigger] last[i]) is Some by {
            assert(byte_of(all[head.len() + i]) is Some);
        }
        assert forall|i: int| 0 <= i < before.len() implies plain(m, #[trigger] before[i]) by {
            assert(plain(m, ids[i]));
        }
        assert forall|i: int| 0 <= i < more.len() implies plain(m, #[trigger] more[i]) by {
            assert(plain(m, ids[before.len() + i]));
        }
        lemma_symbols_decode(m, syms.drop_last());
        lemma_symbol_decodes(m, last);
        law_decoding_joins(m, before, more);
        assert(bytes_of_letters(head) + bytes_of_letters(last) =~= bytes_of_letters(all));
    }
}

proof fn lemma_word_decodes(m: Bpe, word: Seq<char>)
    requires
        ids_fit(m),
        symbols_ids(m.tokens, word_symbols(m.merges, word)).1 is None,
        all_plain(m, symbols_ids(m.tokens, word_symbols(m.merges, word)).0),
    ensures
        decoding(m, symbols_ids(m.tokens, word_symbols(m.merges, word)).0) == (
            encode_utf8(word),
            None::<TokenFault>,
        ),
{
    let bytes = encode_utf8(word);
    let ls = letters(bytes);
    law_merging_keeps_text(m.merges, singles(ls));
    lemma_singles_flatten(ls);
    lemma_letters_back(bytes);
    lemma_symbols_decode(m, word_symbols(m.merges, word));
}

proof fn lemma_words_decode(m: Bpe, words: Seq<Seq<char>>)
    requires
        ids_fit(m),
        words_ids(m, words).1 is None,
        all_plain(m, words_ids(m, words).0),
    ensures
        decoding(m, words_ids(m, words).0) == (encode_utf8(words.flatten()), None::<TokenFault>),
    decreases words.len(),
{
    let ids = words_ids(m, words).0;
    if words.len() == 0 {
        assert(words.flatten() =~= Seq::<char>::empty());
        assert(encode_utf8(words.flatten()) =~= Seq::<u8>::empty());
    } else {
        lemma_flatten_push(words);
        let before = words_ids(m, words.drop_last()).0;
        let more = symbols_ids(m.tokens, word_symbols(m.merges, words.last())).0;
        assert(ids == before + more);
        assert forall|i: int| 0 <= i < before.len() implies plain(m, #[trigger] before[i]) by {
            assert(plain(m, ids[i]));
        }
        assert forall|i: int| 0 <= i < more.len() implies plain(m, #[trigger] more[i]) by {
            assert(plain(m, ids[before.len() + i]));
        }
        lemma_words_decode(m, words.drop_last());
        lemma_word_decodes(m, words.last());
        law_decoding_joins(m, before, more);
        lemma_utf8_concat(words.drop_last().flatten(), words.last());
    }
}

/// Encoding and decoding again gives the text back, byte for byte, where encoding succeeds and
/// none of the tokens it gives is silent or stands for other bytes than those of its letters.
pub proof fn law_round_trip(m: Bpe, text: Seq<char>)
    requires
        ids_fit(m),
        encoding(m, text).1 is None,
        all_plain(m, encoding(m, text).0),
    ensures
        decoding(m, encoding(m, text).0) == (encode_utf8(text), None::<TokenFault>),
{
    law_words_make_text(text, m.pre);
    lemma_words_decode(m, words_of(text, m.pre));
}

// ---- When encoding and decoding succeed -----------------------------------------------------

proof fn lemma_token_all_letters(tokens: Seq<Seq<char>>, i: int)
    requires
        tokens_fault(tokens) is None,
        0 <= i < tokens.len(),
    ensures
        letter_bytes(tokens[i]).1,
    decreases tokens.len(),
{
    if i == tokens.len() - 1 {
        lemma_no_bad_char(tokens.last());
    } else {
        lemma_token_all_letters(tokens.drop_last(), i);
    }
}

proof fn lemma_no_bad_char(piece: Seq<char>)
    requires
        first_bad(piece) is None,
    ensures
        letter_bytes(piece).1,
    decreases piece.len(),
{
    if piece.len() > 0 {
        lemma_no_bad_char(piece.drop_last());
    }
}

/// With a vocabulary that was accepted, decoding succeeds exactly where every id is that of a
/// token, and fails with the first id that is not.
pub proof fn law_decoding_fails_on_strange_ids_only(m: Bpe, ids: Seq<u32>)
    requires
        tokens_fault(m.tokens) is None,
        m.types.len() == m.tokens.len(),
    ensures
        decoding(m, ids).1 is None <==> forall|i: int|
            0 <= i < ids.len() ==> (#[trigger] ids[i]) < m.tokens.len(),
        decoding(m, ids).1 matches Some(f) ==> exists|i: int|
            0 <= i < ids.len() && (#[trigger] ids[i]) >= m.tokens.len() && f
                == TokenFault::IdOutOfRange(ids[i]) && forall|j: int|
                0 <= j < i ==> (#[trigger] ids[j]) < m.tokens.len(),
    decreases ids.len(),
{
    if ids.len() > 0 {
        let head = ids.drop_last();
        law_decoding_fails_on_strange_ids_only(m, head);
        let last = ids.last();
        if last < m.tokens.len() {
            lemma_token_all_letters(m.tokens, last as int);
        }
        assert(forall|i: int| 0 <= i < head.len() ==> head[i] == #[trigger] ids[i]);
        if decoding(m, head).1 is Some {
            let f = decoding(m, head).1->0;
            let i = choose|i: int|
                0 <= i < head.len() && (#[trigger] head[i]) >= m.tokens.len() && f
                    == TokenFault::IdOutOfRange(head[i]) && forall|j: int|
                    0 <= j < i ==> (#[trigger] head[j]) < m.tokens.len();
            assert(ids[i] == head[i]);
            assert forall|j: int| 0 <= j < i implies (#[trigger] ids[j]) < m.tokens.len() by {
                assert(head[j] == ids[j]);
            }
        } else {
            assert(ids[ids.len() - 1] == last);
            assert forall|j: int| 0 <= j < head.len() implies (#[trigger] ids[j]) < m.tokens.len() by {
                assert(head[j] == ids[j]);
            }
            if last < m.tokens.len() {
                assert forall|i: int| 0 <= i < ids.len() implies (#[trigger] ids[i]) < m.tokens.len() by {
                    if i < head.len() {
                        assert(head[i] == ids[i]);
                    }
                }
            }
        }
    }
}

/// Every byte's letter is a token.
pub open spec fn has_all_letters(tokens: Seq<Seq<char>>) -> bool {
    forall|b: u8| tokens.contains(seq![#[trigger] letter_of(b)])
}

proof fn lemma_letters_have_ids(tokens: Seq<Seq<char>>, sym: Seq<char>)
    requires
        has_all_letters(tokens),
        all_letters(sym),
    ensures
        letter_ids(tokens, sym).1,
    decreases sym.len(),
{
    if sym.len() > 0 {
        assert forall|i: int| 0 <= i < sym.drop_last().len() implies byte_of(
            #[trigger] sym.drop_last()[i],
        ) is Some by {
            assert(byte_of(sym[i]) is Some);
        }
        lemma_letters_have_ids(tokens, sym.drop_last());
        assert(byte_of(sym[sym.len() - 1]) is Some);
        law_byte_leads_back(sym.last());
        let b = byte_of(sym.last())->0;
        assert(tokens.contains(seq![letter_of(b)]));
        lemma_id_of(tokens, seq![sym.last()]);
    }
}

proof fn lemma_symbols_have_ids(tokens: Seq<Seq<char>>, syms: Seq<Seq<char>>)
    requires
        has_all_letters(tokens),
        all_letters(syms.flatten()),
    ensures
        symbols_ids(tokens, syms).1 is None,
    decreases syms.len(),
{
    if syms.len() > 0 {
        lemma_flatten_push(syms);
        let head = syms.drop_last().flatten();
        let last = syms.last();
        let all = syms.flatten();
        assert forall|i: int| 0 <= i < head.len() implies byte_of(#[trigger] head[i]) is Some by {
            assert(byte_of(all[i]) is Some);
        }
        assert forall|i: int| 0 <= i < last.len() implies byte_of(#[trigger] last[i]) is Some by {
            assert(byte_of(all[head.len() + i]) is Some);
        }
        lemma_symbols_have_ids(tokens, syms.drop_last());
        lemma_letters_have_ids(tokens, last);
    }
}

proof fn lemma_words_have_ids(m: Bpe, words: Seq<Seq<char>>)
    requires
        has_all_letters(m.tokens),
    ensures
        words_ids(m, words).1 is None,
    decreases words.len(),
{
    if words.len() > 0 {
        lemma_words_have_ids(m, words.drop_last());
        let bytes = encode_utf8(words.last());
        law_merging_keeps_text(m.merges, singles(letters(bytes)));
        lemma_singles_flatten(letters(bytes));
        lemma_letters_back(bytes);
        lemma_symbols_have_ids(m.tokens, word_symbols(m.merges, words.last()));
    }
}

/// With a vocabulary that has a token for the letter of every byte, every text can be encoded.
pub proof fn law_full_alphabet_encodes_all(m: Bpe, text: Seq<char>)
    requires
        has_all_letters(m.tokens),
    ensures
        encoding(m, text).1 is None,
{
    assert(m.tokens.contains(seq![letter_of(0u8)]));
    lemma_words_have_ids(m, words_of(text, m.pre));
}

/// A symbol that is a token becomes that token alone, the last of those with its text; one that is
/// none becomes the tokens of its letters, one for each, as far as they are tokens.
pub proof fn law_symbols_become_tokens(tokens: Seq<Seq<char>>, sym: Seq<char>, i: int)
    requires
        tokens.len() <= 0x1_0000_0000,
    ensures
        0 <= i < tokens.len() && tokens[i] == sym && (forall|j: int|
            i < j < tokens.len() ==> #[trigger] tokens[j] != sym) ==> symbol_ids(tokens, sym) == (
            seq![i as u32],
            true,
        ),
        !tokens.contains(sym) && (forall|j: int|
            0 <= j < sym.len() ==> tokens.contains(seq![#[trigger] sym[j]])) ==> {
            let ids = symbol_ids(tokens, sym).0;
            &&& symbol_ids(tokens, sym).1
            &&& ids.len() == sym.len()
            &&& forall|j: int|
                0 <= j < sym.len() ==> (#[trigger] ids[j]) < tokens.len() && tokens[ids[j] as int]
                    == seq![sym[j]]
        },
{
    lemma_id_of(tokens, sym);
    if 0 <= i < tokens.len() && tokens[i] == sym && (forall|j: int|
        i < j < tokens.len() ==> #[trigger] tokens[j] != sym) {
        assert(last_token(tokens, sym, i));
    }
    if !tokens.contains(sym) && (forall|j: int|
        0 <= j < sym.len() ==> tokens.contains(seq![#[trigger] sym[j]])) {
        lemma_letters_found(tokens, sym);
    }
}

proof fn lemma_letters_found(tokens: Seq<Seq<char>>, sym: Seq<char>)
    requires
        tokens.len() <= 0x1_0000_0000,
        forall|j: int| 0 <= j < sym.len() ==> tokens.contains(seq![#[trigger] sym[j]]),
    ensures
        letter_ids(tokens, sym).1,
        letter_ids(tokens, sym).0.len() == sym.len(),
        forall|j: int|
            0 <= j < sym.len() ==> (#[trigger] letter_ids(tokens, sym).0[j]) < tokens.len()
                && tokens[letter_ids(tokens, sym).0[j] as int] == seq![sym[j]],
    decreases sym.len(),
{
    if sym.len() > 0 {
        let front = sym.drop_last();
        assert forall|j: int| 0 <= j < front.len() implies tokens.contains(
            seq![#[trigger] front[j]],
        ) by {
            assert(front[j] == sym[j]);
        }
        lemma_letters_found(tokens, front);
        let one = seq![sym.last()];
        assert(sym[sym.len() - 1] == sym.last());
        lemma_id_of(tokens, one);
        let c = choose|c: int| #[trigger] last_token(tokens, one, c);
        let ids = letter_ids(tokens, sym).0;
        assert forall|j: int| 0 <= j < sym.len() implies (#[trigger] ids[j]) < tokens.len()
            && tokens[ids[j] as int] == seq![sym[j]] by {
            if j < sym.len() - 1 {
                assert(ids[j] == letter_ids(tokens, front).0[j]);
                assert(front[j] == sym[j]);
            }
        }
    }
}

/// Which tokens are heard: those of types 2, 3 and 5 stand for nothing, those of type 4 for their
/// own text, and all others for the bytes of their letters.
pub proof fn law_types_decide_what_is_heard(m: Bpe, id: u32)
    requires
        id < m.tokens.len(),
        m.types.len() == m.tokens.len(),
        all_letters(m.tokens[id as int]),
    ensures
        ({
            let t = m.types[id as int];
            let piece = m.tokens[id as int];
            decoding(m, seq![id]) == (
                if t == 2 || t == 3 || t == 5 {
                    Seq::empty()
                } else if t == 4 {
                    encode_utf8(piece)
                } else {
                    bytes_of_letters(piece)
                },
                None::<TokenFault>,
            )
        }),
{
    let ids = seq![id];
    assert(ids.drop_last() =~= Seq::<u32>::empty());
    assert(decoding(m, ids.drop_last()) == (Seq::<u8>::empty(), None::<TokenFault>));
    let (more, fault) = token_bytes(m, id);
    assert(Seq::<u8>::empty() + more =~= more);
    lemma_letter_bytes_all(m.tokens[id as int]);
}

proof fn lemma_letter_bytes_all(piece: Seq<char>)
    requires
        all_letters(piece),
    ensures
        letter_bytes(piece) == (bytes_of_letters(piece), true),
    decreases piece.len(),
{
    if piece.len() > 0 {
        let front = piece.drop_last();
        assert forall|i: int| 0 <= i < front.len() implies byte_of(#[trigger] front[i]) is Some by {
            assert(front[i] == piece[i]);
        }
        lemma_letter_bytes_all(front);
        assert(byte_of(piece[piece.len() - 1]) is Some);
        assert(bytes_of_letters(piece) =~= bytes_of_letters(front).push(byte_of(piece.last())->0));
    } else {
        assert(bytes_of_letters(piece) =~= Seq::<u8>::empty());
    }
}

/// The tokens of joined lists of words are those of the first and then those of the second, as far
/// as the first can be encoded.
pub proof fn law_words_are_encoded_one_by_one(m: Bpe, a: Seq<Seq<char>>, b: Seq<Seq<char>>)
    ensures
        words_ids(m, a + b) == if words_ids(m, a).1 is None {
            (words_ids(m, a).0 + words_ids(m, b).0, words_ids(m, b).1)
        } else {
            words_ids(m, a)
        },
    decreases b.len(),
{
    if b.len() == 0 {
        assert(a + b =~= a);
        assert(words_ids(m, a).0 + Seq::<u32>::empty() =~= words_ids(m, a).0);
    } else {
        law_words_are_encoded_one_by_one(m, a, b.drop_last());
        assert((a + b).drop_last() =~= a + b.drop_last());
        assert((a + b).last() == b.last());
        let x = words_ids(m, a).0;
        let y = words_ids(m, b.drop_last()).0;
        let z = symbols_ids(m.tokens, word_symbols(m.merges, b.last())).0;
        assert((x + y) + z =~= x + (y + z));
    }
}

} // verus!
