use unltd_inference::gguf::parse;
use unltd_inference::tokenizer::bpe::{bpe_merge, MergeRanks};
use unltd_inference::tokenizer::byte_table::byte_to_unicode;
use unltd_inference::tokenizer::classes::{classify, lower};
use unltd_inference::tokenizer::gpt2::{Gpt2Tokenizer, TokenError, Tokenizer};
use unltd_inference::tokenizer::split::{split_words, PreKind, RE_GPT2, RE_QWEN2, RE_QWEN35};
use unltd_inference::tokenizer::token_type;

const TOKENS: &[&str] = &[
    "Ġ",
    "The",
    "Ġcapital",
    "Ġof",
    "ĠFrance",
    "Ġis",
    "ĠParis",
    ".",
    "Ċ",
    "h",
    "e",
    "l",
    "o",
    "w",
    "a",
    "b",
    "c",
    "n",
    "'",
    "t",
    "r",
    "d",
    "y",
    "?",
    "<|endoftext|>",
    "<|im_end|>",
    "'t",
    "can",
];

const MERGES: &[&str] = &[
    "T h",
    "Th e",
    "Ġ c",
    "Ġc a",
    "Ġca p",
    "Ġcap i",
    "Ġcapi t",
    "Ġcapit a",
    "Ġcapita l",
    "Ġ o",
    "Ġo f",
    "Ġ F",
    "ĠF r",
    "ĠFr a",
    "ĠFra n",
    "ĠFran c",
    "ĠFranc e",
    "Ġ i",
    "Ġi s",
    "Ġ P",
    "ĠP a",
    "ĠPa r",
    "ĠPar i",
    "ĠPari s",
    "c a",
    "ca n",
    "' t",
];

fn fixture(pre: PreKind) -> Gpt2Tokenizer {
    let mut types = vec![token_type::NORMAL; TOKENS.len()];
    types[24] = token_type::USER_DEFINED;
    types[25] = token_type::CONTROL;
    let name = match pre {
        PreKind::Qwen35 => "qwen35",
        PreKind::Qwen2 => "qwen2",
        PreKind::Gpt2 => "default",
    };
    Gpt2Tokenizer::from_parts(
        TOKENS.iter().map(|s| s.to_string()).collect(),
        types,
        &MERGES.iter().map(|s| s.to_string()).collect(),
        pre,
        name.to_string(),
        Some(25),
        None,
    )
    .expect("a valid fixture")
}

fn encode(t: &Gpt2Tokenizer, text: &str) -> Vec<u32> {
    let mut out = Vec::new();
    t.encode(text, &mut out).expect("encode ok");
    out
}

fn decode(t: &Gpt2Tokenizer, ids: &[u32]) -> String {
    let mut out = Vec::new();
    t.decode(ids, &mut out).expect("decode ok");
    String::from_utf8(out).expect("decoded text is UTF-8")
}

#[test]
fn encode_oracle_prompt() {
    let t = fixture(PreKind::Qwen35);
    assert_eq!(encode(&t, "The capital of France is"), vec![1, 2, 3, 4, 5]);
}

#[test]
fn encode_decode_roundtrip() {
    let t = fixture(PreKind::Qwen35);
    for text in [
        "The capital of France is",
        "The capital of France is Paris.\nThe",
        "hello world",
    ] {
        let ids = encode(&t, text);
        assert_eq!(decode(&t, &ids), text, "round trip of {text:?}");
    }
}

#[test]
fn byte_fallback_chars() {
    let t = fixture(PreKind::Qwen35);
    assert_eq!(encode(&t, "hello"), vec![9, 10, 11, 11, 12]);
}

#[test]
fn contraction_split() {
    let t = fixture(PreKind::Qwen35);
    assert_eq!(encode(&t, "can't"), vec![27, 26]);
    assert_eq!(split_words("CAN'T", PreKind::Qwen35), vec!["CAN", "'T"]);
}

#[test]
fn contraction_case_sensitive_gpt2() {
    let t = fixture(PreKind::Gpt2);
    assert_eq!(encode(&t, "can't"), vec![27, 26]);
    let e = t.encode("CAN'T", &mut Vec::new()).unwrap_err();
    assert!(matches!(e, TokenError::PieceMissing(_)), "{e:?}");
}

#[test]
fn leading_space_word() {
    let t = fixture(PreKind::Qwen35);
    assert_eq!(encode(&t, " Paris"), vec![6]);
    assert_eq!(decode(&t, &[6]), " Paris");
}

#[test]
fn newline_piece() {
    let t = fixture(PreKind::Qwen35);
    assert_eq!(encode(&t, "a\nb"), vec![14, 8, 15]);
    assert_eq!(decode(&t, &[14, 8, 15]), "a\nb");
}

#[test]
fn mid_string_double_space() {
    let t = fixture(PreKind::Qwen35);
    assert_eq!(encode(&t, "a  b"), vec![14, 0, 0, 15]);
}

#[test]
fn trailing_whitespace_run() {
    let t = fixture(PreKind::Qwen35);
    assert_eq!(encode(&t, "a  "), vec![14, 0, 0]);
    assert_eq!(encode(&t, "a "), vec![14, 0]);
}

#[test]
fn decode_skips_control() {
    let t = fixture(PreKind::Qwen35);
    assert_eq!(decode(&t, &[1, 25, 7]), "The.");
}

#[test]
fn decode_user_defined_raw() {
    let t = fixture(PreKind::Qwen35);
    assert_eq!(decode(&t, &[24]), "<|endoftext|>");
}

#[test]
fn decode_id_out_of_range() {
    let t = fixture(PreKind::Qwen35);
    let mut out = Vec::new();
    let e = t.decode(&[999], &mut out).unwrap_err();
    assert!(matches!(e, TokenError::IdOutOfRange(999)));
}

#[test]
fn eos_bos_from_parts() {
    let t = fixture(PreKind::Qwen35);
    assert_eq!(t.eos(), Some(25));
    assert_eq!(t.bos(), None);
    assert_eq!(t.vocab_size(), TOKENS.len() as u32);
    assert_eq!(t.kind(), "gpt2");
    assert_eq!(t.piece(1), Some("The"));
    assert_eq!(t.piece(999), None);
    assert_eq!(t.pre(), "qwen35");
}

#[test]
fn encode_deterministic() {
    let t = fixture(PreKind::Qwen35);
    let text = "The capital of France is Paris.\nThe";
    assert_eq!(encode(&t, text), encode(&t, text));
}

#[test]
fn pre_kinds_agree_on_oracle_prompt() {
    for pre in [PreKind::Qwen35, PreKind::Qwen2, PreKind::Gpt2] {
        let t = fixture(pre);
        assert_eq!(
            encode(&t, "The capital of France is"),
            vec![1, 2, 3, 4, 5],
            "{pre:?}"
        );
    }
}

#[test]
fn symbols_and_digits() {
    let _t = fixture(PreKind::Qwen35);
    assert_eq!(
        split_words("ab 12!", PreKind::Qwen35),
        vec!["ab", " ", "1", "2", "!"]
    );
}

#[test]
fn qwen35_marks_glue() {
    assert_eq!(
        split_words("a\u{0301}b", PreKind::Qwen35),
        vec!["a\u{0301}b"]
    );
    assert_eq!(
        split_words("a\u{0301}b", PreKind::Qwen2),
        vec!["a", "\u{0301}b"]
    );
}

#[test]
fn symbol_eats_trailing_newline() {
    assert_eq!(split_words("a.\nb", PreKind::Qwen35), vec!["a", ".\n", "b"]);
    assert_eq!(
        split_words("a.\nb", PreKind::Gpt2),
        vec!["a", ".", "\n", "b"]
    );
}

#[test]
fn contraction_only_at_start() {
    assert_eq!(split_words("''s", PreKind::Qwen35), vec!["''", "s"]);
}

struct W(Vec<u8>);

impl W {
    fn new() -> Self {
        W(Vec::new())
    }
    fn u32(mut self, v: u32) -> Self {
        self.0.extend_from_slice(&v.to_le_bytes());
        self
    }
    fn u64(mut self, v: u64) -> Self {
        self.0.extend_from_slice(&v.to_le_bytes());
        self
    }
    fn raw(mut self, b: &[u8]) -> Self {
        self.0.extend_from_slice(b);
        self
    }
    fn str(mut self, s: &str) -> Self {
        self = self.u64(s.len() as u64);
        self.raw(s.as_bytes())
    }
    fn kv_str(self, k: &str, v: &str) -> Self {
        self.str(k).u32(8).str(v)
    }
    fn kv_arr_str(self, k: &str, items: &[&str]) -> Self {
        let mut w = self.str(k).u32(9).u32(8).u64(items.len() as u64);
        for s in items {
            w = w.str(s);
        }
        w
    }
    fn kv_arr_i32(self, k: &str, items: &[i32]) -> Self {
        let mut w = self.str(k).u32(9).u32(5).u64(items.len() as u64);
        for v in items {
            w = w.u32(*v as u32);
        }
        w
    }
    fn finish(self) -> Vec<u8> {
        self.0
    }
}

fn fixture_gguf(
    model: &str,
    pre: &str,
    tokens: &[&str],
    types: &[i32],
    _merges: &[&str],
) -> Vec<u8> {
    W::new()
        .raw(b"GGUF")
        .u32(3)
        .u64(0)
        .u64(5)
        .kv_str("general.architecture", "ornith")
        .kv_str("tokenizer.ggml.model", model)
        .kv_str("tokenizer.ggml.pre", pre)
        .kv_arr_str("tokenizer.ggml.tokens", tokens)
        .kv_arr_i32("tokenizer.ggml.token_type", types)
        .finish()
}

fn fixture_gguf_with_merges(
    model: &str,
    pre: &str,
    tokens: &[&str],
    types: &[i32],
    merges: &[&str],
) -> Vec<u8> {
    W::new()
        .raw(b"GGUF")
        .u32(3)
        .u64(0)
        .u64(6)
        .kv_str("general.architecture", "ornith")
        .kv_str("tokenizer.ggml.model", model)
        .kv_str("tokenizer.ggml.pre", pre)
        .kv_arr_str("tokenizer.ggml.tokens", tokens)
        .kv_arr_i32("tokenizer.ggml.token_type", types)
        .kv_arr_str("tokenizer.ggml.merges", merges)
        .finish()
}

fn fixture_types() -> Vec<i32> {
    TOKENS
        .iter()
        .enumerate()
        .map(|(i, _)| match i {
            24 => token_type::USER_DEFINED,
            25 => token_type::CONTROL,
            _ => token_type::NORMAL,
        })
        .collect()
}

#[test]
fn from_gguf_parses_fixture() {
    let types = fixture_types();
    let bytes = fixture_gguf_with_merges("gpt2", "qwen35", TOKENS, &types, MERGES);
    let r = parse(&bytes, bytes.len() as u64).expect("parse");
    let t = Gpt2Tokenizer::from_gguf(&r).expect("from_gguf");
    assert_eq!(encode(&t, "The capital of France is"), vec![1, 2, 3, 4, 5]);
    assert_eq!(decode(&t, &[1, 25, 7]), "The.");
}

#[test]
fn from_gguf_default_pre() {
    let types = fixture_types();
    let bytes = fixture_gguf_with_merges("gpt2", "default", TOKENS, &types, MERGES);
    let r = parse(&bytes, bytes.len() as u64).expect("parse");
    let t = Gpt2Tokenizer::from_gguf(&r).expect("from_gguf");
    assert_eq!(t.pre(), "default");
    assert_eq!(encode(&t, "The capital of France is"), vec![1, 2, 3, 4, 5]);
}

#[test]
fn from_gguf_refuses_unknown_model() {
    let types = fixture_types();
    let bytes = fixture_gguf_with_merges("llama", "qwen35", TOKENS, &types, MERGES);
    let r = parse(&bytes, bytes.len() as u64).expect("parse");
    let e = Gpt2Tokenizer::from_gguf(&r).err().expect("a refusal");
    assert!(e.message().contains("tokenizer.ggml.model"));
}

#[test]
fn from_gguf_refuses_unknown_pre() {
    let types = fixture_types();
    let bytes = fixture_gguf_with_merges("gpt2", "deepseek3", TOKENS, &types, MERGES);
    let r = parse(&bytes, bytes.len() as u64).expect("parse");
    let e = Gpt2Tokenizer::from_gguf(&r).err().expect("a refusal");
    assert!(e.message().contains("tokenizer.ggml.pre"));
}

#[test]
fn from_gguf_refuses_corrupt_piece() {
    let mut tokens: Vec<&str> = TOKENS.to_vec();
    tokens[0] = "\u{FFFD}";
    let types = fixture_types();
    let bytes = fixture_gguf_with_merges("gpt2", "qwen35", &tokens, &types, MERGES);
    let r = parse(&bytes, bytes.len() as u64).expect("parse");
    let e = Gpt2Tokenizer::from_gguf(&r).err().expect("a refusal");
    assert!(e.message().contains("byte-to-unicode"));
}

#[test]
fn from_gguf_refuses_missing_token_type() {
    let bytes = fixture_gguf("gpt2", "qwen35", TOKENS, &[], &[]);
    let r = parse(&bytes, bytes.len() as u64).expect("parse");
    let e = Gpt2Tokenizer::from_gguf(&r).err().expect("a refusal");
    assert!(e.message().contains("token_type"));
}

#[test]
fn regex_strings_pin() {
    assert_eq!(RE_QWEN35, "(?:'[sS]|'[tT]|'[rR][eE]|'[vV][eE]|'[mM]|'[lL][lL]|'[dD])|[^\\r\\n\\p{L}\\p{N}]?[\\p{L}\\p{M}]+|\\p{N}| ?[^\\s\\p{L}\\p{M}\\p{N}]+[\\r\\n]*|\\s*[\\r\\n]+|\\s+(?!\\S)|\\s+");
    assert_eq!(RE_QWEN2, "(?:'[sS]|'[tT]|'[rR][eE]|'[vV][eE]|'[mM]|'[lL][lL]|'[dD])|[^\\r\\n\\p{L}\\p{N}]?\\p{L}+|\\p{N}| ?[^\\s\\p{L}\\p{N}]+[\\r\\n]*|\\s*[\\r\\n]+|\\s+(?!\\S)|\\s+");
    assert_eq!(
        RE_GPT2,
        "'s|'t|'re|'ve|'m|'ll|'d| ?\\p{L}+| ?\\p{N}+| ?[^\\s\\p{L}\\p{N}]+|\\s+(?!\\S)"
    );
}

#[test]
fn byte_to_unicode_table() {
    let table = byte_to_unicode();
    assert_eq!(table.letter(65), 'A');
    assert_eq!(table.letter(32) as u32, 0x120);
    assert_eq!(table.letter(10) as u32, 0x10A);
    assert_eq!(table.letter(33), '!');
    assert_eq!(table.letter(255), 'ÿ');
    assert_eq!(table.byte('Ġ'), Some(32));
    assert_eq!(table.byte('Ċ'), Some(10));
    assert_eq!(table.byte('A'), Some(65));
}

#[test]
fn every_byte_has_its_own_letter() {
    let table = byte_to_unicode();
    for b in 0..=255u8 {
        assert_eq!(table.byte(table.letter(b)), Some(b));
        for c in 0..b {
            assert_ne!(table.letter(b), table.letter(c));
        }
    }
    assert_eq!(table.byte('\u{FFFD}'), None);
    assert_eq!(table.translate(&[72, 32, 10]), vec!['H', 'Ġ', 'Ċ']);
}

#[test]
fn characters_are_classified() {
    assert!(classify('a').letter);
    assert!(classify('7').number);
    assert!(classify('\u{0301}').mark);
    assert!(classify(' ').ws);
    assert!(!classify('!').letter && !classify('!').number && !classify('!').ws);
    assert_eq!(lower('T'), Some('t'));
    assert_eq!(lower('İ'), None);
}

#[test]
fn words_of_a_text_make_it_up() {
    for text in ["The capital of France is Paris.\nThe", "a  b\r\n\r\n c", "l'été 42 ¿qué?", ""] {
        for pre in [PreKind::Qwen35, PreKind::Qwen2, PreKind::Gpt2] {
            assert_eq!(split_words(text, pre).concat(), text);
        }
    }
}

#[test]
fn merges_go_by_rank_from_the_left() {
    let mut ranks = MergeRanks::new();
    ranks.push(&"b c".to_string(), 0);
    ranks.push(&"a b".to_string(), 1);
    assert!(ranks.has_line(&"a b".to_string()));
    assert!(!ranks.has_line(&"c d".to_string()));
    assert_eq!(ranks.rank(&vec!['a'], &vec!['b']), Some(1));
    assert_eq!(ranks.rank(&vec!['b'], &vec!['a']), None);
    let mut symbols = vec![vec!['a'], vec!['b'], vec!['c'], vec!['a'], vec!['b']];
    bpe_merge(&mut symbols, &ranks);
    assert_eq!(symbols, vec![vec!['a'], vec!['b', 'c'], vec!['a', 'b']]);
}

#[test]
fn token_errors_say_what_is_wrong() {
    assert_eq!(TokenError::NoVocab.message(), "tokenizer has no vocab");
    assert_eq!(
        TokenError::IdOutOfRange(9).message(),
        "input token id 9 out of range"
    );
    assert_eq!(
        TokenError::PieceMissing("a\"".to_string()).message(),
        "piece \"a\\\"\" not in vocab (char-level byte fallback failed too)"
    );
    assert_eq!(
        TokenError::BadPieceChar("x".to_string()).message(),
        "piece \"x\" contains a char outside the byte-to-unicode table"
    );
}

#[test]
fn an_empty_text_has_no_tokens() {
    let t = fixture(PreKind::Qwen35);
    assert_eq!(encode(&t, ""), Vec::<u32>::new());
    assert_eq!(decode(&t, &[]), "");
}

#[test]
fn the_heap_is_estimated_from_the_parts() {
    let t = Gpt2Tokenizer::from_parts(
        vec!["a".to_string(), "b".to_string(), "ab".to_string()],
        vec![1, 1, 1],
        &vec!["a b".to_string()],
        PreKind::Gpt2,
        "default".to_string(),
        None,
        None,
    )
    .unwrap();
    let tokens = (1 + 48) + (1 + 48) + (2 + 48);
    let vocab = tokens;
    let merges = 1 + 1 + 88;
    let chars = 2 * 48;
    let tables = 256 * 32 + 256 * 4;
    assert_eq!(t.heap_bytes(), tokens + vocab + merges + chars + tables + 3 * 4 + 7);
}

#[test]
fn a_vocabulary_with_every_letter_encodes_every_text() {
    let table = byte_to_unicode();
    let tokens: Vec<String> = (0..=255u8).map(|b| table.letter(b).to_string()).collect();
    let t = Gpt2Tokenizer::from_parts(
        tokens,
        vec![token_type::NORMAL; 256],
        &vec![],
        PreKind::Qwen2,
        "qwen2".to_string(),
        None,
        None,
    )
    .unwrap();
    for text in ["", "plain", "año\n\t 12", "日本語 \u{0301}\u{10FFFF}"] {
        let ids = encode(&t, text);
        assert_eq!(ids, text.bytes().map(u32::from).collect::<Vec<u32>>());
        assert_eq!(decode(&t, &ids), text);
    }
}

#[test]
fn joined_lists_decode_to_joined_text() {
    let t = fixture(PreKind::Qwen35);
    let ids = [1, 2, 3, 4, 5, 6];
    for k in 0..=ids.len() {
        let (a, b) = ids.split_at(k);
        assert_eq!(decode(&t, &ids), decode(&t, a) + &decode(&t, b));
    }
}

#[test]
fn the_first_strange_id_is_named() {
    let t = fixture(PreKind::Qwen35);
    let mut out = Vec::new();
    let e = t.decode(&[1, 28, 999], &mut out).unwrap_err();
    assert!(matches!(e, TokenError::IdOutOfRange(28)));
}

#[test]
fn parts_that_cannot_be_used_are_refused_in_words() {
    let make = |tokens: &[&str], merges: &[&str]| {
        Gpt2Tokenizer::from_parts(
            tokens.iter().map(|s| s.to_string()).collect(),
            vec![token_type::NORMAL; tokens.len()],
            &merges.iter().map(|s| s.to_string()).collect(),
            PreKind::Gpt2,
            "default".to_string(),
            None,
            None,
        )
        .err()
        .expect("a refusal")
        .message()
    };
    assert_eq!(
        make(&["a", "b\n"], &[]),
        "corrupt file: pieza 1 \"b\\n\": char '\\n' fuera de la tabla byte-to-unicode (vocab corrupto, no texto exótico)"
    );
    assert!(make(&["a"], &["ab"]).contains("\"ab\""));
}
