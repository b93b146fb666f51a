use unltd_inference::error::LoadError;
use unltd_inference::gguf::TensorMeta;
use unltd_inference::ieee::F32;
use unltd_inference::order::stable_order;
use unltd_inference::report::arguments::{
    choose_file, parse_tokens, refuse_decoding, refuse_encoding,
};
use unltd_inference::report::binary::{layers_bin, nodes_bin, read_floats};
use unltd_inference::report::compare::{Comparison, Mismatch};
use unltd_inference::report::inspect::{dims_text, greatest, size_text};
use unltd_inference::report::measure::{parse_measures, Measures};
use unltd_inference::session::{
    overwrite, split_queries, transpose_kernel, LayerDump, NodeCapture,
};
use unltd_inference::tokenizer::gpt2::TokenError;

fn f(x: f32) -> F32 {
    F32::from_bits(x.to_bits())
}

#[test]
fn token_lists_are_read() {
    assert_eq!(parse_tokens("760, 6511 ,314").unwrap(), vec![760, 6511, 314]);
    assert_eq!(parse_tokens("+4294967295").unwrap(), vec![u32::MAX]);
    let words = |s: &str| parse_tokens(s).unwrap_err().message();
    assert_eq!(
        words("1,,2"),
        "corrupt file: token inválido '': cannot parse integer from empty string"
    );
    assert_eq!(
        words("1, x,y"),
        "corrupt file: token inválido ' x': invalid digit found in string"
    );
    assert_eq!(
        words("4294967296"),
        "corrupt file: token inválido '4294967296': number too large to fit in target type"
    );
    for s in ["-1", "+", "1x", "99999999999x", "9x9999999999", "1 2"] {
        let want = match s.parse::<u32>() {
            Err(e) => format!("corrupt file: token inválido '{s}': {e}"),
            Ok(_) => unreachable!(),
        };
        assert_eq!(words(s), want);
    }
}

#[test]
fn untranslatable_text_is_refused_in_words() {
    assert_eq!(
        refuse_encoding(&TokenError::PieceMissing("x".into())).message(),
        "corrupt file: encode: pieza \"x\" fuera del vocab (fallback por char incluido)"
    );
    assert_eq!(
        refuse_encoding(&TokenError::NoVocab).message(),
        "corrupt file: encode: tokenizer has no vocab"
    );
    assert_eq!(
        refuse_decoding(&TokenError::IdOutOfRange(7)).message(),
        "corrupt file: decode: input token id 7 out of range"
    );
}

#[test]
fn measures_are_read_and_never_made_up() {
    assert_eq!(
        parse_measures("RSS 1000 900\r\nIO 77 3\r\n"),
        Measures { peak: Some(1000), now: Some(900), read: Some(77) }
    );
    assert_eq!(
        parse_measures("noise\n  RSS 5\nIO UNAVAILABLE because"),
        Measures { peak: Some(5), now: None, read: None }
    );
    assert_eq!(parse_measures(""), Measures { peak: None, now: None, read: None });
}

#[test]
fn tokens_are_held_against_expected_ones() {
    let mut c = Comparison::new(vec![5, 6, 7]);
    assert_eq!(c.n_forward(), 0);
    assert_eq!(c.expects(), Some(5));
    assert_eq!(c.take(5), (true, false));
    assert_eq!(c.verdict(), None);
    assert_eq!(c.take(9), (false, true));
    assert_eq!(c.take(7), (true, false));
    assert_eq!(c.expects(), None);
    assert_eq!(c.take(1), (false, false));
    assert_eq!(c.n_match(), 2);
    assert_eq!(c.n_forward(), 3);
    assert_eq!(c.generated(), &[5, 9, 7, 1]);
    assert_eq!(c.verdict(), Some(Mismatch { step: 1, got: 9, want: Some(6) }));
}

#[test]
fn tables_show_exact_sizes() {
    assert_eq!(dims_text(&[4096, 248320]), "4096x248320");
    assert_eq!(dims_text(&[33]), "33");
    assert_eq!(dims_text(&[]), "");
    assert_eq!(size_text(Some(18446744073709551615)), "18446744073709551615");
    assert_eq!(size_text(None), "?");
    let t = |nbytes: Option<u64>| TensorMeta {
        name: "t".into(),
        offset: 0,
        nbytes,
        dtype: "?".into(),
        ggml_type_id: 0,
        shape: vec![1],
        n_elements: 1,
    };
    let table = vec![t(Some(3)), t(None), t(Some(9)), t(Some(3)), t(Some(0))];
    assert_eq!(greatest(&table, 3), vec![2, 0, 3]);
    assert_eq!(greatest(&table, 9), vec![2, 0, 3, 1, 4]);
}

#[test]
fn sorting_keeps_equal_keys_in_order() {
    assert_eq!(stable_order(&vec![3, 1, 2, 1, 3, 0]), vec![5, 1, 3, 2, 0, 4]);
    assert_eq!(stable_order(&vec![]), Vec::<usize>::new());
}

#[test]
fn floats_are_written_and_read_back() {
    let dump = LayerDump {
        attn_residual: vec![f(3.0), f(4.0)],
        l_out: vec![f(1.0), f(2.0)],
        linear_attn_out: vec![f(-5.0), f(6.0)],
    };
    let b = layers_bin(&[dump], 2, 1);
    assert_eq!(&b[..12], &[2, 0, 0, 0, 1, 0, 0, 0, 1, 0, 0, 0]);
    let floats = read_floats("x", &b[12..], 6).unwrap();
    assert_eq!(floats, vec![f(1.0), f(3.0), f(-5.0), f(2.0), f(4.0), f(6.0)]);
    assert_eq!(&b[12..16], &1.0f32.to_le_bytes());
    assert_eq!(
        read_floats("a/b.bin", &b[12..], 7).unwrap_err().message(),
        "corrupt file: oráculo a/b.bin: 24 bytes, se esperaban 28"
    );
    assert!(matches!(read_floats("x", &[1], 0), Err(LoadError::BadFile(_))));
}

#[test]
fn nodes_are_written_with_their_names() {
    let mut c: NodeCapture<F32> = NodeCapture::new();
    c.begin_token();
    c.push_node(3, "z", &[f(1.0)]);
    c.push_node(3, "é", &[]);
    let b = nodes_bin(&[c, NodeCapture::new()]);
    let mut want: Vec<u8> = vec![2, 0, 0, 0, 2, 0, 0, 0, 3, 0, 0, 0];
    want.extend_from_slice(b"z-3");
    want.extend_from_slice(&[1, 0, 0, 0]);
    want.extend_from_slice(&1.0f32.to_le_bytes());
    want.extend_from_slice(&[4, 0, 0, 0]);
    want.extend_from_slice("é-3".as_bytes());
    want.extend_from_slice(&[0, 0, 0, 0, 0, 0, 0, 0]);
    assert_eq!(b, want);
}

#[test]
fn layer_dump_push_layout_is_layer_major() {
    let n = 4usize;
    let mut d = LayerDump {
        attn_residual: vec![0.0f32; 3 * n],
        l_out: vec![0.0f32; 3 * n],
        linear_attn_out: vec![0.0f32; 3 * n],
    };
    let l1 = vec![1.0f32; n];
    let r1 = vec![2.0f32; n];
    let c1 = vec![3.0f32; n];
    d.push(2, &l1, &r1, &c1);
    assert_eq!(&d.l_out[2 * n..3 * n], &l1[..]);
    assert_eq!(&d.attn_residual[2 * n..3 * n], &r1[..]);
    assert_eq!(&d.linear_attn_out[2 * n..3 * n], &c1[..]);
    assert!(d.l_out[..2 * n].iter().all(|&v| v == 0.0));
}

#[test]
fn rows_move_where_they_belong() {
    let mut v = vec![0, 1, 2, 3, 4];
    overwrite(&mut v, 1, &[8, 9]);
    assert_eq!(v, vec![0, 8, 9, 3, 4]);
    assert_eq!(transpose_kernel(&[1, 2, 3, 4, 5, 6], 2, 3), vec![1, 3, 5, 2, 4, 6]);
    let (q, g) = split_queries(&[1, 2, 3, 4, 5, 6, 7, 8], 2, 2);
    assert_eq!(q, vec![1, 2, 5, 6]);
    assert_eq!(g, vec![3, 4, 7, 8]);
}

#[test]
fn the_first_model_of_a_directory_is_chosen() {
    let names = |v: &[&str]| v.iter().map(|s| s.to_string()).collect::<Vec<String>>();
    assert_eq!(choose_file(&names(&["b.gguf", "a.txt", "aa.gguf", "ab.gguf"])), Some(2));
    assert_eq!(choose_file(&names(&["z.gguf", "Z.gguf", "é.gguf"])), Some(1));
    assert_eq!(choose_file(&names(&[".gguf", "gguf", "x.GGUF"])), None);
    assert_eq!(choose_file(&[]), None);
}
