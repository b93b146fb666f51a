use unltd_inference::error::{LoadError, WeightId};
use unltd_inference::gguf::source::{pos, read_checked, ByteSource};
use unltd_inference::gguf::{
    ggml_type_blocksize, ggml_type_name, parse, GgufArray, GgufReader, GgufValue, GgufValueType,
    WeightIndex,
};
use unltd_inference::ieee::{F32, F64};
use unltd_inference::weights::MappedWeights;
struct W(Vec<u8>);

impl W {
    fn new() -> Self {
        W(Vec::new())
    }
    fn u32(mut self, v: u32) -> Self {
        self.0.extend_from_slice(&v.to_le_bytes());
        self
    }
    fn u64(mut self, v: u64) -> Self {
        self.0.extend_from_slice(&v.to_le_bytes());
        self
    }
    fn raw(mut self, b: &[u8]) -> Self {
        self.0.extend_from_slice(b);
        self
    }
    fn str(mut self, s: &str) -> Self {
        self = self.u64(s.len() as u64);
        self.raw(s.as_bytes())
    }
    fn pad_to(mut self, target: usize) -> Self {
        assert!(self.0.len() <= target, "pad_to: already past {target}");
        self.0.resize(target, 0);
        self
    }
    fn finish(self) -> Vec<u8> {
        self.0
    }
}

fn parse_bytes(b: &[u8]) -> Result<GgufReader, LoadError> {
    parse(b, b.len() as u64)
}

fn fixture_valid() -> Vec<u8> {
    let header = W::new()
        .raw(b"GGUF")
        .u32(3)
        .u64(2)
        .u64(2)
        .str("general.architecture")
        .u32(8)
        .str("llama")
        .str("test.counts")
        .u32(9)
        .u32(4)
        .u64(3)
        .u32(10)
        .u32(20)
        .u32(30)
        .str("tok_embd.weight")
        .u32(2)
        .u64(4)
        .u64(3)
        .u32(0)
        .u64(0)
        .str("norm.weight")
        .u32(1)
        .u64(33)
        .u32(8)
        .u64(64);
    let data_start = (header.0.len() as u64 + 31) / 32 * 32;
    assert_eq!(data_start, 224);
    header
        .pad_to((data_start + 64 + 68) as usize)
        .finish()
}

#[test]
fn parses_valid_v3() {
    let b = fixture_valid();
    let g = parse_bytes(&b).unwrap();
    assert_eq!(g.version, 3);
    assert_eq!(g.file_size, b.len() as u64);
    assert_eq!(g.data_start, 224);
    assert_eq!(g.metadata.len(), 2);
    assert_eq!(g.get_str("general.architecture"), Some("llama"));
    match g.get("test.counts") {
        Some(GgufValue::Arr(GgufArray::U32(v))) => assert_eq!(v, &[10, 20, 30]),
        other => panic!("unexpected value: {other:?}"),
    }
    assert_eq!(g.tensors().len(), 2);
    let t0 = &g.tensors()[0];
    assert_eq!(t0.name, "tok_embd.weight");
    assert_eq!(t0.shape, vec![4, 3]);
    assert_eq!(t0.n_elements, 12);
    assert_eq!(t0.nbytes, Some(48));
    assert_eq!(t0.dtype, "F32");
    assert_eq!(t0.offset, 224);
    let t1 = &g.tensors()[1];
    assert_eq!(t1.shape, vec![33]);
    assert_eq!(t1.nbytes, Some(68));
    assert_eq!(t1.dtype, "Q8_0");
    assert_eq!(t1.offset, 288);
    let idx = &g;
    assert_eq!(WeightIndex::len(idx), 2);
    assert!(WeightIndex::find(idx, "tok_embd.weight").is_some());
    assert!(WeightIndex::find(idx, "ausente").is_none());
}

#[test]
fn rejects_bad_magic() {
    let b = W::new().raw(b"NOPE").u32(3).u64(0).u64(0).finish();
    match parse_bytes(&b) {
        Err(LoadError::BadMagic { magic }) => assert_eq!(&magic, b"NOPE"),
        Err(other) => panic!("unexpected: {other:?}"),
        Ok(_) => panic!("unexpected: accepted"),
    }
}

#[test]
fn rejects_unsupported_version() {
    for v in [1u32, 4u32] {
        let b = W::new().raw(b"GGUF").u32(v).u64(0).u64(0).finish();
        match parse_bytes(&b) {
            Err(LoadError::UnsupportedVersion(got)) => assert_eq!(got, v),
            Err(other) => panic!("unexpected: {other:?}"),
        Ok(_) => panic!("unexpected: accepted"),
        }
    }
}

#[test]
fn rejects_implausible_counts() {
    let b = W::new().raw(b"GGUF").u32(3).u64(0).u64(1 << 40).finish();
    assert!(matches!(parse_bytes(&b), Err(LoadError::BadFile(_))));
    let b = W::new().raw(b"GGUF").u32(3).u64(1 << 40).u64(0).finish();
    assert!(matches!(parse_bytes(&b), Err(LoadError::BadFile(_))));
}

#[test]
fn rejects_truncated_file() {
    let full = fixture_valid();
    let b = &full[..full.len() / 2];
    assert!(matches!(parse_bytes(b), Err(LoadError::BadFile(_))));
}

#[test]
fn rejects_huge_string_len() {
    let b = W::new()
        .raw(b"GGUF")
        .u32(3)
        .u64(0)
        .u64(1)
        .u64(1 << 50)
        .finish();
    assert!(matches!(parse_bytes(&b), Err(LoadError::BadFile(_))));
}

fn header_one_tensor(name: &str, n_dims: u32, dims: &[u64], ggml_type: u32, raw_offset: u64) -> Vec<u8> {
    let mut w = W::new()
        .raw(b"GGUF")
        .u32(3)
        .u64(1)
        .u64(0)
        .str(name)
        .u32(n_dims);
    for &d in dims {
        w = w.u64(d);
    }
    w.u32(ggml_type).u64(raw_offset).finish()
}

#[test]
fn rejects_zero_dims_and_zero_elements() {
    let b = W::new()
        .raw(b"GGUF")
        .u32(3)
        .u64(1)
        .u64(0)
        .str("w")
        .u32(0)
        .finish();
    assert!(matches!(parse_bytes(&b), Err(LoadError::BadFile(_))));

    let b = W::new()
        .raw(b"GGUF")
        .u32(3)
        .u64(1)
        .u64(0)
        .str("w")
        .u32(1)
        .u64(0)
        .u32(0)
        .u64(0)
        .finish();
    assert!(matches!(parse_bytes(&b), Err(LoadError::BadFile(_))));
}

#[test]
fn rejects_tensor_out_of_bounds() {
    let b = header_one_tensor("w", 1, &[4], 0, 0);
    match parse_bytes(&b) {
        Err(LoadError::TensorOutOfBounds { name, offset, file_size, .. }) => {
            assert_eq!(name, "w");
            assert_eq!(offset, 64);
            assert_eq!(file_size, 57);
        }
        Err(other) => panic!("unexpected: {other:?}"),
        Ok(_) => panic!("unexpected: accepted"),
    }
}

#[test]
fn rejects_misaligned_tensor() {
    let b = header_one_tensor("w", 1, &[4], 0, 100);
    match parse_bytes(&b) {
        Err(LoadError::MisalignedTensor { name, offset, align }) => {
            assert_eq!(name, "w");
            assert_eq!(offset, 164);
            assert_eq!(align, 32);
        }
        Err(other) => panic!("unexpected: {other:?}"),
        Ok(_) => panic!("unexpected: accepted"),
    }
}

#[test]
fn rejects_overlapping_tensors() {
    let b = W::new()
        .raw(b"GGUF")
        .u32(3)
        .u64(2)
        .u64(0)
        .str("a")
        .u32(1)
        .u64(4)
        .u32(0)
        .u64(0)
        .str("b")
        .u32(1)
        .u64(4)
        .u32(0)
        .u64(0)
        .pad_to(128)
        .finish();
    match parse_bytes(&b) {
        Err(LoadError::TensorOverlap { a, b: b2, .. }) => {
            assert_eq!(a, "a");
            assert_eq!(b2, "b");
        }
        Err(other) => panic!("unexpected: {other:?}"),
        Ok(_) => panic!("unexpected: accepted"),
    }
}

fn three_tensors(first_kind: u32, middle_kind: u32, last_offset: u64) -> Vec<u8> {
    W::new()
        .raw(b"GGUF")
        .u32(3)
        .u64(3)
        .u64(0)
        .str("a")
        .u32(1)
        .u64(24)
        .u32(first_kind)
        .u64(0)
        .str("b")
        .u32(1)
        .u64(4)
        .u32(middle_kind)
        .u64(32)
        .str("c")
        .u32(1)
        .u64(8)
        .u32(0)
        .u64(last_offset)
        .pad_to(288)
        .finish()
}

#[test]
fn a_tensor_of_unknown_size_hides_no_overlap() {
    match parse_bytes(&three_tensors(0, 999, 64)) {
        Err(LoadError::TensorOverlap { a, b, a_end, b_start }) => {
            assert_eq!((a.as_str(), b.as_str()), ("a", "c"));
            assert_eq!(a_end, b_start + 32);
        }
        Err(other) => panic!("unexpected: {other:?}"),
        Ok(_) => panic!("unexpected: accepted"),
    }
    // Behind the end of the first there is room, and a first of unknown size takes none.
    assert!(parse_bytes(&three_tensors(0, 999, 96)).is_ok());
    assert!(parse_bytes(&three_tensors(999, 0, 64)).is_ok());
    match parse_bytes(&three_tensors(999, 0, 32)) {
        Err(LoadError::TensorOverlap { a, b, .. }) => {
            assert_eq!((a.as_str(), b.as_str()), ("b", "c"));
        }
        Err(other) => panic!("unexpected: {other:?}"),
        Ok(_) => panic!("unexpected: accepted"),
    }
}

#[test]
fn known_sizes_add_up_within_the_file() {
    let b = three_tensors(0, 999, 96);
    let g = parse_bytes(&b).unwrap();
    assert_eq!(g.tensor_bytes_summary(), (96 + 32, 1));
    assert!(g.tensor_bytes_summary().0 <= g.file_size);
    // As tight as it gets: the data fill the file behind the header.
    let full = parse_bytes(&three_tensors(0, 999, 96)[..256]).unwrap();
    assert_eq!(full.tensor_bytes_summary().0 + full.data_start, full.file_size);
}

#[test]
fn the_front_of_a_file_decides() {
    let b = three_tensors(0, 999, 96);
    let size = b.len() as u64;
    let whole = parse(&b, size).unwrap();
    for k in 0..b.len() {
        match parse(&b[..k], size) {
            Ok(g) => {
                assert_eq!(g.data_start, whole.data_start);
                assert_eq!(g.tensors()[2].offset, whole.tensors()[2].offset);
                assert!(k >= 24 + 3 * 33);
            }
            Err(e) => {
                assert!(e.message().starts_with("corrupt file: truncated file: unexpected EOF"));
                assert!(k < 24 + 3 * 33);
            }
        }
    }
    // A refusal for another reason stays as well.
    let mut bad = b.clone();
    bad[4] = 9;
    assert_eq!(
        parse(&bad[..8], size).err().unwrap().message(),
        parse(&bad, size).err().unwrap().message()
    );
}

#[test]
fn a_refused_read_stays_where_it_was() {
    let data = [1u8, 2, 3, 4];
    let mut r = ByteSource { data: &data, at: 0 };
    assert_eq!(read_checked(&mut r, 3, 4).unwrap(), &[1, 2, 3]);
    assert_eq!(pos(&r), 3);
    assert!(read_checked(&mut r, 2, 4).is_err());
    assert!(read_checked(&mut r, 2, 9).is_err());
    assert!(read_checked(&mut r, u64::MAX, u64::MAX).is_err());
    assert_eq!(pos(&r), 3);
    assert_eq!(read_checked(&mut r, 1, 4).unwrap(), &[4]);
}

#[test]
fn a_size_that_cannot_be_counted_is_refused() {
    for (elements, kind) in [(u64::MAX, 0), (u64::MAX, 12), (u64::MAX - 254, 12), (u64::MAX / 2, 0)] {
        let b = header_one_tensor("w", 1, &[elements], kind, 0);
        assert_eq!(
            parse_bytes(&b).err().unwrap().message(),
            "corrupt file: tensor 'w': byte count overflows u64"
        );
    }
    // One element fewer and the count can be rounded up: the data are then behind the file.
    let b = header_one_tensor("w", 1, &[u64::MAX - 255], 12, 0);
    assert!(matches!(parse_bytes(&b), Err(LoadError::TensorOutOfBounds { .. })));
}

#[test]
fn tolerates_unknown_type_without_guessing() {
    let b = header_one_tensor("w", 1, &[4], 999, 0);
    let g = parse_bytes(&b).unwrap();
    assert_eq!(g.tensors()[0].nbytes, None);
    assert_eq!(g.tensors()[0].dtype, "unknown(999)");
    assert_eq!(g.tensor_bytes_summary(), (0, 1));
    assert_eq!(g.unknown_type_tensors().len(), 1);
}

#[test]
fn rejects_unknown_value_type() {
    let b = W::new()
        .raw(b"GGUF")
        .u32(3)
        .u64(0)
        .u64(1)
        .str("k")
        .u32(77)
        .finish();
    assert!(matches!(parse_bytes(&b), Err(LoadError::BadFile(_))));
}

#[test]
fn table_sizes_match_llama_cpp() {
    assert_eq!(ggml_type_blocksize(0), Some((4, 1)));
    assert_eq!(ggml_type_blocksize(1), Some((2, 1)));
    assert_eq!(ggml_type_blocksize(30), Some((2, 1)));
    assert_eq!(ggml_type_blocksize(8), Some((34, 32)));
    assert_eq!(ggml_type_blocksize(12), Some((144, 256)));
    assert_eq!(ggml_type_blocksize(14), Some((210, 256)));
    assert_eq!(ggml_type_blocksize(15), Some((292, 256)));
    assert_eq!(ggml_type_blocksize(31), None);
    assert_eq!(ggml_type_blocksize(34), Some((54, 256)));
    assert_eq!(ggml_type_blocksize(999), None);
}

// ---- Weights --------------------------------------------------------------------------------

#[test]
fn tensor_slices_are_the_file_bytes() {
    let mut b = fixture_valid();
    b[224] = 0xAB;
    b[230] = 0xCD;
    b[300] = 0xEF;
    let mw = MappedWeights::open(&b).unwrap();
    assert_eq!(mw.file_size(), b.len() as u64);

    let t0 = mw.tensor("tok_embd.weight").unwrap();
    assert_eq!(t0.len(), 48);
    assert_eq!(t0[0], 0xAB);
    assert_eq!(t0[6], 0xCD);
    let t1 = mw.tensor("norm.weight").unwrap();
    assert_eq!(t1.len(), 68);
    assert_eq!(t1[12], 0xEF);
}

#[test]
fn tensor_none_for_absent() {
    let b = fixture_valid();
    let mw = MappedWeights::open(&b).unwrap();
    assert!(mw.tensor("no.existe").is_none());
}

#[test]
fn tensor_checked_refusals() {
    let b = fixture_valid();
    let mw = MappedWeights::open(&b).unwrap();

    let t0 = mw.tensor_checked("tok_embd.weight", 12).unwrap();
    assert_eq!(t0.len(), 48);

    match mw.tensor_checked("tok_embd.weight", 13) {
        Err(LoadError::ElementCount { name, got, want }) => {
            assert_eq!(name, "tok_embd.weight");
            assert_eq!((got, want), (12, 13));
        }
        other => panic!("expected ElementCount, got {other:?}"),
    }

    match mw.tensor_checked("no.existe", 1) {
        Err(LoadError::MissingTensor { name }) => assert_eq!(name, "no.existe"),
        other => panic!("expected MissingTensor, got {other:?}"),
    }
}

#[test]
fn open_refuses_truncated_file() {
    let b = fixture_valid();
    assert!(MappedWeights::open(&b[..b.len() - 40]).is_err());
}

#[test]
fn a_tensor_of_unknown_size_has_no_bytes() {
    let b = header_one_tensor("w", 1, &[4], 999, 0);
    let mw = MappedWeights::open(&b).unwrap();
    assert!(mw.tensor("w").is_none());
    assert!(matches!(
        mw.tensor_checked("w", 4),
        Err(LoadError::UnknownGgmlType(999))
    ));
}

// ---- Every refusal --------------------------------------------------------------------------

#[test]
fn refusals_say_what_was_found() {
    let b = W::new().raw(b"NOPE").u32(3).u64(0).u64(0).finish();
    assert_eq!(
        parse_bytes(&b).err().unwrap().message(),
        "not a GGUF file: bad magic [4E, 4F, 50, 45] (expected 'GGUF')"
    );
    let b = W::new().raw(b"GGUF").u32(4).u64(0).u64(0).finish();
    assert_eq!(
        parse_bytes(&b).err().unwrap().message(),
        "unsupported GGUF version 4 (supported: 2 and 3)"
    );
    let b = header_one_tensor("w", 1, &[4], 0, 100);
    assert_eq!(
        parse_bytes(&b).err().unwrap().message(),
        "tensor 'w' at offset 164 is not aligned to 32 bytes"
    );
    let b = header_one_tensor("w", 1, &[4], 0, 0);
    assert_eq!(
        parse_bytes(&b).err().unwrap().message(),
        "tensor 'w' claims bytes [64, 64+16) beyond file size 57"
    );
}

#[test]
fn another_alignment_is_refused() {
    let file = |align: u32| {
        W::new()
            .raw(b"GGUF")
            .u32(3)
            .u64(0)
            .u64(1)
            .str("general.alignment")
            .u32(4)
            .u32(align)
            .finish()
    };
    assert!(parse_bytes(&file(32)).is_ok());
    assert!(matches!(parse_bytes(&file(64)), Err(LoadError::BadFile(_))));
}

#[test]
fn every_type_of_value_is_read() {
    let b = W::new()
        .raw(b"GGUF")
        .u32(2)
        .u64(0)
        .u64(12)
        .str("u8")
        .u32(0)
        .raw(&[200])
        .str("i8")
        .u32(1)
        .raw(&[200])
        .str("u16")
        .u32(2)
        .raw(&[1, 2])
        .str("i16")
        .u32(3)
        .raw(&[254, 255])
        .str("u32")
        .u32(4)
        .u32(70000)
        .str("i32")
        .u32(5)
        .u32(u32::MAX)
        .str("f32")
        .u32(6)
        .raw(&1.5f32.to_le_bytes())
        .str("bool")
        .u32(7)
        .raw(&[1])
        .str("string")
        .u32(8)
        .str("a\"b")
        .str("u64")
        .u32(10)
        .u64(u64::MAX)
        .str("i64")
        .u32(11)
        .u64(u64::MAX - 1)
        .str("f64")
        .u32(12)
        .raw(&(-0.5f64).to_le_bytes())
        .finish();
    let g = parse_bytes(&b).unwrap();
    let shown: Vec<String> = g.metadata.iter().map(|(_, v)| v.describe("1.5")).collect();
    assert_eq!(
        shown,
        vec![
            "u8 200",
            "i8 -56",
            "u16 513",
            "i16 -2",
            "u32 70000",
            "i32 -1",
            "f32 1.5",
            "bool true",
            "\"a\\\"b\"",
            "u64 18446744073709551615",
            "i64 -2",
            "f64 1.5",
        ]
    );
    assert_eq!(
        g.get("f32"),
        Some(&GgufValue::F32(F32::from_bits(1.5f32.to_bits())))
    );
    assert_eq!(
        g.get("f64"),
        Some(&GgufValue::F64(F64::from_bits((-0.5f64).to_bits())))
    );
    assert_eq!(g.get("absent"), None);
}

#[test]
fn text_that_is_not_utf8_is_mended_not_refused() {
    let b = W::new()
        .raw(b"GGUF")
        .u32(3)
        .u64(0)
        .u64(1)
        .str("k")
        .u32(8)
        .u64(3)
        .raw(&[0x61, 0xFF, 0x62])
        .finish();
    assert_eq!(parse_bytes(&b).unwrap().get_str("k"), Some("a\u{FFFD}b"));
}

#[test]
fn nested_arrays_are_refused() {
    let b = W::new()
        .raw(b"GGUF")
        .u32(3)
        .u64(0)
        .u64(1)
        .str("k")
        .u32(9)
        .u32(9)
        .u64(1)
        .u32(4)
        .u64(1)
        .u32(7)
        .finish();
    assert!(matches!(parse_bytes(&b), Err(LoadError::BadFile(_))));
}

#[test]
fn the_last_of_equal_names_is_found() {
    let b = W::new()
        .raw(b"GGUF")
        .u32(3)
        .u64(2)
        .u64(0)
        .str("a")
        .u32(1)
        .u64(4)
        .u32(0)
        .u64(0)
        .str("a")
        .u32(1)
        .u64(2)
        .u32(0)
        .u64(32)
        .pad_to(136)
        .finish();
    let g = parse_bytes(&b).unwrap();
    assert_eq!(WeightIndex::find(&g, "a").unwrap().n_elements, 2);
    assert_eq!(WeightIndex::len(&g), 2);
    assert!(!WeightIndex::is_empty(&g));
}

#[test]
fn names_of_tensor_types() {
    assert_eq!(ggml_type_name(0), "F32");
    assert_eq!(ggml_type_name(12), "Q4_K");
    assert_eq!(ggml_type_name(14), "Q6_K");
    assert_eq!(ggml_type_name(999), "unknown(999)");
}

#[test]
fn names_of_value_types() {
    assert_eq!(GgufValueType::from_id(8).unwrap().name(), "string");
    assert_eq!(GgufValueType::from_id(4).unwrap().elem_bytes(), 4);
    assert_eq!(GgufValueType::from_id(13), None);
}

#[test]
fn an_error_of_the_system_is_carried() {
    let e = LoadError::from(std::io::Error::new(std::io::ErrorKind::Other, "gone"));
    assert_eq!(e.message(), "i/o error: gone");
    assert_eq!(WeightId(7).label(), "w7");
}
