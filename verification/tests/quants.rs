use unltd_inference::ieee::F32;
use unltd_inference::quants;
use unltd_inference::tensor::{embedding_lookup, DType, TensorView};

fn f16_to_f32(h: u16) -> f32 {
    f32::from_bits(quants::f16_to_f32(h).bits)
}

fn nearest_int(x: f32) -> i32 {
    quants::nearest_int((x + 12582912.0f32).to_bits())
}

#[test]
fn f16_to_f32_known_patterns() {
    assert_eq!(f16_to_f32(0x3C00), 1.0);
    assert_eq!(f16_to_f32(0x4000), 2.0);
    assert_eq!(f16_to_f32(0xC000), -2.0);
    assert_eq!(f16_to_f32(0x0000), 0.0);
    assert_eq!(f16_to_f32(0x8000).to_bits(), 0x8000_0000);
    assert!(f16_to_f32(0x7C00).is_infinite() && f16_to_f32(0x7C00) > 0.0);
    assert!(f16_to_f32(0xFC00).is_infinite() && f16_to_f32(0xFC00) < 0.0);
    assert!(f16_to_f32(0x7E00).is_nan());
    assert_eq!(f16_to_f32(0x0001), 2f32.powi(-24));
    assert_eq!(f16_to_f32(0x03FF), 2f32.powi(-14) - 2f32.powi(-24));
    assert_eq!(f16_to_f32(0x7BFF), 65504.0);
    assert_eq!(f16_to_f32(0x3555), 0.333_251_953_125);
}

#[test]
fn nearest_int_replicates_ggml_magic() {
    assert_eq!(nearest_int(0.0), 0);
    assert_eq!(nearest_int(2.5), 2);
    assert_eq!(nearest_int(3.5), 4);
    assert_eq!(nearest_int(-3.5), -4);
    assert_eq!(nearest_int(126.7), 127);
    assert_eq!(nearest_int(-126.7), -127);
    assert_eq!(nearest_int(0.5), 0);
    assert_eq!(nearest_int(1.5), 2);
}

#[test]
fn embedding_lookup_copies_rows() {
    let table: Vec<f32> = (0..12).map(|i| i as f32 * 10.0 + (i % 3) as f32).collect();
    let mut out = [0.0f32; 9];
    embedding_lookup(&mut out, &table, &[0, 3, 1], 3);
    assert_eq!(&out[0..3], &table[0..3]);
    assert_eq!(&out[3..6], &table[9..12]);
    assert_eq!(&out[6..9], &table[3..6]);
}

#[test]
fn sizes_of_elements_and_views() {
    assert_eq!(DType::F32.elem_bytes(), Some(4));
    assert_eq!(DType::BF16.elem_bytes(), Some(2));
    assert_eq!(DType::U8.elem_bytes(), Some(1));
    assert_eq!(DType::Q6K.elem_bytes(), None);
    let shape = [3usize, 4, 5];
    let view = TensorView { dtype: DType::U8, shape: &shape, data: &[] };
    assert_eq!(view.numel(), 60);
}

#[test]
fn activations_are_capped_bytes() {
    assert_eq!(quants::activation_byte(130), 127);
    assert_eq!(quants::activation_byte(-128), -128);
    let b = quants::q8_k_block(F32::from_bits(0), (0..256).map(|i| (i % 7) as i8 - 3).collect());
    assert_eq!(b.bsums.len(), 16);
    let want: i32 = (16..32).map(|i| (i % 7) - 3).sum();
    assert_eq!(b.bsums[1], want);
}
