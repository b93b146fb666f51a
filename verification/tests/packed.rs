use unltd_inference::ieee::F32;
use unltd_inference::kernels;
use unltd_inference::packed::{self, Q4Weight, Q6Weight};
use unltd_inference::quants::{self, Q8KBlock, BLOCK_Q4_K_BYTES, BLOCK_Q6_K_BYTES, QK_K};

fn f(x: F32) -> f32 {
    f32::from_bits(x.bits)
}

fn bits(v: &[f32]) -> Vec<F32> {
    v.iter().map(|x| F32::from_bits(x.to_bits())).collect()
}

fn f16_to_f32(h: u16) -> f32 {
    f(quants::f16_to_f32(h))
}

fn scale_min_k4(s: &[u8], g: usize) -> (u8, u8) {
    quants::scale_min_k4(s, g)
}

fn plus(a: f64, b: f64) -> f64 {
    a + b
}

fn dot_f32(x: &[f32], w: &[f32]) -> f64 {
    kernels::dot(x, w, &|x: f32, w: f32| x as f64 * w as f64, 0.0, &plus)
}

fn dot_q4_k(x: &[f32], w: &[u8]) -> f64 {
    let times = |x: f32, w: Q4Weight| {
        let (d, dmin) = (f(w.d) as f64, f(w.dmin) as f64);
        x as f64 * ((d * w.scale as f64) * w.bits as f64 - dmin * w.min as f64)
    };
    packed::dot_q4_k(x, w, &times, 0.0, &plus)
}

fn dot_q6_k(x: &[f32], w: &[u8]) -> f64 {
    let times = |x: f32, w: Q6Weight| {
        x as f64 * (f(w.d) as f64 * (w.scale as f64 * w.weight as f64))
    };
    packed::dot_q6_k(x, w, &times, 0.0, &plus)
}

fn dequantize_q4_k(out: &mut [f32], w: &[u8]) {
    let value =
        |w: Q4Weight| f(w.d) * w.scale as f32 * w.bits as f32 - f(w.dmin) * w.min as f32;
    out.copy_from_slice(&packed::dequantize_q4_k(w, out.len(), &value));
}

fn quantize_q8_k(x: &[f32]) -> Vec<Q8KBlock> {
    let level = |max: F32, x: F32| {
        let iscale = -127.0f32 / f(max);
        (iscale * f(x) + 12582912.0f32).to_bits()
    };
    let unit = |max: F32| {
        let iscale = -127.0f32 / f(max);
        F32::from_bits((1.0f32 / iscale).to_bits())
    };
    packed::quantize_q8_k(&bits(x), &level, &unit)
}

fn lane(acc: f32, d: (F32, F32), sum: i32) -> f32 {
    acc + (f(d.0) * f(d.1)) * sum as f32
}

fn less(acc: f32, d: (F32, F32), sum: i32) -> f32 {
    acc - (f(d.1) * f(d.0)) * sum as f32
}

fn onto(acc: f32, x: f32, _: f32) -> f32 {
    acc + x
}

fn dot_q4_k_q8_k(x: &[Q8KBlock], w: &[u8]) -> f32 {
    packed::dot_q4_k_q8_k(x, w, 0.0, &lane, &less, &onto)
}

fn dot_q6_k_q8_k(x: &[Q8KBlock], w: &[u8]) -> f32 {
    packed::dot_q6_k_q8_k(x, w, 0.0, &lane, &onto)
}

const F16_ONE: u16 = 0x3C00;
const F16_TWO: u16 = 0x4000;

#[test]
fn dot_f32_small_exact() {
    assert_eq!(dot_f32(&[1.0, 2.0, 3.0, 4.0], &[5.0, 6.0, 7.0, 8.0]), 70.0);
    assert_eq!(dot_f32(&[1.0, 2.0, 3.0], &[4.0, 5.0, 6.0]), 32.0);
}

#[test]
fn dequantize_q4_k_hand_values_and_multi_block() {
    let mut scales = [0u8; 12];
    scales[0] = 1;
    scales[4] = 3;
    scales[1] = 2;
    scales[5] = 1;
    let mut qs = [0u8; 128];
    qs[0] = 0x12;
    let block_a = q4_block(F16_ONE, F16_TWO, scales, qs);
    let block_b = q4_block(0x0000, 0x0000, [0; 12], [0xAB; 128]);
    let mut w = block_a.clone();
    w.extend_from_slice(&block_b);

    let mut out = vec![0.0f32; 512];
    dequantize_q4_k(&mut out, &w);

    assert_eq!(out[0], -4.0);
    assert_eq!(out[1], -6.0);
    assert_eq!(out[31], -6.0);
    assert_eq!(out[32], 0.0);
    assert_eq!(out[33], -2.0);
    for i in 64..256 {
        assert_eq!(out[i], 0.0, "elem {i}");
    }
    for i in 256..512 {
        assert_eq!(out[i], 0.0, "elem {i}");
    }

    let x = [0.5f32; 256];
    let exact = dot_q4_k(&x, &block_a);
    let via_deq = dot_f32(&x, &out[..256]);
    assert!(
        (via_deq - exact).abs() < 1e-4,
        "dot {exact} against {via_deq}"
    );
}

#[test]
fn dequantize_q4_k_matches_reference_formula_bitwise() {
    let scales: [u8; 12] = [0x1F, 0x2E, 0x3D, 0x4C, 0x5B, 0x6A, 0x79, 0x03, 0x92, 0x81, 0x70, 0x6F];
    let qs: [u8; 128] = std::array::from_fn(|i| (i * 7 + 3) as u8);
    let d_bits = 0x3B21u16;
    let dmin_bits = 0x2C10u16;
    let block = q4_block(d_bits, dmin_bits, scales, qs);

    let mut out = vec![0.0f32; 256];
    dequantize_q4_k(&mut out, &block);

    let d = f16_to_f32(d_bits);
    let min = f16_to_f32(dmin_bits);
    let mut e = 0usize;
    let mut is = 0usize;
    while is < 8 {
        let qs_pair = &qs[32 * (is / 2)..32 * (is / 2) + 32];
        for (g, shift) in [(is, 0u32), (is + 1, 4u32)] {
            let (sc, m) = scale_min_k4(&scales, g);
            let dg = d * sc as f32;
            let mg = min * m as f32;
            for l in 0..32 {
                let expected = dg * ((qs_pair[l] >> shift) & 0xF) as f32 - mg;
                assert_eq!(out[e].to_bits(), expected.to_bits(), "elem {e}");
                e += 1;
            }
        }
        is += 2;
    }
}

fn q4_block(d: u16, dmin: u16, scales: [u8; 12], qs: [u8; 128]) -> Vec<u8> {
    let mut b = Vec::with_capacity(BLOCK_Q4_K_BYTES);
    b.extend_from_slice(&d.to_le_bytes());
    b.extend_from_slice(&dmin.to_le_bytes());
    b.extend_from_slice(&scales);
    b.extend_from_slice(&qs);
    assert_eq!(b.len(), BLOCK_Q4_K_BYTES);
    b
}

fn q6_block(d: u16, ql: [u8; 128], qh: [u8; 64], scales: [i8; 16]) -> Vec<u8> {
    let mut b = Vec::with_capacity(BLOCK_Q6_K_BYTES);
    b.extend_from_slice(&ql);
    b.extend_from_slice(&qh);
    b.extend_from_slice(&scales.map(|s| s as u8));
    b.extend_from_slice(&d.to_le_bytes());
    assert_eq!(b.len(), BLOCK_Q6_K_BYTES);
    b
}

#[test]
fn q4_k_zero_block_and_hand_values() {
    let block = q4_block(F16_ONE, 0x0000, [0; 12], [0xFF; 128]);
    let x = [0.5f32; 256];
    assert_eq!(dot_q4_k(&x, &block), 0.0);

    let mut scales = [0u8; 12];
    scales[0] = 1;
    scales[4] = 3;
    let mut qs = [0u8; 128];
    qs[0] = 0x01;
    let block = q4_block(F16_ONE, F16_TWO, scales, qs);
    let mut x = [0.0f32; 256];
    x[0] = 1.0;
    assert_eq!(dot_q4_k(&x, &block), -5.0);
    x[0] = 0.0;
    x[1] = 1.0;
    assert_eq!(dot_q4_k(&x, &block), -6.0);

    let mut scales = [0u8; 12];
    scales[0] = 0xC0;
    scales[4] = 0x43;
    scales[8] = 0x31;
    let mut qs = [0u8; 128];
    qs[64] = 0x01;
    let block = q4_block(F16_ONE, F16_ONE, scales, qs);
    let mut x = [0.0f32; 256];
    x[128] = 1.0;
    assert_eq!(dot_q4_k(&x, &block), 30.0);
}

#[test]
fn q4_k_pairwise_tree_is_the_contract() {
    let mut scales = [0u8; 12];
    scales[0] = 1;
    let mut qs = [0u8; 128];
    qs[0] = 0x0A;
    qs[1] = 0x01;
    qs[2] = 0x0A;
    qs[3] = 0x01;
    let block = q4_block(F16_ONE, 0x0000, scales, qs);
    let mut x = [0.0f32; 256];
    x[0] = 1e19;
    x[1] = 1.0;
    x[2] = -1e19;
    x[3] = 1.0;
    assert_eq!(dot_q4_k(&x, &block), 0.0);
}

#[test]
fn q4_k_full_block_matches_layout_reference() {
    let mut qs = [0u8; 128];
    for (i, b) in qs.iter_mut().enumerate() {
        *b = i as u8;
    }
    let block = q4_block(F16_ONE, 0x0000, [1; 12], qs);
    let x: Vec<f32> = (0..256).map(|e| (e + 1) as f32).collect();
    let mut expected = 0.0f64;
    for e in 0..QK_K {
        let g = e / 32;
        let byte = qs[32 * (g / 2) + (e % 32)];
        let nib = if g % 2 == 0 { byte & 0xF } else { byte >> 4 };
        expected += (e + 1) as f64 * f64::from(nib);
    }
    assert_eq!(dot_q4_k(&x, &block), expected);
}

#[test]
fn q4_k_multiblock_stride() {
    let mut qs = [0u8; 128];
    qs[0] = 0x01;
    let b1 = q4_block(F16_ONE, 0x0000, [1; 12], qs);
    let b2 = q4_block(F16_TWO, 0x0000, [1; 12], qs);
    let mut w = b1;
    w.extend_from_slice(&b2);
    let x = [1.0f32; 512];
    assert_eq!(dot_q4_k(&x, &w), 1.0 + 2.0);
}

#[test]
fn q6_k_zero_block_and_hand_values() {
    let block = q6_block(F16_TWO, [0xFF; 128], [0xFF; 64], [0; 16]);
    let x = [0.5f32; 256];
    assert_eq!(dot_q6_k(&x, &block), 0.0);

    let mut ql = [0u8; 128];
    ql[0] = 0x01;
    let mut scales = [1i8; 16];
    scales[0] = 1;
    let block = q6_block(F16_TWO, ql, [0; 64], scales);
    let mut x = [0.0f32; 256];
    x[0] = 1.0;
    assert_eq!(dot_q6_k(&x, &block), -62.0);

    let mut ql = [0u8; 128];
    ql[32] = 0x03;
    let mut qh = [0u8; 64];
    qh[0] = 0x04;
    let mut scales = [0i8; 16];
    scales[2] = -1;
    let block = q6_block(F16_TWO, ql, qh, scales);
    let mut x = [0.0f32; 256];
    x[32] = 1.0;
    assert_eq!(dot_q6_k(&x, &block), 26.0);

    let mut ql = [0u8; 128];
    ql[0] = 0x50;
    let mut qh = [0u8; 64];
    qh[0] = 0x10;
    let mut scales = [0i8; 16];
    scales[4] = 3;
    let block = q6_block(F16_TWO, ql, qh, scales);
    let mut x = [0.0f32; 256];
    x[64] = 1.0;
    assert_eq!(dot_q6_k(&x, &block), -66.0);

    let mut ql = [0u8; 128];
    ql[32] = 0x70;
    let mut qh = [0u8; 64];
    qh[0] = 0x40;
    let mut scales = [1i8; 16];
    scales[6] = 1;
    let block = q6_block(F16_TWO, ql, qh, scales);
    let mut x = [0.0f32; 256];
    x[96] = 1.0;
    assert_eq!(dot_q6_k(&x, &block), -18.0);

    let mut ql = [0u8; 128];
    ql[64] = 0x02;
    let mut qh = [0u8; 64];
    qh[32] = 0x02;
    let mut scales = [0i8; 16];
    scales[8] = 5;
    let block = q6_block(F16_TWO, ql, qh, scales);
    let mut x = [0.0f32; 256];
    x[128] = 1.0;
    assert_eq!(dot_q6_k(&x, &block), 20.0);
}

#[test]
fn q6_k_pairwise_tree_is_the_contract() {
    let mut ql = [0u8; 128];
    ql[0] = 0x0A;
    ql[1] = 0x01;
    ql[2] = 0x0A;
    ql[3] = 0x01;
    let mut qh = [0u8; 64];
    qh[0] = 0x02;
    qh[1] = 0x02;
    qh[2] = 0x02;
    qh[3] = 0x02;
    let mut scales = [0i8; 16];
    scales[0] = 1;
    let block = q6_block(F16_ONE, ql, qh, scales);
    let mut x = [0.0f32; 256];
    x[0] = 1e19;
    x[1] = 1.0;
    x[2] = -1e19;
    x[3] = 1.0;
    assert_eq!(dot_q6_k(&x, &block), 0.0);
}

#[test]
fn q6_k_full_block_matches_layout_reference() {
    let mut ql = [0u8; 128];
    for (i, b) in ql.iter_mut().enumerate() {
        *b = i as u8;
    }
    let mut qh = [0u8; 64];
    for (i, b) in qh.iter_mut().enumerate() {
        *b = i as u8;
    }
    let mut scales = [0i8; 16];
    for (i, s) in scales.iter_mut().enumerate() {
        *s = i as i8 - 8;
    }
    let block = q6_block(F16_ONE, ql, qh, scales);
    let x: Vec<f32> = (0..256).map(|e| (e + 1) as f32).collect();
    let mut expected = 0.0f64;
    for e in 0..QK_K {
        let byte = ql[64 * (e / 128) + (e % 64)];
        let nib = if (e / 64) % 2 == 0 { byte & 0xF } else { byte >> 4 };
        let hi2 = (qh[(e % 32) + 32 * (e / 128)] >> (2 * ((e % 128) / 32))) & 3;
        let q = i32::from(nib) | (i32::from(hi2) << 4);
        expected += (e + 1) as f64 * f64::from(scales[e / 16]) * f64::from(q - 32);
    }
    assert_eq!(dot_q6_k(&x, &block), expected);
}

#[test]
fn q6_k_multiblock_stride() {
    let mut ql = [0u8; 128];
    ql[0] = 0x01;
    let mut scales = [0i8; 16];
    scales[0] = 1;
    let b1 = q6_block(F16_ONE, ql, [0; 64], scales);
    let b2 = q6_block(F16_TWO, ql, [0; 64], scales);
    let mut w = b1;
    w.extend_from_slice(&b2);
    let x = [1.0f32; 512];
    assert_eq!(dot_q6_k(&x, &w), -511.0 + -1022.0);
}

#[test]
fn quantize_q8_k_hand_block_and_zero_block() {
    let mut x = [0.0f32; 256];
    x[0] = 1.0;
    let q = quantize_q8_k(&x);
    assert_eq!(q.len(), 1);
    assert_eq!(q[0].qs[0], -127);
    assert!(q[0].qs[1..].iter().all(|&v| v == 0));
    assert_eq!(q[0].bsums[0], -127);
    assert!(q[0].bsums[1..].iter().all(|&v| v == 0));
    assert_eq!(f(q[0].d), 1.0f32 / -127.0f32);

    let mut x = [0.0f32; 256];
    x[0] = -1.0;
    let q = quantize_q8_k(&x);
    assert_eq!(q[0].qs[0], -127);
    assert_eq!(f(q[0].d), 1.0f32 / 127.0f32);

    let z = [0.0f32; 256];
    let q = quantize_q8_k(&z);
    assert_eq!(f(q[0].d), 0.0);
    assert!(q[0].qs.iter().all(|&v| v == 0));

    let mut two = [0.0f32; 512];
    two[256] = 2.0;
    let q = quantize_q8_k(&two);
    assert_eq!(q.len(), 2);
    assert_eq!(f(q[0].d), 0.0);
    assert_eq!(q[1].qs[0], -127);
}

#[test]
fn dot_q4_k_q8_k_hand_values() {
    let mut scales = [0u8; 12];
    scales[0] = 1;
    scales[4] = 3;
    let mut qs = [0u8; 128];
    qs[0] = 0x01;
    let block = q4_block(F16_ONE, F16_TWO, scales, qs);
    let mut x = [0.0f32; 256];
    x[0] = 127.0;
    let got = dot_q4_k_q8_k(&quantize_q8_k(&x), &block);
    assert_eq!(got, -635.0);
}

#[test]
fn dot_q6_k_q8_k_hand_values() {
    let mut ql = [0u8; 128];
    ql[0] = 0x01;
    let mut scales = [0i8; 16];
    scales[0] = 1;
    let block = q6_block(F16_ONE, ql, [0; 64], scales);
    let mut x = [0.0f32; 256];
    x[0] = 127.0;
    let got = dot_q6_k_q8_k(&quantize_q8_k(&x), &block);
    assert_eq!(got, -3937.0);

    let mut ql = [0u8; 128];
    ql[32] = 0x01;
    let mut scales = [0i8; 16];
    scales[2] = -1;
    let block = q6_block(F16_ONE, ql, [0; 64], scales);
    let mut x = [0.0f32; 256];
    x[32] = 127.0;
    let got = dot_q6_k_q8_k(&quantize_q8_k(&x), &block);
    assert_eq!(got, 3937.0);
}

#[test]
fn q8k_dots_close_to_exact_dots() {
    let xp: Vec<f32> = (0..256)
        .map(|i| ((i * 7919) % 1009) as f32 / 1009.0 - 0.5)
        .collect();
    let q = quantize_q8_k(&xp);
    for raw in [Q4K_B0.as_slice(), Q4K_B15.as_slice()] {
        let exact = dot_q4_k(&xp, raw);
        let via_q8k = f64::from(dot_q4_k_q8_k(&q, raw));
        assert!(
            (exact - via_q8k).abs() < 0.5,
            "q4_k: {exact} against {via_q8k}"
        );
    }
    for raw in [Q6K_B0.as_slice(), Q6K_B15.as_slice()] {
        let exact = dot_q6_k(&xp, raw);
        let via_q8k = f64::from(dot_q6_k_q8_k(&q, raw));
        assert!(
            (exact - via_q8k).abs() < 0.5,
            "q6_k: {exact} against {via_q8k}"
        );
    }
}

const Q6K_B0: [u8; 210] = [
    0x0d, 0x04, 0x06, 0x61, 0xef, 0xb2, 0x70, 0x0e, 0xed, 0x6f, 0x5a, 0x3d, 0x0b, 0x04, 0x71, 0xe4,
    0x75, 0x2e, 0x86, 0x56, 0xea, 0x5f, 0x6f, 0x40, 0x53, 0xfa, 0xcd, 0x47, 0xbd, 0x0f, 0x70, 0xe2,
    0xfa, 0x3e, 0x63, 0x1e, 0x45, 0xcd, 0xc2, 0x63, 0x44, 0xf0, 0x99, 0x5b, 0xe5, 0x08, 0xc8, 0xb0,
    0x02, 0xed, 0x28, 0xb8, 0x11, 0xf1, 0xb2, 0xfa, 0xc6, 0x3e, 0x62, 0x6b, 0x03, 0x0a, 0xc2, 0xa0,
    0x10, 0xec, 0xbe, 0x83, 0x66, 0x0c, 0x07, 0x94, 0xa1, 0x6c, 0x00, 0xa6, 0x0e, 0x1c, 0x96, 0xdc,
    0x17, 0xc7, 0x01, 0xd0, 0x59, 0x05, 0x53, 0xcd, 0x2a, 0xc9, 0x16, 0xb4, 0xc4, 0xd5, 0x20, 0xcb,
    0x86, 0x34, 0xef, 0xa4, 0xf9, 0x7e, 0xe1, 0x40, 0x03, 0x9c, 0xad, 0x05, 0xbb, 0x69, 0x95, 0xa8,
    0xa1, 0x46, 0xf6, 0x48, 0x2e, 0xa1, 0xdb, 0x1b, 0x3f, 0xc2, 0xdc, 0xad, 0x19, 0xd5, 0x7e, 0x32,
    0x61, 0xa7, 0xad, 0xea, 0xca, 0x65, 0x98, 0x59, 0xb8, 0x62, 0x10, 0xa7, 0x8f, 0x29, 0xa8, 0xff,
    0x08, 0x16, 0x1a, 0xf6, 0xaf, 0x11, 0x56, 0x24, 0x46, 0x60, 0xa5, 0x54, 0xaa, 0x86, 0x56, 0xea,
    0x6a, 0x9a, 0x92, 0xae, 0xa5, 0x47, 0xa1, 0xaa, 0x25, 0xa6, 0x60, 0x36, 0x56, 0x5a, 0xaa, 0x99,
    0xe5, 0x5c, 0x48, 0x6b, 0x69, 0xb1, 0xa5, 0x16, 0x64, 0x22, 0x26, 0x53, 0x99, 0x18, 0xa9, 0xe2,
    0x56, 0xa5, 0x93, 0x95, 0x52, 0x4a, 0x66, 0x54, 0x69, 0x37, 0x6d, 0x46, 0x6c, 0x80, 0xaf, 0x45,
    0xec, 0x00,
];

const Q6K_B15: [u8; 210] = [
    0x7e, 0x81, 0x09, 0x7f, 0x1c, 0xd0, 0x1b, 0xe4, 0xde, 0x79, 0xfc, 0x3e, 0xd1, 0xa0, 0x91, 0xac,
    0x5e, 0x6e, 0x5c, 0xdb, 0x04, 0x11, 0xbc, 0x94, 0xb0, 0xc7, 0x70, 0x27, 0xd6, 0x7a, 0xa5, 0x4a,
    0xaa, 0x9c, 0xfe, 0x22, 0xc0, 0xec, 0x43, 0x40, 0x09, 0xe2, 0xd4, 0x7c, 0x2a, 0x4f, 0x42, 0x16,
    0x07, 0xda, 0x8b, 0xd6, 0x63, 0xf5, 0xd3, 0x31, 0xdd, 0x99, 0x18, 0x5d, 0x92, 0x05, 0xf4, 0x3c,
    0x15, 0x94, 0x66, 0x3d, 0x08, 0x89, 0xf4, 0xe4, 0xf8, 0x61, 0x37, 0x86, 0x8e, 0xa8, 0xea, 0xed,
    0x4c, 0x5d, 0xe6, 0x25, 0x84, 0xca, 0xa0, 0x39, 0xb7, 0x09, 0x21, 0xa3, 0xa9, 0x13, 0xe6, 0x53,
    0x26, 0x0c, 0x03, 0x61, 0x34, 0x68, 0xc2, 0x03, 0x92, 0xec, 0x98, 0x1b, 0x6e, 0x3c, 0x94, 0x19,
    0x3b, 0x79, 0xaa, 0x06, 0x9b, 0x82, 0xc5, 0x9b, 0xb4, 0x98, 0x1c, 0x39, 0x8f, 0x6e, 0x50, 0x9b,
    0x69, 0x96, 0x91, 0x9c, 0x41, 0x92, 0x65, 0x9a, 0x31, 0x2a, 0xb6, 0xe1, 0xe5, 0x66, 0x58, 0x61,
    0xb5, 0x6b, 0xa9, 0x4f, 0xb9, 0x04, 0x56, 0xa1, 0x9a, 0x9a, 0xea, 0x6b, 0xea, 0x28, 0x0e, 0x39,
    0xc9, 0x9a, 0xd9, 0x61, 0x2a, 0x55, 0x5a, 0x2b, 0xd9, 0x20, 0xa2, 0x51, 0x96, 0xa9, 0x89, 0x95,
    0xda, 0x9a, 0xa5, 0x14, 0x92, 0x9b, 0x8c, 0xa9, 0x49, 0x02, 0xda, 0x56, 0xd5, 0x8a, 0xa3, 0xb5,
    0x68, 0xc4, 0xb7, 0x5c, 0xa8, 0x45, 0x3e, 0x4c, 0xa9, 0x57, 0x73, 0x50, 0x80, 0x41, 0xb1, 0xaf,
    0x05, 0x01,
];

const Q4K_B0: [u8; 144] = [
    0x70, 0x06, 0x08, 0x12, 0xf5, 0xee, 0xa2, 0xbf, 0xf5, 0xeb, 0xa0, 0xbf, 0x84, 0x0b, 0xbd, 0x6c,
    0xa5, 0x69, 0x7f, 0x74, 0x59, 0xc7, 0x0a, 0xfb, 0x46, 0x99, 0x86, 0x87, 0x79, 0x48, 0x35, 0xb4,
    0x5a, 0x93, 0x84, 0x68, 0x05, 0x47, 0x20, 0x97, 0xb8, 0x83, 0xab, 0x65, 0x1a, 0x7a, 0x08, 0xd8,
    0x5f, 0x6b, 0xa5, 0x5b, 0x68, 0xc6, 0x58, 0xd2, 0x84, 0x09, 0x6e, 0x72, 0x72, 0x87, 0xb9, 0x59,
    0x6c, 0x97, 0xc6, 0xe7, 0x62, 0x6c, 0x97, 0x8f, 0x04, 0x6e, 0x7d, 0x91, 0x40, 0x48, 0x8f, 0x93,
    0x8e, 0xe6, 0x93, 0x07, 0x68, 0x17, 0x67, 0x51, 0x88, 0x97, 0x48, 0x1b, 0x69, 0x38, 0x52, 0x59,
    0x6a, 0x6c, 0x67, 0x58, 0x69, 0xb9, 0xaf, 0x8a, 0x77, 0x87, 0x40, 0x55, 0x77, 0x36, 0x4b, 0xe5,
    0x50, 0x68, 0x0a, 0x97, 0x00, 0x67, 0xa2, 0x63, 0x67, 0x86, 0x09, 0x89, 0x58, 0x55, 0x62, 0x7f,
    0xf6, 0x1c, 0x27, 0x55, 0x71, 0x74, 0x42, 0x45, 0x87, 0xab, 0xa7, 0xbb, 0x52, 0x5d, 0xf7, 0x64,
];

const Q4K_B15: [u8; 144] = [
    0xfe, 0x05, 0xc8, 0x10, 0xb7, 0xa9, 0xf4, 0xb2, 0xb4, 0xb6, 0xf0, 0x79, 0xa5, 0xad, 0xff, 0xd0,
    0x66, 0x72, 0xf5, 0x65, 0x65, 0x57, 0xeb, 0x97, 0x53, 0xd8, 0x00, 0x47, 0x85, 0x24, 0x85, 0x94,
    0x84, 0x43, 0x75, 0x4b, 0xc0, 0x56, 0xaa, 0x45, 0x77, 0xb5, 0x72, 0xff, 0x70, 0x65, 0x67, 0x5a,
    0x38, 0x66, 0x92, 0x66, 0x94, 0x92, 0xae, 0xfb, 0xb0, 0xc5, 0x79, 0xa9, 0x86, 0xf2, 0x53, 0x01,
    0x3a, 0x91, 0x72, 0xa4, 0x59, 0x8d, 0xc0, 0xd6, 0x95, 0xb2, 0x44, 0x61, 0x94, 0x82, 0xac, 0x85,
    0xa6, 0x57, 0x48, 0x74, 0x73, 0x07, 0xab, 0x66, 0xbd, 0x6b, 0xb7, 0xa3, 0x03, 0xd0, 0xfc, 0x87,
    0x87, 0x75, 0x12, 0xaf, 0xbb, 0xa8, 0x74, 0x8e, 0x65, 0x98, 0xc8, 0x96, 0x98, 0xad, 0x85, 0xd9,
    0x66, 0x3e, 0x93, 0x96, 0x68, 0x4a, 0x66, 0xb8, 0xc2, 0x60, 0x97, 0xc6, 0xf7, 0xd4, 0x87, 0x44,
    0x28, 0xd5, 0xc6, 0x0a, 0x75, 0xaa, 0x7a, 0xe7, 0x56, 0x94, 0xd9, 0x38, 0x94, 0x42, 0x75, 0xca,
];

#[test]
fn ornith_decode_pin() {
    let xp: Vec<f32> = (0..256)
        .map(|i| ((i * 7919) % 1009) as f32 / 1009.0 - 0.5)
        .collect();
    let xa: Vec<f32> = (0..256)
        .map(|i| ((i * 31 + 17) % 257) as f32 / 257.0 - 0.5)
        .collect();
    let mut hot7 = vec![0.0f32; 256];
    hot7[7] = 1.0;
    let mut hot200 = vec![0.0f32; 256];
    hot200[200] = 1.0;

    let cases: [(&[u8], f64, f64, f64, f64); 4] = [
        (
            &Q6K_B0,
            0.009389617280043283,
            -0.06928441728599341,
            -0.0024194717407226562,
            0.015192031860351562,
        ),
        (
            &Q6K_B15,
            0.051974415601894794,
            -0.04944705545670326,
            0.0064716339111328125,
            0.00199127197265625,
        ),
        (
            &Q4K_B0,
            -0.059268411725198325,
            0.015680094173446263,
            0.01824665069580078,
            -0.0007162094116210938,
        ),
        (
            &Q4K_B15,
            -0.07894214695343532,
            0.00035575484487332734,
            0.004852175712585449,
            -0.025249242782592773,
        ),
    ];
    for (raw, dp, da, w7, w200) in cases {
        let dot = |x: &[f32]| {
            if raw.len() == BLOCK_Q6_K_BYTES {
                dot_q6_k(x, raw)
            } else {
                dot_q4_k(x, raw)
            }
        };
        let got_dp = dot(&xp);
        let got_da = dot(&xa);
        let got_w7 = dot(&hot7);
        let got_w200 = dot(&hot200);
        assert!((got_dp - dp).abs() < 1e-4, "dot_x_pattern: {got_dp} vs {dp}");
        assert!((got_da - da).abs() < 1e-4, "dot_x_alt: {got_da} vs {da}");
        assert!((got_w7 - w7).abs() < 1e-4, "w[7]: {got_w7} vs {w7}");
        assert!((got_w200 - w200).abs() < 1e-4, "w[200]: {got_w200} vs {w200}");
    }
}

#[test]
fn the_strongest_keeps_its_sign_and_comes_first() {
    assert_eq!(f(packed::strongest_of(&bits(&[1.0, -3.0, 3.0, 2.0]))), -3.0);
    assert_eq!(f(packed::strongest_of(&bits(&[f32::NAN, 0.5]))), 0.5);
    assert_eq!(f(packed::strongest_of(&[])), 0.0);
}

#[test]
fn rows_of_a_matrix_follow_each_other() {
    let w = [1u8, 2, 3, 4, 5, 6];
    assert_eq!(packed::rows_of(&w, 2, 3), vec![&[1u8, 2][..], &[3, 4], &[5, 6]]);
}

#[test]
fn lanes_hold_every_element_once() {
    let qs: Vec<i8> = (0..256).map(|i| (i % 11) as i8 - 5).collect();
    let block: Vec<u8> = (0..144).map(|i| (i * 37 % 251) as u8).collect();
    let total: i32 = (0..256)
        .map(|e| {
            let (sc, _) = quants::scale_min_k4(&block[4..16], e / 32);
            sc as i32 * quants::q4_k_bits(&block, e) as i32 * qs[e] as i32
        })
        .sum();
    assert_eq!(quants::q4_k_lanes(&block, &qs).iter().sum::<i32>(), total);
    let block: Vec<u8> = (0..210).map(|i| (i * 53 % 249) as u8).collect();
    let total: i32 = (0..256)
        .map(|e| {
            let sc = block[192 + e / 16] as i8 as i32;
            sc * quants::q6_k_weight(&block, e) * qs[e] as i32
        })
        .sum();
    assert_eq!(quants::q6_k_lanes(&block, &qs).iter().sum::<i32>(), total);
}
