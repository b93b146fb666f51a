use unltd_inference::kernels;

fn plus(a: f64, b: f64) -> f64 {
    a + b
}

fn square(sum: f64, a: f32, b: f32) -> f64 {
    sum + (a * b) as f64
}

fn pairwise_sum_f64(v: &[f64]) -> f64 {
    kernels::pairwise_sum(v, 0.0, &plus)
}

fn rmsnorm(out: &mut [f32], x: &[f32], w: &[f32], eps: f32) {
    let n = x.len() as f64;
    let scale = |sum: f64| 1.0f32 / ((sum / n) as f32 + eps).sqrt();
    let weigh = |x: f32, s: f32, w: f32| (x * s) * w;
    out.copy_from_slice(&kernels::rmsnorm(x, w, 0.0, &square, &scale, &weigh));
}

fn matmul_f32_acc(acc: &mut [f32], a: &[f32], b: &[f32], m: usize, k: usize, n: usize) {
    let mut v = acc.to_vec();
    let times = |a: f32, b: f32| a as f64 * b as f64;
    let onto = |a: f32, sum: f64| (a as f64 + sum) as f32;
    kernels::matmul_acc(&mut v, a, b, m, k, n, &times, 0.0, &plus, &onto);
    acc.copy_from_slice(&v);
}

fn rotate(angle: f64, x0: f32, x1: f32) -> (f32, f32) {
    let (s, c) = angle.sin_cos();
    let (x0, x1) = (x0 as f64, x1 as f64);
    (c.mul_add(x0, -(s * x1)) as f32, s.mul_add(x0, c * x1) as f32)
}

fn rope_apply_llama(x: &mut [f32], freqs: &[f32], pos: usize) {
    let mut v = x.to_vec();
    let turn = |i: usize, a: f32, b: f32| rotate(pos as f64 * freqs[i] as f64, a, b);
    kernels::turn_neighbours(&mut v, &turn);
    x.copy_from_slice(&v);
}

fn rope_apply_neox(x: &mut [f32], freqs: &[f32], pos: usize) {
    let mut v = x.to_vec();
    let turn = |i: usize, a: f32, b: f32| rotate(pos as f64 * freqs[i] as f64, a, b);
    kernels::turn_halves(&mut v, x.len() / 2, 1, &turn);
    x.copy_from_slice(&v);
}

fn rope_apply_imrope(x: &mut [f32], n_rot: usize, theta_scale: f64, pos: usize) {
    let mut v = x.to_vec();
    let mut angles = vec![pos as f64];
    for i in 1..n_rot / 2 {
        angles.push(angles[i - 1] * theta_scale);
    }
    let turn = |i: usize, a: f32, b: f32| rotate(angles[i], a, b);
    kernels::turn_halves(&mut v, n_rot / 2, 3, &turn);
    x.copy_from_slice(&v);
}

fn softmax(out: &mut [f32], x: &[f32], scale: f32) {
    let peak = |m: f32, v: f32, _: f32| m.max(v);
    let grow = |v: f32, max: f32| ((v - max) * scale).exp();
    let widen = |v: f32| v as f64;
    let divide = |e: f32, sum: f64| (e as f64 / sum) as f32;
    let low = f32::NEG_INFINITY;
    out.copy_from_slice(&kernels::softmax(
        x, low, &peak, &grow, &widen, 0.0, &plus, &divide,
    ));
}

fn l2_norm_rows(data: &mut [f32], dim: usize, eps: f32) {
    let scale = |sum: f64| 1.0f32 / (sum as f32).sqrt().max(eps);
    let times = |v: f32, s: f32| v * s;
    let out = kernels::l2_norm_rows(data, dim, 0.0, &square, &scale, &times);
    data.copy_from_slice(&out);
}

fn ssm_conv(out: &mut [f32], x: &[f32], kernel: &[f32], taps: usize, channels: usize) {
    let mac = |sum: f32, x: f32, k: f32| sum + x * k;
    out.copy_from_slice(&kernels::ssm_conv(x, kernel, taps, channels, 0.0, &mac));
}

#[allow(clippy::too_many_arguments)]
fn gdn_fused_step(
    state: &mut [f32],
    out: &mut [f32],
    q: &[f32],
    k: &[f32],
    v: &[f32],
    decay: f32,
    beta: f32,
    scale: f32,
) {
    let c = (decay.exp(), beta);
    let fade = |s: f32, c: (f32, f32)| s * c.0;
    let lack = |c: (f32, f32), v: f32, sum: f64| (v - sum as f32) * c.1;
    let add_share = |s: f32, k: f32, d: f32| s + k * d;
    let finish = |sum: f64| sum as f32 * scale;
    let (next, read) = kernels::gdn_fused_step(
        state, q, k, v, c, &fade, 0.0, &square, &lack, &add_share, &finish,
    );
    state.copy_from_slice(&next);
    out.copy_from_slice(&read);
}

#[test]
fn pairwise_partition_is_the_documented_tree() {
    let v = [1.0f64, 2.0, 3.0, 4.0, 5.0];
    assert_eq!(pairwise_sum_f64(&v), 15.0);
    let v = [1e16f64, 1.0, -1e16, 1.0];
    assert_eq!(pairwise_sum_f64(&v), 0.0);
    assert_eq!(pairwise_sum_f64(&[1.0, 2.0, 3.0]), 6.0);
    assert_eq!(pairwise_sum_f64(&[]), 0.0);
}

#[test]
fn rmsnorm_exact_cases() {
    let x = [1.0f32; 4];
    let mut out = [0.0f32; 4];
    rmsnorm(&mut out, &x, &x, 0.0);
    assert_eq!(out, [1.0; 4]);

    let x = [3.0f32, 4.0];
    let mut out = [0.0f32; 2];
    rmsnorm(&mut out, &x, &[1.0, 1.0], 0.0);
    let mean = ((9.0f64 + 16.0) / 2.0) as f32;
    let scale = 1.0f32 / (mean + 0.0f32).sqrt();
    assert_eq!(out[0].to_bits(), (3.0f32 * scale).to_bits());
    assert_eq!(out[1].to_bits(), (4.0f32 * scale).to_bits());

    let mut out = [0.0f32; 2];
    rmsnorm(&mut out, &[0.0, 0.0], &[2.0, 3.0], 1e-6);
    assert_eq!(out, [0.0, 0.0]);

    let x = [1e8f32, 1e8, 1e8, 1e8];
    let mut out = [0.0f32; 4];
    rmsnorm(&mut out, &x, &[1.0f32; 4], 0.0);
    let sq = 1e8f32 * 1e8f32;
    assert_ne!(sq as f64, 1e16f64, "the square loses bits");
    let scale = 1.0f32 / (sq + 0.0f32).sqrt();
    for i in 0..4 {
        assert_eq!(out[i].to_bits(), (x[i] * scale).to_bits(), "elem {i}");
    }
}

#[test]
fn matmul_exact_and_acc_semantics() {
    let a = [1.0f32, 2.0, 3.0, 4.0, 5.0, 6.0];
    let b = [7.0f32, 8.0, 9.0, 10.0, 11.0, 12.0];
    let mut acc = [0.0f32; 4];
    matmul_f32_acc(&mut acc, &a, &b, 2, 3, 2);
    assert_eq!(acc, [58.0, 64.0, 139.0, 154.0]);

    matmul_f32_acc(&mut acc, &a, &b, 2, 3, 2);
    assert_eq!(acc, [116.0, 128.0, 278.0, 308.0]);

    let a = [1e19f32, 1.0, -1e19f32, 1.0];
    let b = [1.0f32, 1.0, 1.0, 1.0];
    let mut acc = [0.0f32];
    matmul_f32_acc(&mut acc, &a, &b, 1, 4, 1);
    assert_eq!(acc[0], 0.0);
}

#[test]
fn rope_llama_identity_cases() {
    let mut x = [1.5f32, -2.25, 3.0, 4.0];
    let freqs = [0.5f32, 0.25];
    let orig = x;
    rope_apply_llama(&mut x, &freqs, 0);
    assert_eq!(x, orig);

    let mut x = [1.5f32, -2.25, 3.0, 4.0];
    rope_apply_llama(&mut x, &[0.0f32, 0.0], 7);
    assert_eq!(x, orig);

    let mut x = [1.0f32, 0.0];
    rope_apply_llama(&mut x, &[std::f32::consts::FRAC_PI_2], 1);
    let (s, c) = (std::f32::consts::FRAC_PI_2 as f64).sin_cos();
    let e0 = c.mul_add(1.0f64, -(s * 0.0f64)) as f32;
    let e1 = s.mul_add(1.0f64, c * 0.0f64) as f32;
    assert_eq!(x[0].to_bits(), e0.to_bits());
    assert_eq!(x[1].to_bits(), e1.to_bits());
    assert_eq!(x[1], 1.0);
}

#[test]
fn rope_neox_identity_and_rotation() {
    let mut x = [1.5f32, -2.25, 3.0, 4.0];
    let orig = x;
    rope_apply_neox(&mut x, &[0.5f32, 0.25], 0);
    assert_eq!(x, orig);

    let mut x = [1.0f32, 99.0, 0.0, 99.0];
    rope_apply_neox(&mut x, &[std::f32::consts::FRAC_PI_2, 0.0], 1);
    let (s, c) = (std::f32::consts::FRAC_PI_2 as f64).sin_cos();
    let e0 = c.mul_add(1.0f64, -(s * 0.0f64)) as f32;
    let e2 = s.mul_add(1.0f64, c * 0.0f64) as f32;
    assert_eq!(x[0].to_bits(), e0.to_bits());
    assert_eq!(x[2].to_bits(), e2.to_bits());
    assert_eq!(x[1], 99.0);
    assert_eq!(x[3], 99.0);
}

#[test]
fn softmax_max_subtraction_and_partition() {
    let mut o1 = [0.0f32; 3];
    let mut o2 = [0.0f32; 3];
    softmax(&mut o1, &[1000.0, 1001.0, 1002.0], 1.0);
    softmax(&mut o2, &[-2.0, -1.0, 0.0], 1.0);
    assert_eq!(o1, o2);

    let e0 = (-2.0f32).exp() as f64;
    let e1 = (-1.0f32).exp() as f64;
    let e2 = (0.0f32).exp() as f64;
    let sum = (e0 + e1) + e2;
    let exp0 = (e0 / sum) as f32;
    let exp1 = (e1 / sum) as f32;
    let exp2 = (e2 / sum) as f32;
    assert_eq!(o1[0].to_bits(), exp0.to_bits());
    assert_eq!(o1[1].to_bits(), exp1.to_bits());
    assert_eq!(o1[2].to_bits(), exp2.to_bits());

    let s = (o1[0] as f64 + o1[1] as f64) + o1[2] as f64;
    assert!((s - 1.0).abs() < 1e-7, "sum of shares = {s}");

    let mut a = [0.0f32; 3];
    let mut b = [0.0f32; 3];
    softmax(&mut a, &[-2.0, -1.0, 0.0], 2.0);
    softmax(&mut b, &[-4.0, -2.0, 0.0], 1.0);
    assert_eq!(a, b);
}

#[test]
fn l2_norm_rows_reference_formula() {
    let mut x = [3.0f32, 4.0];
    l2_norm_rows(&mut x, 2, 1e-6);
    assert_eq!(x, [0.6, 0.8]);

    let mut x = [0.0f32, 0.0];
    l2_norm_rows(&mut x, 2, 0.1);
    assert_eq!(x, [0.0, 0.0]);

    let x = [1.0f32, 2.0, 3.0];
    let mut out = x;
    l2_norm_rows(&mut out, 3, 1e-6);
    let sum = 1.0f64 + 4.0 + 9.0;
    let scale = 1.0f32 / (sum as f32).sqrt().max(1e-6f32);
    for (i, &v) in x.iter().enumerate() {
        assert_eq!(out[i].to_bits(), (v * scale).to_bits(), "elem {i}");
    }

    let mut x = [3.0f32, 4.0, 6.0, 8.0];
    l2_norm_rows(&mut x, 2, 1e-6);
    assert_eq!(x, [0.6, 0.8, 0.6, 0.8]);
}

#[test]
fn ssm_conv_hand_values_and_f32_order() {
    let kernel = [1.0f32, 2.0, 3.0, 4.0];
    let x = [1.0f32, 10.0, 2.0, 20.0, 3.0, 30.0];
    let mut out = [0.0f32; 4];
    ssm_conv(&mut out, &x, &kernel, 2, 2);
    assert_eq!(out, [7.0, 100.0, 11.0, 160.0]);

    let x = [1e16f32, 1.0, -1e16, 1.0];
    let kernel = [1.0f32; 4];
    let mut out = [0.0f32];
    ssm_conv(&mut out, &x, &kernel, 4, 1);
    assert_eq!(out[0], 1.0);

    let kernel = [0.1f32, 0.2, 0.3, 0.4];
    let x = [1.5f32, 2.5, 3.5, 4.5, 5.5, 6.5];
    let mut out = [0.0f32; 4];
    ssm_conv(&mut out, &x, &kernel, 2, 2);
    let e = |t: usize, c: usize| -> f32 {
        let mut s = 0.0f32;
        for tau in 0..2 {
            s += x[(t + tau) * 2 + c] * kernel[tau * 2 + c];
        }
        s
    };
    for t in 0..2 {
        for c in 0..2 {
            assert_eq!(out[t * 2 + c].to_bits(), e(t, c).to_bits());
        }
    }
}

#[test]
fn rope_imrope_interleaved_pairs() {
    let mut x = [1.0f32, 99.0, 0.0, 99.0, 7.0, 8.0];
    rope_apply_imrope(&mut x, 4, 0.01, 1);
    let (s, c) = 1.0f64.sin_cos();
    let e0 = c.mul_add(1.0f64, -(s * 0.0f64)) as f32;
    let e2 = s.mul_add(1.0f64, c * 0.0f64) as f32;
    assert_eq!(x[0].to_bits(), e0.to_bits());
    assert_eq!(x[2].to_bits(), e2.to_bits());
    assert_eq!(x[1], 99.0);
    assert_eq!(x[3], 99.0);
    assert_eq!(x[4], 7.0);
    assert_eq!(x[5], 8.0);

    let mut x = [1.5f32, -2.25, 3.0, 4.0];
    let orig = x;
    rope_apply_imrope(&mut x, 4, 0.01, 0);
    assert_eq!(x, orig);

    let mut x: Vec<f32> = (0..12).map(|i| i as f32).collect();
    let orig = x.clone();
    rope_apply_imrope(&mut x, 12, 0.01, 1);
    let rotate = |x0: f32, x1: f32, a: f64| -> (f32, f32) {
        let (s, c) = a.sin_cos();
        (
            c.mul_add(x0 as f64, -(s * x1 as f64)) as f32,
            s.mul_add(x0 as f64, c * x1 as f64) as f32,
        )
    };
    let (r0, r6) = rotate(orig[0], orig[6], 1.0);
    let (r3, r9) = rotate(orig[3], orig[9], 0.01f64.powi(3));
    for i in 0..12 {
        let e = match i {
            0 => r0,
            3 => r3,
            6 => r6,
            9 => r9,
            _ => orig[i],
        };
        assert_eq!(x[i].to_bits(), e.to_bits(), "dim {i}");
    }
}

#[test]
fn gdn_fused_step_hand_values() {
    let mut state = [1.0f32, 0.0, 0.0, 1.0];
    let mut out = [0.0f32; 2];
    gdn_fused_step(&mut state, &mut out, &[1.0, 0.0], &[1.0, 1.0], &[3.0, 4.0], 0.0, 1.0, 1.0);
    assert_eq!(state, [3.0, 3.0, 2.0, 4.0]);
    assert_eq!(out, [3.0, 3.0]);

    let prev = state;
    let mut state2 = prev;
    let mut out2 = [0.0f32; 2];
    let g = 0.5f32.ln();
    gdn_fused_step(&mut state2, &mut out2, &[1.0, 0.0], &[1.0, 1.0], &[3.0, 4.0], g, 1.0, 1.0);
    let mut rep = prev;
    let g_exp = g.exp();
    for s in rep.iter_mut() {
        *s *= g_exp;
    }
    let d0 = (3.0f32 - (rep[0] + rep[2]) * 1.0) * 1.0;
    let d1 = (4.0f32 - (rep[1] + rep[3]) * 1.0) * 1.0;
    rep[0] = d0.mul_add(1.0, rep[0]);
    rep[2] = d0.mul_add(1.0, rep[2]);
    rep[1] = d1.mul_add(1.0, rep[1]);
    rep[3] = d1.mul_add(1.0, rep[3]);
    let o0 = (rep[0] * 1.0 + rep[2] * 0.0) * 1.0;
    let o1 = (rep[1] * 1.0 + rep[3] * 0.0) * 1.0;
    assert!((state2[0] - rep[0]).abs() < 1e-6 && (out2[0] - o0).abs() < 1e-6);
    assert!((out2[1] - o1).abs() < 1e-6);
}

#[test]
fn gdn_fused_step_scale_is_on_output_not_q() {
    let mut state = [3.0f32, 3.0, 2.0, 4.0];
    let mut out = [0.0f32; 2];
    gdn_fused_step(&mut state, &mut out, &[1.0, 1.0], &[1.0, 1.0], &[3.0, 4.0], 0.0, 1.0, 2.0);
    assert_eq!(state, [1.0, 0.0, 0.0, 1.0]);
    assert_eq!(out, [2.0, 2.0]);
}

#[test]
fn gdn_fused_step_replicates_documented_f32_chain() {
    let q = [0.25f32, -0.5, 0.75];
    let k = [-0.125f32, 0.5, 0.375];
    let v = [1.0f32, -2.0, 0.5];
    let beta = 0.8f32;
    let scale = 0.0625f32;
    let mut state = vec![0.0f32; 9];
    for i in 0..3 {
        state[i * 3 + i] = 1.0;
    }
    let mut out = [0.0f32; 3];
    let mut rep_state = state.clone();
    let mut rep_out = [0.0f32; 3];
    gdn_fused_step(&mut state, &mut out, &q, &k, &v, 0.0, beta, scale);
    for j in 0..3 {
        let mut sum: f64 = 0.0;
        for i in 0..3 {
            sum += (rep_state[i * 3 + j] * k[i]) as f64;
        }
        let d = (v[j] - sum as f32) * beta;
        for i in 0..3 {
            rep_state[i * 3 + j] += k[i] * d;
        }
    }
    for j in 0..3 {
        let mut sum: f64 = 0.0;
        for i in 0..3 {
            sum += (rep_state[i * 3 + j] * q[i]) as f64;
        }
        rep_out[j] = sum as f32 * scale;
    }
    assert_eq!(state, rep_state);
    assert_eq!(out, rep_out);
}

#[test]
fn attention_weighs_values_by_shares() {
    let times = |a: f32, b: f32| a as f64 * b as f64;
    let narrow = |sum: f64| sum as f32;
    let keys = [9.0f32, 1.0, 2.0, 9.0, 3.0, 4.0, 9.0, 5.0, 6.0];
    let scores =
        kernels::score_tokens(&[1.0, 10.0], &keys, 3, 3, 1, &times, 0.0, &plus, &narrow);
    assert_eq!(scores, vec![21.0, 43.0, 65.0]);
    let mac = |sum: f64, s: f32, v: f32| sum + s as f64 * v as f64;
    let out = kernels::attend(&[1.0, 0.0, 2.0], &keys, 3, 1, 2, 0.0, &mac, &narrow);
    assert_eq!(out, vec![11.0, 14.0]);
}

#[test]
fn an_odd_last_number_waits_for_its_partner() {
    let show = |a: u64, b: u64| a * 10 + b;
    assert_eq!(kernels::pairwise_sum(&[1, 2, 3, 4, 5], 0, &show), ((12 * 10) + 34) * 10 + 5);
    assert_eq!(kernels::pairwise_sum(&[7], 0, &show), 7);
    assert_eq!(kernels::pairwise_sum(&[], 3, &show), 3);
}

#[test]
fn heads_of_a_state_take_their_turns() {
    let ready = |decay: f32, beta: f32| (decay.exp(), beta);
    let fade = |s: f32, c: (f32, f32)| s * c.0;
    let lack = |c: (f32, f32), v: f32, sum: f64| (v - sum as f32) * c.1;
    let add_share = |s: f32, k: f32, d: f32| s + k * d;
    let finish = |sum: f64| sum as f32;
    let state: Vec<f32> = (0..12).map(|i| i as f32).collect();
    let q = [1.0f32, 0.5];
    let k = [0.25f32, 2.0];
    let v = [1.0f32, 2.0, 3.0, 4.0, 5.0, 6.0];
    let (decay, beta) = ([0.0f32, -1.0, 0.5], [1.0f32, 0.5, 0.25]);
    let (next, out) = kernels::delta_heads(
        &state, &q, &k, &v, &decay, &beta, 2, 1, &ready, &fade, 0.0, &square, &lack, &add_share,
        &finish,
    );
    for h in 0..3 {
        let mut s = state[4 * h..4 * h + 4].to_vec();
        let mut o = [0.0f32; 2];
        gdn_fused_step(&mut s, &mut o, &q, &k, &v[2 * h..2 * h + 2], decay[h], beta[h], 1.0);
        assert_eq!(&next[4 * h..4 * h + 4], &s[..]);
        assert_eq!(&out[2 * h..2 * h + 2], &o[..]);
    }
}

#[test]
fn heads_attend_with_the_keys_that_serve_them() {
    let times = |a: f32, b: f32| a as f64 * b as f64;
    let narrow = |sum: f64| sum as f32;
    let peak = |m: f32, v: f32, _: f32| m.max(v);
    let grow = |v: f32, max: f32| (v - max).exp();
    let widen = |v: f32| v as f64;
    let divide = |e: f32, sum: f64| (e as f64 / sum) as f32;
    let mac = |sum: f64, s: f32, v: f32| sum + s as f64 * v as f64;
    let q = [1.0f32, 2.0, 3.0, 4.0];
    let keys = [0.1f32, 0.2, 0.3, 0.4];
    let values = [10.0f32, 20.0, 30.0, 40.0];
    let out = kernels::attend_heads(
        &q, &keys, &values, 2, 1, 4, 2, &times, 0.0, &plus, &narrow, f32::NEG_INFINITY, &peak,
        &grow, &widen, &divide, &mac,
    );
    let heads: Vec<usize> = (0..4).map(|h| kernels::kv_head_of(h, 4, 2)).collect();
    assert_eq!(heads, vec![0, 0, 1, 1]);
    for h in 0..4 {
        let kv = heads[h];
        let scores = [q[h] * keys[kv], q[h] * keys[2 + kv]];
        let mut shares = [0.0f32; 2];
        softmax(&mut shares, &scores, 1.0);
        let want = shares[0] as f64 * values[kv] as f64 + shares[1] as f64 * values[2 + kv] as f64;
        assert_eq!(out[h], want as f32);
    }
}

#[test]
fn stretches_are_normed_one_by_one() {
    let scale = |sum: f64| sum as f32;
    let weigh = |x: f32, s: f32, w: f32| x * w + s;
    let out =
        kernels::rmsnorm_rows(&[1.0, 2.0, 3.0, 4.0, 5.0], &[10.0, 100.0], -1.0, 0.0, &square, &scale, &weigh);
    assert_eq!(out, vec![15.0, 205.0, 55.0, 425.0, -1.0]);
}

#[test]
fn heads_are_turned_alike() {
    let turn = |i: usize, a: i64, b: i64| (b * 10 + i as i64, a);
    let x: Vec<i64> = (0..18).collect();
    let out = kernels::turn_heads(&x, 9, 4, 3, &turn);
    assert_eq!(
        out,
        vec![40, 1, 2, 73, 0, 5, 6, 3, 8, 130, 10, 11, 163, 9, 14, 15, 12, 17]
    );
}
