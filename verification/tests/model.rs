use std::cell::RefCell;

use unltd_inference::engine::{DeltaJob, Job};
use unltd_inference::error::LoadError;
use unltd_inference::forward::{dtype_of, row_bytes, MinForward};
use unltd_inference::gguf::{ggml_type_blocksize, parse, GgufReader, TensorMeta};
use unltd_inference::greedy::GreedyLoop;
use unltd_inference::ieee::F32;
use unltd_inference::layers::{check, layer_list, prefix, Qwen35Forward, TensorNeed};
use unltd_inference::plan::{
    accounts, controlled_plan, gguf_index_bytes, read_budget, run_context, run_plan,
};
use unltd_inference::qwen35::Qwen35Config;
use unltd_inference::session::{LayerDump, NodeCapture};
use unltd_inference::tensor::DType;
use unltd_inference::tokenizer::gpt2::Gpt2Tokenizer;
use unltd_inference::tokenizer::split::PreKind;
use unltd_inference::weights::MappedWeights;
use unltd_inference::wiring::Weight;

// ---- Files ----------------------------------------------------------------------------------

#[derive(Clone)]
struct Spec {
    n_embd: u32,
    d_inner: u32,
    state: u32,
    interval: u32,
    tensors: Vec<(String, Vec<u64>, u32)>,
}

fn size_of(dims: &[u64], kind: u32) -> u64 {
    let n: u64 = dims.iter().product();
    match kind {
        0 => n * 4,
        1 => n * 2,
        8 => n / 32 * 34,
        12 => n / 256 * 144,
        14 => n / 256 * 210,
        _ => 0,
    }
}

/// Four layers, the last of full attention, 256 wide, with two tokens.
fn small() -> Spec {
    let mut t: Vec<(String, Vec<u64>, u32)> = vec![
        ("token_embd.weight".into(), vec![256, 2], 12),
        ("output.weight".into(), vec![256, 2], 14),
        ("output_norm.weight".into(), vec![256], 0),
    ];
    for il in 0..4 {
        let mut add = |name: &str, dims: Vec<u64>, kind: u32| {
            t.push((format!("blk.{il}.{name}"), dims, kind));
        };
        add("attn_norm.weight", vec![256], 0);
        add("post_attention_norm.weight", vec![256], 0);
        add("ffn_gate.weight", vec![256, 512], 12);
        add("ffn_up.weight", vec![256, 512], 12);
        add("ffn_down.weight", vec![512, 256], if il == 1 { 14 } else { 12 });
        if il == 3 {
            add("attn_q.weight", vec![256, 512], 12);
            add("attn_q_norm.weight", vec![256], 0);
            add("attn_k.weight", vec![256, 256], 12);
            add("attn_k_norm.weight", vec![256], 0);
            add("attn_v.weight", vec![256, 256], 14);
            add("attn_output.weight", vec![256, 256], 12);
        } else {
            add("attn_qkv.weight", vec![256, 512], if il == 2 { 14 } else { 12 });
            add("attn_gate.weight", vec![256, 256], 12);
            add("ssm_conv1d.weight", vec![3, 512], 0);
            add("ssm_dt.bias", vec![2], 0);
            add("ssm_a", vec![2], 0);
            add("ssm_beta.weight", vec![256, 2], 12);
            add("ssm_alpha.weight", vec![256, 2], 12);
            add("ssm_norm.weight", vec![128], 0);
            add("ssm_out.weight", vec![256, 256], 12);
        }
    }
    Spec { n_embd: 256, d_inner: 256, state: 128, interval: 4, tensors: t }
}

fn file(spec: &Spec) -> Vec<u8> {
    let mut b: Vec<u8> = Vec::new();
    let text = |b: &mut Vec<u8>, s: &str| {
        b.extend_from_slice(&(s.len() as u64).to_le_bytes());
        b.extend_from_slice(s.as_bytes());
    };
    b.extend_from_slice(b"GGUF");
    b.extend_from_slice(&3u32.to_le_bytes());
    b.extend_from_slice(&(spec.tensors.len() as u64).to_le_bytes());
    b.extend_from_slice(&19u64.to_le_bytes());
    text(&mut b, "general.architecture");
    b.extend_from_slice(&8u32.to_le_bytes());
    text(&mut b, "qwen35");
    for (key, value) in [
        ("block_count", 4),
        ("context_length", 64),
        ("embedding_length", spec.n_embd),
        ("feed_forward_length", 512),
        ("attention.head_count", 1),
        ("attention.head_count_kv", 1),
        ("attention.key_length", spec.n_embd),
        ("attention.value_length", spec.n_embd),
        ("rope.dimension_count", 64),
        ("ssm.conv_kernel", 3),
        ("ssm.state_size", spec.state),
        ("ssm.group_count", 1),
        ("ssm.time_step_rank", 2),
        ("ssm.inner_size", spec.d_inner),
        ("full_attention_interval", spec.interval),
    ] {
        text(&mut b, &format!("qwen35.{key}"));
        b.extend_from_slice(&4u32.to_le_bytes());
        b.extend_from_slice(&value.to_le_bytes());
    }
    for (key, value) in [("attention.layer_norm_rms_epsilon", 1e-6f32), ("rope.freq_base", 1e7)] {
        text(&mut b, &format!("qwen35.{key}"));
        b.extend_from_slice(&6u32.to_le_bytes());
        b.extend_from_slice(&value.to_le_bytes());
    }
    text(&mut b, "qwen35.rope.dimension_sections");
    b.extend_from_slice(&9u32.to_le_bytes());
    b.extend_from_slice(&5u32.to_le_bytes());
    b.extend_from_slice(&4u64.to_le_bytes());
    for v in [11i32, 11, 10, 0] {
        b.extend_from_slice(&v.to_le_bytes());
    }
    let mut at = 0u64;
    for (name, dims, kind) in &spec.tensors {
        text(&mut b, name);
        b.extend_from_slice(&(dims.len() as u32).to_le_bytes());
        for d in dims {
            b.extend_from_slice(&d.to_le_bytes());
        }
        b.extend_from_slice(&kind.to_le_bytes());
        b.extend_from_slice(&at.to_le_bytes());
        at = (at + size_of(dims, *kind)).div_ceil(32) * 32;
    }
    let data = b.len().div_ceil(32) * 32;
    b.resize(data + at as usize, 0);
    b
}

fn renamed(mut spec: Spec, old: &str, new: &str) -> Spec {
    for t in &mut spec.tensors {
        if t.0 == old {
            t.0 = new.to_string();
        }
    }
    spec
}

fn retyped(mut spec: Spec, name: &str, dims: Vec<u64>, kind: u32) -> Spec {
    for t in &mut spec.tensors {
        if t.0 == name {
            t.1 = dims.clone();
            t.2 = kind;
        }
    }
    spec
}

fn words_of(r: Result<Qwen35Forward, LoadError>) -> String {
    r.err().expect("a refusal").message()
}

// ---- Types and rows -------------------------------------------------------------------------

#[test]
fn row_bytes_sizes_are_exact() {
    assert_eq!(row_bytes(DType::F32, 4096).unwrap(), 16384);
    assert_eq!(row_bytes(DType::Q4K, 4096).unwrap(), 16 * 144);
    assert_eq!(row_bytes(DType::Q6K, 4096).unwrap(), 16 * 210);
    assert_eq!(row_bytes(DType::Q8_0, 64).unwrap(), 2 * 34);
    assert!(row_bytes(DType::Q4K, 4097).is_err());
    assert!(row_bytes(DType::Q8_0, 33).is_err());
}

#[test]
fn dtype_of_maps_and_refuses() {
    let meta = |id: u32| TensorMeta {
        name: "t".into(),
        offset: 0,
        nbytes: Some(4),
        dtype: "?".into(),
        ggml_type_id: id,
        shape: vec![1],
        n_elements: 1,
    };
    assert_eq!(dtype_of(&meta(0)).unwrap(), DType::F32);
    assert_eq!(dtype_of(&meta(12)).unwrap(), DType::Q4K);
    assert_eq!(dtype_of(&meta(14)).unwrap(), DType::Q6K);
    match dtype_of(&meta(39)) {
        Err(LoadError::UnknownGgmlType(39)) => {}
        other => panic!("expected UnknownGgmlType, got {other:?}"),
    }
}

#[test]
fn rows_that_cannot_be_sized_are_refused_in_words() {
    assert_eq!(row_bytes(DType::F16, 10).unwrap(), 20);
    let most = u64::MAX - 255;
    assert_eq!(row_bytes(DType::Q4K, most).unwrap(), most / 256 * 144);
    assert_eq!(row_bytes(DType::F16, u64::MAX / 2).unwrap(), u64::MAX - 1);
    assert_eq!(
        row_bytes(DType::Q6K, 4097).unwrap_err().message(),
        "corrupt file: dimensión 4097 no es múltiplo de 256 para Q6K"
    );
    assert_eq!(
        row_bytes(DType::Q8_0, 33).unwrap_err().message(),
        "corrupt file: dimensión 33 no es múltiplo de 32 para Q8_0"
    );
    assert_eq!(
        row_bytes(DType::BF16, 8).unwrap_err().message(),
        "corrupt file: dtype BF16 sin tamaño de fila"
    );
}

#[test]
fn rows_have_the_sizes_of_their_blocks() {
    for (dtype, id) in [(DType::F32, 0), (DType::F16, 1), (DType::Q8_0, 8), (DType::Q4K, 12)] {
        let (bytes, elems) = ggml_type_blocksize(id).unwrap();
        assert_eq!(row_bytes(dtype, 1024).unwrap(), 1024 / elems * bytes);
    }
}

// ---- The embedding and the output -----------------------------------------------------------

#[test]
fn a_model_is_opened() {
    let b = file(&small());
    let m = Qwen35Forward::open(MappedWeights::open(&b).unwrap()).ok().unwrap();
    assert_eq!(m.vocab(), 2);
    assert_eq!(m.cfg().n_embd, 256);
    assert_eq!(m.head().embedding_type(), DType::Q4K);
    let head = m.head().output_head().ok().unwrap();
    assert_eq!((head.dtype, head.row_bytes), (DType::Q6K, 210));
    assert_eq!(head.rows.len(), 420);
    let kinds: Vec<(bool, usize)> = (0..4).map(|il| (m.layer(il).full, m.layer(il).slot)).collect();
    assert_eq!(kinds, vec![(false, 0), (false, 1), (false, 2), (true, 0)]);
    assert_eq!(m.layer(0).down, DType::Q4K);
    assert_eq!(m.layer(1).down, DType::Q6K);
    assert_eq!(m.layer(2).values, DType::Q6K);
    assert_eq!(m.layer(3).values, DType::Q6K);
    assert_eq!(m.weight(3, "attn_k.weight").unwrap().len(), 256 * 144);
    assert!(m.weight(0, "attn_k.weight").is_none());
    assert_eq!(prefix(12), "blk.12.");
}

#[test]
fn rows_of_the_embedding_are_those_of_the_tokens() {
    let spec = small();
    let mut b = file(&spec);
    let start = {
        let r = parse(&b, b.len() as u64).unwrap();
        r.tensors()[0].offset as usize
    };
    b[start] = 7;
    b[start + 144] = 9;
    let m = MinForward::open(MappedWeights::open(&b).unwrap()).ok().unwrap();
    let rows = m.embed(&[1, 0, 1]).unwrap();
    assert_eq!(rows.len(), 3);
    assert!(rows.iter().all(|r| r.len() == 144));
    assert_eq!((rows[0][0], rows[1][0], rows[2][0]), (9, 7, 9));
    assert_eq!(
        m.embed(&[0, 2]).unwrap_err().message(),
        "corrupt file: token 2 fuera del vocab (0..2)"
    );
}

#[test]
fn an_embedding_that_does_not_fit_is_refused() {
    let open = |spec: Spec| words_of(Qwen35Forward::open(MappedWeights::open(&file(&spec)).unwrap()));
    assert_eq!(
        open(renamed(small(), "token_embd.weight", "other")),
        "tensor 'token_embd.weight' not found in the file index"
    );
    assert_eq!(
        open(retyped(small(), "token_embd.weight", vec![512], 12)),
        "corrupt file: token_embd.weight: se esperaban 2 dims, hay 1"
    );
    assert_eq!(
        open(retyped(small(), "token_embd.weight", vec![512, 2], 12)),
        "tensor 'token_embd.weight' has 512 elements, expected 256"
    );
    assert_eq!(
        open(retyped(small(), "token_embd.weight", vec![256, 2], 14)),
        "corrupt file: token_embd.weight es Q6K: el lookup de embeddings solo soporta F32 y Q4_K (Fase 5)"
    );
    assert_eq!(
        open(retyped(small(), "token_embd.weight", vec![256, 2], 31)),
        "unknown ggml type id 31"
    );
}

#[test]
fn an_output_that_does_not_fit_is_refused() {
    let open = |spec: Spec| {
        let b = file(&spec);
        let m = MinForward::open(MappedWeights::open(&b).unwrap()).ok().unwrap();
        let r = m.output_head().err().expect("a refusal").message();
        r
    };
    assert_eq!(
        open(renamed(small(), "output.weight", "other")),
        "tensor 'output.weight' not found in the file index"
    );
    assert_eq!(
        open(retyped(small(), "output.weight", vec![256, 3], 14)),
        "tensor 'output.weight' has 768 elements, expected 512"
    );
    assert_eq!(
        open(retyped(small(), "output.weight", vec![512], 14)),
        "corrupt file: output.weight: se esperaban 2 dims, hay 1"
    );
    assert_eq!(
        open(retyped(small(), "output.weight", vec![256, 2], 31)),
        "unknown ggml type id 31"
    );
}

// ---- The layers -----------------------------------------------------------------------------

#[test]
fn the_first_tensor_that_does_not_fit_is_named() {
    let open = |spec: Spec| words_of(Qwen35Forward::open(MappedWeights::open(&file(&spec)).unwrap()));
    assert_eq!(
        open(renamed(small(), "output_norm.weight", "other")),
        "tensor 'output_norm.weight' not found in the file index"
    );
    assert_eq!(
        open(renamed(small(), "blk.2.ssm_a", "other")),
        "tensor 'blk.2.ssm_a' not found in the file index"
    );
    assert_eq!(
        open(retyped(small(), "blk.3.attn_q.weight", vec![256, 256], 12)),
        "tensor 'blk.3.attn_q.weight' has 65536 elements, expected 131072"
    );
    assert_eq!(
        open(retyped(small(), "blk.0.ffn_down.weight", vec![512, 256], 1)),
        "corrupt file: tensor 'blk.0.ffn_down.weight': dtype F16, se esperaba uno de [Q4K, Q6K]"
    );
    assert_eq!(
        open(retyped(small(), "blk.0.ffn_up.weight", vec![256, 512], 14)),
        "corrupt file: tensor 'blk.0.ffn_up.weight': dtype Q6K, se esperaba uno de [Q4K]"
    );
}

#[test]
fn a_model_without_inner_width_is_refused() {
    let mut spec = small();
    spec.d_inner = 0;
    spec.state = 0;
    assert_eq!(
        words_of(Qwen35Forward::open(MappedWeights::open(&file(&spec)).unwrap())),
        "config fails a structural check: ssm.inner_size = 0"
    );
}

#[test]
fn layers_need_their_tensors_in_order() {
    let b = file(&small());
    let m = Qwen35Forward::open(MappedWeights::open(&b).unwrap()).ok().unwrap();
    let names: Vec<String> = layer_list(m.cfg(), 3).iter().map(|n| n.name.clone()).collect();
    assert_eq!(names.len(), 11);
    assert_eq!(names[0], "blk.3.attn_norm.weight");
    assert_eq!(names[10], "blk.3.attn_output.weight");
    assert_eq!(layer_list(m.cfg(), 0).len(), 14);
    assert_eq!(layer_list(m.cfg(), 0)[7].elems, 3 * 512);
    let r: &GgufReader = m.head().weights().reader();
    let need = TensorNeed { name: "ssm".into(), elems: 1, allowed: vec![DType::F32] };
    assert!(matches!(check(r, &need), Err(LoadError::MissingTensor { .. })));
}

/// Hyperparameters of a full-size model.
fn dummy_cfg() -> Qwen35Config {
    Qwen35Config {
        n_layer: 32,
        n_embd: 4096,
        n_ff: 12288,
        n_head: 16,
        n_head_kv: 4,
        head_dim: 256,
        head_dim_v: 256,
        n_rot: 64,
        freq_base: F32::from_bits(1e7f32.to_bits()),
        rms_eps: F32::from_bits(1e-6f32.to_bits()),
        conv_kernel: 4,
        state_size: 128,
        group_count: 16,
        time_step_rank: 32,
        d_inner: 4096,
        full_attn_interval: 4,
        rope_sections: vec![11, 11, 10, 0],
        context_length: 262144,
    }
}

#[test]
fn layer_kind_pattern_is_3_of_4_recurrent() {
    let cfg = dummy_cfg();
    let mut n_recr = 0;
    let mut n_attn = 0;
    for il in 0..cfg.n_layer {
        if cfg.is_full_attn(il) {
            n_attn += 1;
        } else {
            n_recr += 1;
        }
    }
    assert_eq!((n_recr, n_attn), (24, 8));
}

// ---- Sessions -------------------------------------------------------------------------------

#[test]
fn a_session_remembers_and_fills_up() {
    let b = file(&small());
    let m = Qwen35Forward::open(MappedWeights::open(&b).unwrap()).ok().unwrap();
    let mut s = m.new_session(2, 0.0f32);
    assert_eq!(s.begin().unwrap(), 0);

    let row = |v: f32| vec![v; 512];
    assert_eq!(s.conv_window(1, &row(5.0)).len(), 3 * 512);
    for v in [1.0, 2.0, 3.0] {
        s.conv_shift(1, &row(v));
    }
    let w = s.conv_window(1, &row(4.0));
    assert_eq!((w[0], w[512], w[1024]), (2.0, 3.0, 4.0));
    assert!(s.conv_window(0, &row(4.0))[..1024].iter().all(|&v| v == 0.0));

    let mut state = s.gdn_state(2);
    assert_eq!(state.len(), 2 * 128 * 128);
    state[3] = 8.0;
    s.set_gdn_state(2, state);
    assert_eq!((s.gdn_state(2)[3], s.gdn_state(1)[3]), (8.0, 0.0));

    s.store(0, &vec![1.0; 256], &vec![2.0; 256]);
    s.advance();
    s.store(0, &vec![3.0; 256], &vec![4.0; 256]);
    assert_eq!((s.keys(0)[7], s.keys(0)[256]), (1.0, 3.0));
    assert_eq!((s.values(0)[255], s.values(0)[511]), (2.0, 4.0));
    assert_eq!(s.keys(0).len(), 512);
    s.advance();
    assert_eq!(s.position(), 2);
    assert_eq!(
        s.begin().unwrap_err().message(),
        "corrupt file: contexto lleno: 2 tokens procesados, ctx = 2"
    );
}

#[test]
fn a_session_drives_a_loop() {
    let b = file(&small());
    let m = Qwen35Forward::open(MappedWeights::open(&b).unwrap()).ok().unwrap();
    let session = RefCell::new(m.new_session(3, 0u32));
    let mut g = GreedyLoop::new(
        |t: u32| {
            m.head().embed(&[t])?;
            session.borrow().begin()?;
            session.borrow_mut().advance();
            Ok(vec![F32::from_bits(0), F32::from_bits(0x3F80_0000)])
        },
        None,
        2,
    );
    g.prefill(&[0, 1]).unwrap();
    assert_eq!(g.next_token().unwrap(), Some(1));
    assert_eq!(g.next_token().unwrap(), Some(1));
    assert_eq!(g.next_token().unwrap(), None);
    assert_eq!(session.borrow().position(), 3);
}

#[test]
fn a_step_moves_rows_as_the_layers_are_wired() {
    let b = file(&small());
    let m = Qwen35Forward::open(MappedWeights::open(&b).unwrap()).ok().unwrap();
    let mut s = m.new_session(2, 0i64);
    let work = |il: usize, width: u64, job: Job<i64>| -> Vec<i64> {
        let x: Vec<i64> = match job {
            Job::Add { x, y } => x.iter().zip(y).map(|(a, b)| a + b).collect(),
            Job::Conv { window, .. } => {
                let n = window.len();
                window[n - width as usize..].to_vec()
            }
            Job::Turn { x, position } => x.iter().map(|v| v + 1000 * position as i64).collect(),
            Job::Attend { keys, tokens, .. } => {
                vec![keys[(tokens - 1) * 256]; width as usize]
            }
            _ => vec![il as i64 + 1; width as usize],
        };
        assert_eq!(x.len(), width as usize);
        x
    };
    let delta = |il: usize, job: DeltaJob<i64>| {
        (vec![il as i64 + 7; job.state.len()], vec![3; job.v.len()])
    };
    let mut dump = Some(LayerDump {
        attn_residual: vec![0; 4 * 256],
        l_out: vec![0; 4 * 256],
        linear_attn_out: vec![9; 4 * 256],
    });
    let mut nodes = Some(NodeCapture::new());
    let x = vec![5i64; 256];
    let out = m.step(&mut s, &x, &mut dump, &mut nodes, 0, &work, &delta).unwrap();
    // Every layer adds two rows of its number, once after attention and once at the end.
    assert_eq!(out, vec![5 + 2 + 4 + 6 + 8; 256]);
    assert_eq!(s.position(), 1);
    assert_eq!(s.gdn_state(1)[0], 8);
    assert_eq!(s.conv_window(2, &[0; 512])[512], 3);
    assert_eq!((s.keys(0)[0], s.keys(0)[256]), (4, 0));
    let d = dump.as_ref().unwrap();
    assert_eq!((d.attn_residual[0], d.l_out[0]), (6, 7));
    assert_eq!((d.linear_attn_out[0], d.linear_attn_out[3 * 256]), (1, 0));
    let seen = &nodes.as_ref().unwrap().per_token;
    assert_eq!(seen.len(), 1);
    assert_eq!(seen[0].len(), 3 * 26);
    assert_eq!(seen[0][0].0, "attn_norm-0");
    assert_eq!(seen[0][77].0, "l_out-2");

    let again = m.step(&mut s, &x, &mut None, &mut None, 0, &work, &delta).unwrap();
    assert_eq!(again, out);
    assert_eq!((s.keys(0)[0], s.keys(0)[256]), (4, 1004));
    assert!(matches!(
        m.step(&mut s, &x, &mut None, &mut None, 0, &work, &delta),
        Err(LoadError::BadFile(_))
    ));
    assert_eq!(s.position(), 2);
}

/// Like [`small`], with a linear part half as wide as the embedding.
fn narrow() -> Spec {
    let mut spec = small();
    spec.d_inner = 128;
    spec.state = 64;
    for (name, dims, _) in &mut spec.tensors {
        if name.ends_with("attn_qkv.weight") {
            *dims = vec![256, 256];
        } else if name.ends_with("ssm_conv1d.weight") {
            *dims = vec![3, 256];
        } else if name.ends_with("ssm_norm.weight") {
            *dims = vec![64];
        }
    }
    spec
}

#[test]
fn only_the_heads_that_were_made_are_normed() {
    let b = file(&narrow());
    let m = Qwen35Forward::open(MappedWeights::open(&b).unwrap()).ok().unwrap();
    let mut s = m.new_session(1, 0i64);
    let normed = RefCell::new(Vec::new());
    let work = |_: usize, width: u64, job: Job<i64>| -> Vec<i64> {
        match job {
            Job::Norm { x, weight: Weight::SsmNorm } => {
                normed.borrow_mut().push((x.to_vec(), width));
                x.iter().map(|v| v + 10).collect()
            }
            Job::Mul { x, y } => x.iter().zip(y).map(|(a, b)| a * b).collect(),
            _ => vec![2; width as usize],
        }
    };
    let delta =
        |_: usize, job: DeltaJob<i64>| (job.state.to_vec(), vec![3; job.v.len()]);
    let mut nodes = Some(NodeCapture::new());
    m.step(&mut s, &vec![1; 256], &mut None, &mut nodes, 0, &work, &delta).unwrap();
    assert_eq!(*normed.borrow(), vec![(vec![3; 128], 128); 3]);
    let seen = &nodes.as_ref().unwrap().per_token[0];
    let row = |name: &str| &seen.iter().find(|n| n.0 == name).unwrap().1;
    assert_eq!(*row("attn_output-0"), [vec![3; 128], vec![0; 128]].concat());
    assert_eq!(*row("final_output-0"), [vec![26; 128], vec![0; 128]].concat());
}

#[test]
fn full_attention_alone_runs_with_a_linear_part_of_any_width() {
    let mut spec = small();
    spec.d_inner = 512;
    spec.state = 256;
    spec.interval = 1;
    let ends = ["attn_qkv", "attn_gate", "ssm_conv1d", "ssm_dt", "ssm_a", "ssm_beta", "ssm_alpha"];
    spec.tensors.retain(|(name, _, _)| {
        let part = name.split('.').nth(2).unwrap_or("");
        !ends.contains(&part) && part != "ssm_norm" && part != "ssm_out"
    });
    let kinds = [
        ("attn_q.weight", vec![256, 512], 12),
        ("attn_q_norm.weight", vec![256], 0),
        ("attn_k.weight", vec![256, 256], 12),
        ("attn_k_norm.weight", vec![256], 0),
        ("attn_v.weight", vec![256, 256], 14),
        ("attn_output.weight", vec![256, 256], 12),
    ];
    for il in 0..3 {
        for (name, dims, kind) in &kinds {
            spec.tensors.push((format!("blk.{il}.{name}"), dims.clone(), *kind));
        }
    }
    let b = file(&spec);
    let m = Qwen35Forward::open(MappedWeights::open(&b).unwrap()).ok().unwrap();
    assert!(m.cfg().d_inner > m.cfg().n_embd);
    let mut s = m.new_session(2, 0i64);
    let work = |il: usize, width: u64, job: Job<i64>| match job {
        Job::Add { x, y } => x.iter().zip(y).map(|(a, b)| a + b).collect(),
        _ => vec![il as i64 + 1; width as usize],
    };
    let delta = |_: usize, _: DeltaJob<i64>| -> (Vec<i64>, Vec<i64>) { unreachable!() };
    let x = vec![5i64; 256];
    for k in 0..2 {
        assert_eq!(s.position(), k);
        let out = m.step(&mut s, &x, &mut None, &mut None, 0, &work, &delta).unwrap();
        assert_eq!(out, vec![5 + 2 + 4 + 6 + 8; 256]);
    }
    assert!(m.step(&mut s, &x, &mut None, &mut None, 0, &work, &delta).is_err());
}

// ---- Memory ---------------------------------------------------------------------------------

fn tokenizer() -> Gpt2Tokenizer {
    Gpt2Tokenizer::from_parts(
        vec!["a".to_string(), "b".to_string()],
        vec![1, 1],
        &vec![],
        PreKind::Gpt2,
        "default".to_string(),
        None,
        None,
    )
    .ok()
    .unwrap()
}

#[test]
fn the_plan_counts_every_part() {
    let b = file(&small());
    let m = Qwen35Forward::open(MappedWeights::open(&b).unwrap()).ok().unwrap();
    let tok = tokenizer();
    let r = m.head().weights().reader();
    let numerals = vec!["0.5".to_string(); r.metadata().len()];
    let mut index: u64 = 0;
    for (k, v) in r.metadata() {
        index += (k.len() + v.describe("0.5").len()) as u64;
    }
    for t in r.tensors() {
        index += t.name.len() as u64 + 96;
    }
    assert_eq!(gguf_index_bytes(r, &numerals), index);

    let recurrent = 3 * (2 * 512 + 2 * 128 * 128) * 4;
    let elems: u64 = 18 * 256 + 3 * 512 + 8 * 512 + 5 * 2 + 2 * 256 + 10;
    let scratch = elems * 4 + 2 * 2 * 4 + 2 * 8;
    let overhead = tok.heap_bytes() + index;
    assert_eq!(
        controlled_plan(&m, &tok, r, &numerals, 10),
        Some((recurrent, scratch, overhead))
    );
    let plan = run_plan(&m, &tok, r, &numerals, 10).unwrap();
    assert_eq!(plan.kv_bytes, 10 * 256 * 2 * 4);
    assert_eq!(plan.runtime_bytes, overhead + recurrent);
    assert_eq!(
        plan.mandatory_bytes,
        plan.kv_bytes + scratch + overhead + recurrent
    );
    let a = accounts(plan.mandatory_bytes, &plan);
    assert!(!a.must_refuse() && a.budget_respected());
    assert_eq!(a.available_budget(), 0);
    let a = accounts(plan.mandatory_bytes - 1, &plan);
    assert!(a.must_refuse() && !a.budget_respected());
}

#[test]
fn a_run_needs_room_for_prompt_and_answer() {
    assert_eq!(run_context(&[1, 2, 3], 20).unwrap(), 23);
    assert_eq!(run_context(&[1], 0).unwrap(), 1);
    assert_eq!(
        run_context(&[], 20).unwrap_err().message(),
        "corrupt file: prompt vacío"
    );
}

#[test]
fn a_budget_is_read_or_refused_in_words() {
    assert_eq!(read_budget(None).unwrap(), None);
    assert_eq!(read_budget(Some("1K")).unwrap(), Some(1024));
    assert_eq!(
        read_budget(Some("4X")).unwrap_err().message(),
        "corrupt file: --memory-budget \"4X\": sufijo \"X\" desconocido (válidos: K/KB, M/MB, G/GB, T/TB, o bytes sin sufijo)"
    );
}
