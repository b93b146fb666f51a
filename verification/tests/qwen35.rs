use unltd_inference::error::LoadError;
use unltd_inference::gguf::parse;
use unltd_inference::ieee::F32;
use unltd_inference::qwen35::Qwen35Config;
struct W(Vec<u8>);

impl W {
    fn new() -> Self {
        W(Vec::new())
    }
    fn u32(mut self, v: u32) -> Self {
        self.0.extend_from_slice(&v.to_le_bytes());
        self
    }
    fn u64(mut self, v: u64) -> Self {
        self.0.extend_from_slice(&v.to_le_bytes());
        self
    }
    fn raw(mut self, b: &[u8]) -> Self {
        self.0.extend_from_slice(b);
        self
    }
    fn str(mut self, s: &str) -> Self {
        self = self.u64(s.len() as u64);
        self.raw(s.as_bytes())
    }
    fn kv_u32(self, key: &str, v: u32) -> Self {
        self.str(key).u32(4).u32(v)
    }
    fn kv_f32(self, key: &str, v: f32) -> Self {
        self.str(key).u32(6).raw(&v.to_le_bytes())
    }
    fn kv_i32_arr(self, key: &str, v: &[i32]) -> Self {
        let mut w = self.str(key).u32(9).u32(5).u64(v.len() as u64);
        for x in v {
            w = w.raw(&x.to_le_bytes());
        }
        w
    }
    fn finish(mut self) -> Vec<u8> {
        let data_start = (self.0.len() as u64 + 31) / 32 * 32;
        self.0.resize(data_start as usize, 0);
        self.0
    }
}

#[derive(Clone, Copy)]
struct Fx {
    n_layer: u32,
    n_embd: u32,
    n_head: u32,
    key_len: u32,
    val_len: u32,
    n_rot: u32,
    state: u32,
    group: u32,
    d_inner: u32,
    interval: u32,
}

impl Default for Fx {
    fn default() -> Self {
        Fx {
            n_layer: 32,
            n_embd: 4096,
            n_head: 16,
            key_len: 256,
            val_len: 256,
            n_rot: 64,
            state: 128,
            group: 16,
            d_inner: 4096,
            interval: 4,
        }
    }
}

fn fixture_with(f: Fx) -> Vec<u8> {
    W::new()
        .raw(b"GGUF")
        .u32(3)
        .u64(0)
        .u64(19)
        .str("general.architecture")
        .u32(8)
        .str("qwen35")
        .kv_u32("qwen35.block_count", f.n_layer)
        .kv_u32("qwen35.context_length", 262144)
        .kv_u32("qwen35.embedding_length", f.n_embd)
        .kv_u32("qwen35.feed_forward_length", 12288)
        .kv_u32("qwen35.attention.head_count", f.n_head)
        .kv_u32("qwen35.attention.head_count_kv", 4)
        .kv_u32("qwen35.attention.key_length", f.key_len)
        .kv_u32("qwen35.attention.value_length", f.val_len)
        .kv_f32("qwen35.attention.layer_norm_rms_epsilon", 1e-6)
        .kv_u32("qwen35.rope.dimension_count", f.n_rot)
        .kv_i32_arr("qwen35.rope.dimension_sections", &[11, 11, 10, 0])
        .kv_f32("qwen35.rope.freq_base", 1e7)
        .kv_u32("qwen35.ssm.conv_kernel", 4)
        .kv_u32("qwen35.ssm.state_size", f.state)
        .kv_u32("qwen35.ssm.group_count", f.group)
        .kv_u32("qwen35.ssm.time_step_rank", 32)
        .kv_u32("qwen35.ssm.inner_size", f.d_inner)
        .kv_u32("qwen35.full_attention_interval", f.interval)
        .finish()
}

fn parse_cfg(b: &[u8]) -> Result<Qwen35Config, LoadError> {
    let r = parse(b, b.len() as u64).unwrap();
    Qwen35Config::from_gguf(&r)
}

#[test]
fn parses_ornith_values_and_derived() {
    let cfg = parse_cfg(&fixture_with(Fx::default())).unwrap();
    assert_eq!(cfg.n_layer, 32);
    assert_eq!(cfg.n_embd, 4096);
    assert_eq!(cfg.n_ff, 12288);
    assert_eq!(cfg.n_head, 16);
    assert_eq!(cfg.n_head_kv, 4);
    assert_eq!(cfg.head_dim, 256);
    assert_eq!(cfg.head_dim_v, 256);
    assert_eq!(cfg.n_rot, 64);
    assert_eq!(cfg.freq_base, F32::from_bits(1e7f32.to_bits()));
    assert_eq!(cfg.rms_eps, F32::from_bits(1e-6f32.to_bits()));
    assert_eq!(cfg.conv_kernel, 4);
    assert_eq!(cfg.state_size, 128);
    assert_eq!(cfg.group_count, 16);
    assert_eq!(cfg.time_step_rank, 32);
    assert_eq!(cfg.d_inner, 4096);
    assert_eq!(cfg.full_attn_interval, 4);
    assert_eq!(cfg.rope_sections, vec![11, 11, 10, 0]);
    assert_eq!(cfg.context_length, 262144);

    assert_eq!(cfg.n_qk_heads(), 16);
    assert_eq!(cfg.head_dim_linear(), 128);
    assert_eq!(cfg.n_v_heads(), 32);
    assert_eq!(cfg.d_conv(), 8192);

    for i in [0, 1, 2, 4, 5, 6, 8] {
        assert!(!cfg.is_full_attn(i), "layer {i} must be recurrent");
    }
    for i in [3, 7, 11, 15, 19, 23, 27, 31] {
        assert!(cfg.is_full_attn(i), "layer {i} must be full");
    }
}

#[test]
fn missing_keys_accumulate_in_one_error() {
    let b = W::new()
        .raw(b"GGUF")
        .u32(3)
        .u64(0)
        .u64(1)
        .str("general.architecture")
        .u32(8)
        .str("qwen35")
        .finish();
    match parse_cfg(&b) {
        Err(LoadError::MissingConfig { n, fields }) => {
            assert_eq!(n, 18);
            assert!(fields.contains("qwen35.block_count"), "fields: {fields}");
            assert!(fields.contains("qwen35.ssm.conv_kernel"), "fields: {fields}");
            assert!(fields.contains("qwen35.rope.dimension_sections"), "fields: {fields}");
            assert!(fields.contains("qwen35.full_attention_interval"), "fields: {fields}");
        }
        other => panic!("expected MissingConfig, got {other:?}"),
    }

    let b = W::new()
        .raw(b"GGUF")
        .u32(3)
        .u64(0)
        .u64(17)
        .str("general.architecture")
        .u32(8)
        .str("qwen35")
        .kv_u32("qwen35.block_count", 32)
        .kv_u32("qwen35.context_length", 262144)
        .kv_u32("qwen35.embedding_length", 4096)
        .kv_u32("qwen35.feed_forward_length", 12288)
        .kv_u32("qwen35.attention.head_count", 16)
        .kv_u32("qwen35.attention.head_count_kv", 4)
        .kv_u32("qwen35.attention.key_length", 256)
        .kv_u32("qwen35.attention.value_length", 256)
        .kv_f32("qwen35.attention.layer_norm_rms_epsilon", 1e-6)
        .kv_u32("qwen35.rope.dimension_count", 64)
        .kv_i32_arr("qwen35.rope.dimension_sections", &[11, 11, 10, 0])
        .kv_u32("qwen35.ssm.state_size", 128)
        .kv_u32("qwen35.ssm.group_count", 16)
        .kv_u32("qwen35.ssm.time_step_rank", 32)
        .kv_u32("qwen35.ssm.inner_size", 4096)
        .kv_u32("qwen35.full_attention_interval", 4)
        .finish();
    match parse_cfg(&b) {
        Err(LoadError::MissingConfig { n, fields }) => {
            assert_eq!(n, 2);
            assert!(fields.contains("qwen35.ssm.conv_kernel"), "fields: {fields}");
            assert!(fields.contains("qwen35.rope.freq_base"), "fields: {fields}");
        }
        other => panic!("expected MissingConfig, got {other:?}"),
    }
}

#[test]
fn wrong_type_and_wrong_arch_refuse() {
    let b = W::new()
        .raw(b"GGUF")
        .u32(3)
        .u64(0)
        .u64(19)
        .str("general.architecture")
        .u32(8)
        .str("qwen35")
        .kv_f32("qwen35.block_count", 32.0)
        .kv_u32("qwen35.context_length", 262144)
        .kv_u32("qwen35.embedding_length", 4096)
        .kv_u32("qwen35.feed_forward_length", 12288)
        .kv_u32("qwen35.attention.head_count", 16)
        .kv_u32("qwen35.attention.head_count_kv", 4)
        .kv_u32("qwen35.attention.key_length", 256)
        .kv_u32("qwen35.attention.value_length", 256)
        .kv_f32("qwen35.attention.layer_norm_rms_epsilon", 1e-6)
        .kv_u32("qwen35.rope.dimension_count", 64)
        .kv_i32_arr("qwen35.rope.dimension_sections", &[11, 11, 10, 0])
        .kv_f32("qwen35.rope.freq_base", 1e7)
        .kv_u32("qwen35.ssm.conv_kernel", 4)
        .kv_u32("qwen35.ssm.state_size", 128)
        .kv_u32("qwen35.ssm.group_count", 16)
        .kv_u32("qwen35.ssm.time_step_rank", 32)
        .kv_u32("qwen35.ssm.inner_size", 4096)
        .kv_u32("qwen35.full_attention_interval", 4)
        .finish();
    match parse_cfg(&b) {
        Err(LoadError::BadFile(msg)) => assert!(msg.contains("qwen35.block_count"), "msg: {msg}"),
        other => panic!("expected BadFile, got {other:?}"),
    }

    let b = W::new()
        .raw(b"GGUF")
        .u32(3)
        .u64(0)
        .u64(1)
        .str("general.architecture")
        .u32(8)
        .str("llama")
        .finish();
    match parse_cfg(&b) {
        Err(LoadError::BadFile(msg)) => assert!(msg.contains("qwen35"), "msg: {msg}"),
        other => panic!("expected BadFile, got {other:?}"),
    }
}

#[test]
fn structural_checks_refuse() {
    match parse_cfg(&fixture_with(Fx { n_embd: 4097, ..Default::default() })) {
        Err(LoadError::StructCheck(msg)) => assert!(msg.contains("wq"), "msg: {msg}"),
        other => panic!("expected StructCheck, got {other:?}"),
    }

    match parse_cfg(&fixture_with(Fx { state: 64, ..Default::default() })) {
        Err(LoadError::StructCheck(msg)) => assert!(msg.contains("state_size"), "msg: {msg}"),
        other => panic!("expected StructCheck, got {other:?}"),
    }

    match parse_cfg(&fixture_with(Fx { n_rot: 63, ..Default::default() })) {
        Err(LoadError::StructCheck(msg)) => assert!(msg.contains("n_rot"), "msg: {msg}"),
        other => panic!("expected StructCheck, got {other:?}"),
    }

    match parse_cfg(&fixture_with(Fx { val_len: 128, ..Default::default() })) {
        Err(LoadError::StructCheck(msg)) => assert!(msg.contains("value_length"), "msg: {msg}"),
        other => panic!("expected StructCheck, got {other:?}"),
    }

    match parse_cfg(&fixture_with(Fx { d_inner: 4097, ..Default::default() })) {
        Err(LoadError::StructCheck(msg)) => assert!(msg.contains("d_inner"), "msg: {msg}"),
        other => panic!("expected StructCheck, got {other:?}"),
    }
}
