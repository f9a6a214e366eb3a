use annapura::arith::Arith;
use annapura::attention::KvCache;
use annapura::embedding::{embed, embedding_table, EmbedError};
use annapura::generate::OutputHead;
use annapura::gguf::{parse, TensorType};
use annapura::quant::{QuantError, TensorError};
use annapura::roofline::{layer_ops, Bound, Hardware, Projection, Totals};
use annapura::transformer::{
    attention_half, check_attention, check_block, feed_forward_half, forward_layer, forward_token,
    layer_size_mb, Config, ConfigError, Key, LayerWeights, LoadError, Part, Scratch,
};

/// Single-precision arithmetic.
struct F32;

impl Arith for F32 {
    type Num = f32;

    fn from_i8(v: i8) -> f32 {
        v as f32
    }
    fn from_u64(v: u64) -> f32 {
        v as f32
    }
    fn from_bits(bits: u32) -> f32 {
        f32::from_bits(bits)
    }
    fn empty_sum() -> f32 {
        core::iter::empty::<f32>().sum()
    }
    fn infinity() -> f32 {
        f32::INFINITY
    }
    fn neg_infinity() -> f32 {
        f32::NEG_INFINITY
    }
    fn plus(a: f32, b: f32) -> f32 {
        a + b
    }
    fn minus(a: f32, b: f32) -> f32 {
        a - b
    }
    fn times(a: f32, b: f32) -> f32 {
        a * b
    }
    fn divide(a: f32, b: f32) -> f32 {
        a / b
    }
    fn negate(a: f32) -> f32 {
        -a
    }
    fn abs(a: f32) -> f32 {
        a.abs()
    }
    fn sqrt(a: f32) -> f32 {
        a.sqrt()
    }
    fn exp(a: f32) -> f32 {
        a.exp()
    }
    fn powf(base: f32, e: f32) -> f32 {
        base.powf(e)
    }
    fn sin_cos(a: f32) -> (f32, f32) {
        a.sin_cos()
    }
    fn max(a: f32, b: f32) -> f32 {
        a.max(b)
    }
    fn min(a: f32, b: f32) -> f32 {
        a.min(b)
    }
    fn exceeds(a: f32, b: f32) -> bool {
        a > b
    }
}

/// Builds a model file byte by byte.
struct File {
    bytes: Vec<u8>,
}

impl File {
    fn new(n_tensors: u64, n_metadata: u64) -> File {
        let mut f = File { bytes: Vec::new() };
        f.bytes.extend_from_slice(b"GGUF");
        f.u32(3).u64(n_tensors).u64(n_metadata);
        f
    }
    fn u32(&mut self, v: u32) -> &mut File {
        self.bytes.extend_from_slice(&v.to_le_bytes());
        self
    }
    fn u64(&mut self, v: u64) -> &mut File {
        self.bytes.extend_from_slice(&v.to_le_bytes());
        self
    }
    fn text(&mut self, s: &str) -> &mut File {
        self.u64(s.len() as u64);
        self.bytes.extend_from_slice(s.as_bytes());
        self
    }
    fn meta_u32(&mut self, key: &str, v: u32) -> &mut File {
        self.text(key).u32(4).u32(v)
    }
    fn meta_f32(&mut self, key: &str, v: f32) -> &mut File {
        self.text(key).u32(6).u32(v.to_bits())
    }
    #[allow(dead_code)]
    fn meta_text(&mut self, key: &str, v: &str) -> &mut File {
        self.text(key).u32(8).text(v)
    }
    fn tensor(&mut self, name: &str, shape: &[u64], dtype: u32, offset: u64) -> &mut File {
        self.text(name).u32(shape.len() as u32);
        for d in shape {
            self.u64(*d);
        }
        self.u32(dtype).u64(offset)
    }
    fn align(&mut self, alignment: usize) -> &mut File {
        while self.bytes.len() % alignment != 0 {
            self.bytes.push(0);
        }
        self
    }
}

const HIDDEN: usize = 4;
const HEADS: usize = 2;
const HEAD_DIM: usize = 2;
const KV_HEADS: usize = 1;
const KV_DIM: usize = 2;
const INNER: usize = 3;

fn pseudo(n: usize, seed: u64) -> Vec<f32> {
    let mut s = seed.wrapping_mul(0x9E3779B97F4A7C15);
    (0..n)
        .map(|_| {
            s = s.wrapping_mul(6364136223846793005).wrapping_add(1442695040888963407);
            ((s >> 33) as u32 as f64 / u32::MAX as f64 * 2.0 - 1.0) as f32
        })
        .collect()
}

const PARTS: [(&str, usize); 9] = [
    ("attn_norm.weight", HIDDEN),
    ("attn_q.weight", HIDDEN * HIDDEN),
    ("attn_k.weight", HIDDEN * KV_DIM),
    ("attn_v.weight", HIDDEN * KV_DIM),
    ("attn_output.weight", HIDDEN * HIDDEN),
    ("ffn_norm.weight", HIDDEN),
    ("ffn_gate.weight", HIDDEN * INNER),
    ("ffn_up.weight", HIDDEN * INNER),
    ("ffn_down.weight", HIDDEN * INNER),
];

/// A model with one block and five tokens; `skip` leaves a tensor or an entry out.
fn tiny(skip: &str) -> Vec<u8> {
    let numbers = [
        ("llama.rope.dimension_count", HEAD_DIM),
        ("llama.attention.head_count", HEADS),
        ("llama.attention.head_count_kv", KV_HEADS),
        ("llama.block_count", 1),
        ("llama.context_length", 6),
        ("llama.feed_forward_length", INNER),
        ("llama.embedding_length", HIDDEN),
    ];
    let mut tensors: Vec<(String, Vec<u64>, Vec<f32>)> = Vec::new();
    for (i, (name, n)) in PARTS.iter().enumerate() {
        tensors.push((format!("blk.12.{}", name), vec![*n as u64], pseudo(*n, i as u64 + 1)));
    }
    tensors.push(("token_embd.weight".to_string(), vec![HIDDEN as u64, 5], pseudo(HIDDEN * 5, 99)));
    let kept: Vec<_> = tensors.into_iter().filter(|t| t.0 != skip).collect();
    let keys: Vec<_> = numbers.into_iter().filter(|k| k.0 != skip).collect();
    let eps = if skip == "eps" { 0 } else { 1 };
    let mut f = File::new(kept.len() as u64, keys.len() as u64 + eps);
    if eps == 1 {
        f.meta_f32("llama.attention.layer_norm_rms_epsilon", 1e-5);
    }
    for (k, v) in keys {
        f.meta_u32(k, v as u32);
    }
    let mut offset = 0;
    for (name, shape, data) in &kept {
        f.tensor(name, shape, 0, offset);
        offset += data.len() as u64 * 4;
    }
    f.align(32);
    for (_, _, data) in &kept {
        for v in data {
            f.u32(v.to_bits());
        }
    }
    f.bytes
}

#[test]
fn config_is_read_from_the_metadata() {
    let bytes = tiny("");
    let cfg = Config::<F32>::from_model(&parse(&bytes).unwrap()).unwrap();
    assert_eq!(cfg.eps, 1e-5);
    assert_eq!(cfg.freq_base, 10000.0);
    assert_eq!((cfg.head_dim, cfg.n_heads, cfg.n_kv_heads, cfg.n_layers), (2, 2, 1, 1));
    assert_eq!((cfg.hidden, cfg.kv_dim, cfg.intermediate), (4, 2, 3));
    assert_eq!((cfg.vocab, cfg.max_seq_len), (5, 6));
}

fn config_error(bytes: &[u8]) -> ConfigError {
    match Config::<F32>::from_model(&parse(bytes).unwrap()) {
        Ok(_) => panic!("config"),
        Err(e) => e,
    }
}

#[test]
fn each_config_error_is_reported() {
    let keys = [
        ("llama.rope.dimension_count", Key::HeadDim),
        ("llama.attention.head_count", Key::Heads),
        ("llama.attention.head_count_kv", Key::KvHeads),
        ("llama.block_count", Key::Layers),
        ("llama.context_length", Key::Context),
        ("llama.feed_forward_length", Key::FeedForward),
        ("llama.embedding_length", Key::Hidden),
    ];
    assert_eq!(config_error(&tiny("eps")), ConfigError::Metadata(Key::Epsilon));
    for (name, key) in keys {
        assert_eq!(config_error(&tiny(name)), ConfigError::Metadata(key));
        assert_eq!(key.name(), name);
    }
    assert_eq!(config_error(&tiny("token_embd.weight")), ConfigError::NoEmbedding);

    let numbers = |hidden: u32, shape: &[u64]| {
        let mut f = File::new(1, 9);
        f.meta_f32("llama.attention.layer_norm_rms_epsilon", 1e-5);
        f.meta_f32("llama.rope.freq_base", 500.0);
        f.meta_u32("llama.rope.dimension_count", 2);
        f.meta_u32("llama.attention.head_count", 2);
        f.meta_u32("llama.attention.head_count_kv", 1);
        f.meta_u32("llama.block_count", 1);
        f.meta_u32("llama.context_length", 1);
        f.meta_u32("llama.feed_forward_length", 1);
        f.meta_u32("llama.embedding_length", hidden);
        f.tensor("token_embd.weight", shape, 0, 0);
        f.bytes
    };
    assert_eq!(config_error(&numbers(5, &[4, 5])), ConfigError::HiddenMismatch);
    assert_eq!(config_error(&numbers(4, &[4])), ConfigError::EmbeddingShape);
    let bytes = numbers(4, &[4, 5]);
    let cfg = Config::<F32>::from_model(&parse(&bytes).unwrap()).unwrap();
    assert_eq!(cfg.freq_base, 500.0);
}

#[test]
fn attention_needs_less_of_the_configuration() {
    for skip in ["", "llama.block_count", "llama.feed_forward_length", "token_embd.weight"] {
        let bytes = tiny(skip);
        let cfg = Config::<F32>::for_attention(&parse(&bytes).unwrap()).unwrap();
        assert_eq!((cfg.eps, cfg.freq_base, cfg.max_seq_len), (1e-5, 10000.0, 6));
        assert_eq!((cfg.head_dim, cfg.n_heads, cfg.n_kv_heads), (2, 2, 1));
        assert_eq!((cfg.hidden, cfg.kv_dim), (4, 2));
    }
    for (skip, key) in [
        ("eps", Key::Epsilon),
        ("llama.rope.dimension_count", Key::HeadDim),
        ("llama.attention.head_count", Key::Heads),
        ("llama.attention.head_count_kv", Key::KvHeads),
        ("llama.context_length", Key::Context),
    ] {
        let bytes = tiny(skip);
        let r = Config::<F32>::for_attention(&parse(&bytes).unwrap());
        assert!(matches!(r, Err(ConfigError::Metadata(k)) if k == key));
    }
}

#[test]
fn weights_of_a_block_are_loaded_by_name() {
    let bytes = tiny("");
    let m = parse(&bytes).unwrap();
    let w = LayerWeights::<F32>::load(&m, 12).unwrap();
    assert_eq!(w.attn_norm, pseudo(4, 1));
    assert_eq!(w.wq, pseudo(16, 2));
    assert_eq!(w.wk, pseudo(8, 3));
    assert_eq!(w.wv, pseudo(8, 4));
    assert_eq!(w.wo, pseudo(16, 5));
    assert_eq!(w.ffn_norm, pseudo(4, 6));
    assert_eq!(w.w_gate, pseudo(12, 7));
    assert_eq!(w.w_up, pseudo(12, 8));
    assert_eq!(w.w_down, pseudo(12, 9));
    // (4 + 4) * 4 + 16 + 8 + 8 + 16 + 12 * 3 bytes
    assert_eq!(layer_size_mb::<F32, F32>(&w), 116.0 / 1e6);
    assert_eq!(Part::Wo.tensor_name(0), "blk.0.attn_output.weight");
    assert_eq!(Part::Gate.tensor_name(1234567890), "blk.1234567890.ffn_gate.weight");
}

fn load_error(bytes: &[u8], layer: usize) -> LoadError {
    match LayerWeights::<F32>::load(&parse(bytes).unwrap(), layer) {
        Ok(_) => panic!("loaded"),
        Err(e) => e,
    }
}

#[test]
fn each_load_error_is_reported() {
    let missing = TensorError::Missing;
    assert_eq!(load_error(&tiny(""), 1), LoadError { part: Part::AttnNorm, error: missing });
    let e = load_error(&tiny("blk.12.ffn_down.weight"), 12);
    assert_eq!(e, LoadError { part: Part::Down, error: missing });
    let mut cut = tiny("");
    cut.truncate(cut.len() - 4 * (HIDDEN * 5) - 4);
    let e = load_error(&cut, 12);
    assert_eq!(e, LoadError { part: Part::Down, error: TensorError::Unreadable });

    let mut f = File::new(3, 0);
    f.tensor("k", &[256], 12, 0).tensor("q", &[33], 8, 0).tensor("o", &[u64::MAX, 2], 0, 0);
    f.align(32);
    f.bytes.extend_from_slice(&[0; 400]);
    let m = parse(&f.bytes).unwrap();
    let unsupported = QuantError::Unsupported(TensorType::Q4K);
    assert_eq!(m.load_tensor::<F32>("k"), Err(TensorError::Quant(unsupported)));
    assert_eq!(m.load_tensor::<F32>("q"), Err(TensorError::Unreadable));
    assert_eq!(m.load_tensor::<F32>("o"), Err(TensorError::Unreadable));
    assert_eq!(m.load_tensor::<F32>("x"), Err(TensorError::Missing));
}

#[test]
fn embeddings_are_rows_of_the_table() {
    let bytes = tiny("");
    let m = parse(&bytes).unwrap();
    let table = pseudo(HIDDEN * 5, 99);
    let (t, hidden, vocab) = embedding_table(&m).unwrap();
    assert_eq!((t.name.as_str(), hidden, vocab), ("token_embd.weight", 4, 5));
    for id in 0..5 {
        assert_eq!(embed::<F32>(&m, id).unwrap(), table[id * 4..id * 4 + 4]);
    }
    let none = tiny("token_embd.weight");
    assert_eq!(embed::<F32>(&m, 5), Err(EmbedError::OutOfRange { id: 5, vocab: 5 }));
    assert_eq!(embed::<F32>(&parse(&none).unwrap(), 0), Err(EmbedError::NoTable));
    let one = |shape: &[u64], dtype: u32, n: usize| {
        let mut f = File::new(1, 0);
        f.tensor("token_embd.weight", shape, dtype, 0).align(32);
        f.bytes.extend_from_slice(&vec![0; n]);
        f.bytes
    };
    let err = |b: Vec<u8>| embed::<F32>(&parse(&b).unwrap(), 0);
    assert_eq!(err(one(&[4], 0, 16)), Err(EmbedError::Shape));
    assert_eq!(err(one(&[4, 2], 0, 31)), Err(EmbedError::Unreadable));
    assert_eq!(err(one(&[16, 2], 8, 34)), Err(EmbedError::Unreadable));
    let unsupported = QuantError::Unsupported(TensorType::Q4_0);
    assert_eq!(err(one(&[32, 1], 2, 18)), Err(EmbedError::Quant(unsupported)));
    assert_eq!(err(one(&[32, 1], 8, 34)), Ok(vec![0.0; 32]));
}

fn reference_rmsnorm(x: &[f32], w: &[f32], eps: f32) -> Vec<f32> {
    let mean_sq = x.iter().map(|v| v * v).sum::<f32>() / x.len() as f32;
    let scale = 1.0 / (mean_sq + eps).sqrt();
    x.iter().zip(w).map(|(a, b)| a * scale * b).collect()
}

fn reference_linear(x: &[f32], w: &[f32]) -> Vec<f32> {
    w.chunks(x.len())
        .map(|row| {
            let mut acc = 0.0;
            for i in 0..x.len() {
                acc += x[i] * row[i];
            }
            acc
        })
        .collect()
}

fn reference_rope(x: &mut [f32], head_dim: usize, pos: usize, base: f32) {
    for head in x.chunks_exact_mut(head_dim) {
        for i in 0..head_dim / 2 {
            let omega = base.powf(-2.0 * i as f32 / head_dim as f32);
            let (s, c) = (pos as f32 * omega).sin_cos();
            let (a, b) = (head[2 * i], head[2 * i + 1]);
            head[2 * i] = a * c - b * s;
            head[2 * i + 1] = a * s + b * c;
        }
    }
}

/// A block over all positions so far, with keys and values kept as rows.
fn reference_block(
    x: &mut Vec<f32>,
    w: &LayerWeights<F32>,
    keys: &mut Vec<Vec<f32>>,
    values: &mut Vec<Vec<f32>>,
    cfg: &Config<F32>,
    pos: usize,
) {
    let normed = reference_rmsnorm(x, &w.attn_norm, cfg.eps);
    let mut q = reference_linear(&normed, &w.wq);
    let mut k = reference_linear(&normed, &w.wk);
    let v = reference_linear(&normed, &w.wv);
    reference_rope(&mut q, cfg.head_dim, pos, cfg.freq_base);
    reference_rope(&mut k, cfg.head_dim, pos, cfg.freq_base);
    keys.push(k);
    values.push(v);
    let inv = 1.0 / (cfg.head_dim as f32).sqrt();
    let mut attn = Vec::new();
    for h in 0..cfg.n_heads {
        let kv = h / (cfg.n_heads / cfg.n_kv_heads) * cfg.head_dim;
        let qh = &q[h * cfg.head_dim..(h + 1) * cfg.head_dim];
        let mut scores: Vec<f32> = keys
            .iter()
            .map(|k| {
                let kh = &k[kv..kv + cfg.head_dim];
                qh.iter().zip(kh).map(|(a, b)| a * b).sum::<f32>() * inv
            })
            .collect();
        let max = scores.iter().copied().fold(f32::NEG_INFINITY, f32::max);
        for s in scores.iter_mut() {
            *s = (*s - max).exp();
        }
        let sum: f32 = scores.iter().sum();
        for s in scores.iter_mut() {
            *s /= sum;
        }
        for d in 0..cfg.head_dim {
            let mut acc = 0.0;
            for (s, v) in scores.iter().zip(values.iter()) {
                acc += s * v[kv + d];
            }
            attn.push(acc);
        }
    }
    for (a, b) in x.iter_mut().zip(reference_linear(&attn, &w.wo)) {
        *a += b;
    }
    let normed = reference_rmsnorm(x, &w.ffn_norm, cfg.eps);
    let gate = reference_linear(&normed, &w.w_gate);
    let up = reference_linear(&normed, &w.w_up);
    let gated: Vec<f32> = gate.iter().zip(&up).map(|(g, u)| g / (1.0 + (-g).exp()) * u).collect();
    for (a, b) in x.iter_mut().zip(reference_linear(&gated, &w.w_down)) {
        *a += b;
    }
}

#[test]
fn a_block_computes_what_a_plain_forward_pass_does() {
    let bytes = tiny("");
    let m = parse(&bytes).unwrap();
    let cfg = Config::<F32>::from_model(&m).unwrap();
    let layers = vec![LayerWeights::<F32>::load(&m, 12).unwrap(), LayerWeights::<F32>::load(&m, 12).unwrap()];
    let mut caches = vec![
        KvCache::<F32>::new(cfg.max_seq_len, cfg.kv_dim),
        KvCache::<F32>::new(cfg.max_seq_len, cfg.kv_dim),
    ];
    let mut scratch = Scratch::<F32>::new(&cfg);
    let mut keys = vec![Vec::new(), Vec::new()];
    let mut values = vec![Vec::new(), Vec::new()];
    for (pos, id) in [3, 0, 4, 1].into_iter().enumerate() {
        let mut x = embed::<F32>(&m, id).unwrap();
        let mut want = x.clone();
        for l in 0..2 {
            assert!(check_block(x.len(), &layers[l], &caches[l], &cfg, &scratch, pos));
            reference_block(&mut want, &layers[l], &mut keys[l], &mut values[l], &cfg, pos);
        }
        forward_token::<F32>(&mut x, &layers, &mut caches, &cfg, &mut scratch, pos);
        assert_eq!(x, want);
        // What was stored is read back, and stays.
        for p in 0..=pos {
            for l in 0..2 {
                assert_eq!(caches[l].k_at(p, 0, 2), keys[l][p]);
                assert_eq!(caches[l].v_at(p, 0, 2), values[l][p]);
            }
        }
    }
    assert!(!check_block(HIDDEN, &layers[0], &caches[0], &cfg, &scratch, cfg.max_seq_len));
    assert!(!check_block(HIDDEN + 1, &layers[0], &caches[0], &cfg, &scratch, 0));
}

#[test]
fn halves_of_a_block_make_up_the_block() {
    let bytes = tiny("");
    let m = parse(&bytes).unwrap();
    let cfg = Config::<F32>::from_model(&m).unwrap();
    let layer = LayerWeights::<F32>::load(&m, 12).unwrap();
    let mut scratch = Scratch::<F32>::new(&cfg);
    let (mut a, mut b) = (KvCache::<F32>::new(6, 2), KvCache::<F32>::new(6, 2));
    let mut x = embed::<F32>(&m, 2).unwrap();
    let mut y = x.clone();
    assert!(check_attention(4, &layer, &a, &cfg, &scratch, 0));
    attention_half::<F32>(&mut x, &layer, &mut a, &cfg, &mut scratch, 0);
    feed_forward_half::<F32>(&mut x, &layer, &cfg, &mut scratch);
    forward_layer::<F32>(&mut y, &layer, &mut b, &cfg, &mut scratch, 0);
    assert_eq!(x, y);
    assert_eq!(a.k, b.k);
}

#[test]
fn prediction_is_the_greatest_logit() {
    let head = OutputHead::<F32> { norm: vec![1.0, 1.0], w: vec![1.0, 0.0, 0.0, 1.0, -1.0, 0.0] };
    let mut normed = vec![0.0; 2];
    let mut logits = vec![0.0; 3];
    let token = head.predict(&[1.0, 3.0], 0.0, &mut normed, &mut logits);
    assert_eq!(token, 1);
    assert_eq!(normed, reference_rmsnorm(&[1.0, 3.0], &[1.0, 1.0], 0.0));
    assert_eq!(logits, vec![normed[0], normed[1], -normed[0]]);
}

#[test]
fn linear_operations_of_a_block_are_listed() {
    let bytes = tiny("");
    let cfg = Config::<F32>::from_model(&parse(&bytes).unwrap()).unwrap();
    let ops = layer_ops(&cfg);
    let dims: Vec<(usize, usize)> = ops.iter().map(|o| (o.in_dim, o.out_dim)).collect();
    assert_eq!(dims, vec![(4, 4), (4, 2), (4, 2), (4, 4), (4, 3), (4, 3), (3, 4)]);
    assert_eq!(ops[6].projection, Projection::Down);
    assert_eq!(ops[0].flops::<F32>(), 32.0);
    assert_eq!(ops[0].bytes::<F32>(), 16.0 * 1.0625 + 32.0);
    assert_eq!(ops[0].ai::<F32>(), 32.0 / 49.0);
    let t = Totals::<F32>::of(&ops);
    assert_eq!(t.flops, 2.0 * (16 + 8 + 8 + 16 + 12 + 12 + 12) as f32);
    assert_eq!(t.times(3).flops, 3.0 * t.flops);
    assert_eq!(t.times(3).bytes, 3.0 * t.bytes);
    assert_eq!(t.ai(), t.flops / t.bytes);
    let hw = Hardware::<F32> { peak_gflops: 500.0, peak_bw_gbs: 125.0 };
    assert_eq!(hw.ridge(), 4.0);
    assert_eq!(hw.bound(3.9), Bound::Memory);
    assert_eq!(hw.bound(4.0), Bound::Compute);
    // Twice as long for the memory as for the arithmetic.
    assert_eq!(hw.time_ms(500.0e9, 250.0e9), 2000.0);
    assert_eq!(hw.time_ms(500.0e9, 25.0e9), 1000.0);
}

#[test]
fn a_block_ignores_old_buffers_and_later_rows() {
    let bytes = tiny("");
    let m = parse(&bytes).unwrap();
    let cfg = Config::<F32>::from_model(&m).unwrap();
    let layer = LayerWeights::<F32>::load(&m, 12).unwrap();
    let (mut fresh, mut used) = (Scratch::<F32>::new(&cfg), Scratch::<F32>::new(&cfg));
    let (mut a, mut b) = (KvCache::<F32>::new(6, 2), KvCache::<F32>::new(6, 2));
    for p in 1..6 {
        b.store(p, &[7.0, -3.0], &[11.0, 5.0]);
    }
    for v in used.normed.iter_mut().chain(used.attn.iter_mut()).chain(used.gate.iter_mut()) {
        *v = 42.0;
    }
    for (pos, id) in [2, 4].into_iter().enumerate() {
        let mut x = embed::<F32>(&m, id).unwrap();
        let mut y = x.clone();
        forward_layer::<F32>(&mut x, &layer, &mut a, &cfg, &mut fresh, pos);
        forward_layer::<F32>(&mut y, &layer, &mut b, &cfg, &mut used, pos);
        assert_eq!(x, y);
        assert_eq!(a.k[..(pos + 1) * 2], b.k[..(pos + 1) * 2]);
        assert_eq!(a.v[..(pos + 1) * 2], b.v[..(pos + 1) * 2]);
    }
    assert_ne!(a.k, b.k);
}
