//! The forward pass of a Llama transformer block.
//!
//! A block is: RMSNorm, query/key/value projections, rotary embedding, cached
//! attention, output projection, residual; then RMSNorm, the gated feed-forward
//! network, residual.

use vstd::prelude::*;

use crate::arith::{
    bits_are, count_is, exp_is, inner_is, int_is, lemma_inner_unique, negation_is, product_is,
    quotient_is, rsqrt_is, silu_is, sum_is, Arith,
};
use crate::attention::{
    attends_once, attention, attention_is, law_attention_ignores_later_positions,
    lemma_rsqrt_unique, KvCache,
};
use crate::buffer::{overwrite, repeated};
use crate::gguf::{tensor_named, value_as_f32, value_as_u32, Model, ModelView, ValueView};
use crate::matmul::lemma_row_in_matrix;
use crate::nn::{
    add_in_place, head, law_linear_unique, law_rope_heads_is_rope_per_head, lemma_heads_make_whole,
    linear, linear_is, mul_in_place, product3_is, rms_scale_is, rmsnorm, rmsnorm_is, rope_heads,
    rope_is, rotates_once, silu_in_place,
};
use crate::quant::{tensor_error, tensor_is, TensorError};

verus! {

/// The entries of the metadata that a configuration needs.
#[derive(Debug, Clone, Copy, PartialEq, Eq, Structural)]
pub enum Key {
    Epsilon,
    HeadDim,
    Heads,
    KvHeads,
    Layers,
    Context,
    FeedForward,
    Hidden,
}

/// The name of an entry of the metadata.
pub open spec fn key_name(key: Key) -> Seq<char> {
    match key {
        Key::Epsilon => "llama.attention.layer_norm_rms_epsilon"@,
        Key::HeadDim => "llama.rope.dimension_count"@,
        Key::Heads => "llama.attention.head_count"@,
        Key::KvHeads => "llama.attention.head_count_kv"@,
        Key::Layers => "llama.block_count"@,
        Key::Context => "llama.context_length"@,
        Key::FeedForward => "llama.feed_forward_length"@,
        Key::Hidden => "llama.embedding_length"@,
    }
}

impl Key {
    /// The name of the entry.
    pub fn name(self) -> (name: &'static str)
        ensures
            name@ == key_name(self),
    {
        match self {
            Key::Epsilon => "llama.attention.layer_norm_rms_epsilon",
            Key::HeadDim => "llama.rope.dimension_count",
            Key::Heads => "llama.attention.head_count",
            Key::KvHeads => "llama.attention.head_count_kv",
            Key::Layers => "llama.block_count",
            Key::Context => "llama.context_length",
            Key::FeedForward => "llama.feed_forward_length",
            Key::Hidden => "llama.embedding_length",
        }
    }
}

/// Why a model has no configuration.
#[derive(Debug, Clone, Copy, PartialEq, Eq, Structural)]
pub enum ConfigError {
    /// An entry of the metadata is missing, or is no number of the right type.
    Metadata(Key),
    /// The heads together have another size than the embedding.
    HiddenMismatch,
    /// The heads together are too large to address.
    HiddenTooLarge,
    /// The keys of all heads together are too large to address.
    KvTooLarge,
    /// There is no token embedding.
    NoEmbedding,
    /// The token embedding has fewer than two dimensions.
    EmbeddingShape,
}

/// The architecture of a model.
pub struct Config<A: Arith> {
    pub eps: A::Num,
    pub freq_base: A::Num,
    pub head_dim: usize,
    pub n_heads: usize,
    pub n_kv_heads: usize,
    pub n_layers: usize,
    pub hidden: usize,
    pub kv_dim: usize,
    pub intermediate: usize,
    pub vocab: usize,
    pub max_seq_len: usize,
}

/// A whole number in the metadata.
pub open spec fn meta_u32_of(m: Map<Seq<char>, ValueView>, name: Seq<char>) -> Option<u32> {
    if m.contains_key(name) {
        value_as_u32(m[name])
    } else {
        None
    }
}

/// The bit pattern of a 32-bit float in the metadata.
pub open spec fn meta_f32_of(m: Map<Seq<char>, ValueView>, name: Seq<char>) -> Option<u32> {
    if m.contains_key(name) {
        value_as_f32(m[name])
    } else {
        None
    }
}

/// The value of a whole number that is there.
pub open spec fn number(m: Map<Seq<char>, ValueView>, key: Key) -> int {
    meta_u32_of(m, key_name(key))->0 as int
}

/// The first entry that a configuration lacks, in the order in which they are
/// read.
pub open spec fn first_missing(m: Map<Seq<char>, ValueView>) -> Option<Key> {
    if meta_f32_of(m, key_name(Key::Epsilon)) is None {
        Some(Key::Epsilon)
    } else if meta_u32_of(m, key_name(Key::HeadDim)) is None {
        Some(Key::HeadDim)
    } else if meta_u32_of(m, key_name(Key::Heads)) is None {
        Some(Key::Heads)
    } else if meta_u32_of(m, key_name(Key::KvHeads)) is None {
        Some(Key::KvHeads)
    } else if meta_u32_of(m, key_name(Key::Layers)) is None {
        Some(Key::Layers)
    } else if meta_u32_of(m, key_name(Key::Context)) is None {
        Some(Key::Context)
    } else if meta_u32_of(m, key_name(Key::FeedForward)) is None {
        Some(Key::FeedForward)
    } else if meta_u32_of(m, key_name(Key::Hidden)) is None {
        Some(Key::Hidden)
    } else {
        None
    }
}

/// What keeps a model from having a configuration, if anything.
pub open spec fn config_error(model: ModelView) -> Option<ConfigError> {
    let m = model.metadata;
    match first_missing(m) {
        Some(key) => Some(ConfigError::Metadata(key)),
        None => if number(m, Key::Heads) * number(m, Key::HeadDim) != number(m, Key::Hidden) {
            Some(ConfigError::HiddenMismatch)
        } else if number(m, Key::KvHeads) * number(m, Key::HeadDim) > usize::MAX {
            Some(ConfigError::KvTooLarge)
        } else {
            match tensor_named(model.tensors, "token_embd.weight"@) {
                None => Some(ConfigError::NoEmbedding),
                Some(t) => if t.shape.len() < 2 {
                    Some(ConfigError::EmbeddingShape)
                } else {
                    None
                },
            }
        },
    }
}

/// The numbers of a configuration that are no sizes: the epsilon of the norms, and
/// the base of the rotary frequencies, which is 10000 where the metadata does not
/// say.
pub open spec fn numbers_are<A: Arith>(
    m: Map<Seq<char>, ValueView>,
    eps: A::Num,
    freq_base: A::Num,
) -> bool {
    &&& bits_are::<A>(meta_f32_of(m, key_name(Key::Epsilon))->0, eps)
    &&& match meta_f32_of(m, "llama.rope.freq_base"@) {
        Some(bits) => bits_are::<A>(bits, freq_base),
        None => count_is::<A>(10_000, freq_base),
    }
}

impl<A: Arith> Config<A> {
    /// This is the configuration of a model that has one.
    pub open spec fn describes(&self, model: ModelView) -> bool {
        let m = model.metadata;
        let table = tensor_named(model.tensors, "token_embd.weight"@)->0;
        &&& numbers_are::<A>(m, self.eps, self.freq_base)
        &&& self.head_dim == number(m, Key::HeadDim)
        &&& self.n_heads == number(m, Key::Heads)
        &&& self.n_kv_heads == number(m, Key::KvHeads)
        &&& self.n_layers == number(m, Key::Layers)
        &&& self.hidden == number(m, Key::Hidden)
        &&& self.kv_dim == number(m, Key::KvHeads) * number(m, Key::HeadDim)
        &&& self.intermediate == number(m, Key::FeedForward)
        &&& self.vocab == table.shape[1] as usize
        &&& self.max_seq_len == number(m, Key::Context)
    }

    /// Reads the configuration of a model.
    pub fn from_model(model: &Model<'_>) -> (r: Result<Self, ConfigError>)
        ensures
            match config_error(model@) {
                Some(e) => r == Err::<Self, ConfigError>(e),
                None => r is Ok && r->Ok_0.describes(model@),
            },
    {
        let eps_bits: u32 = match meta_f32(model, Key::Epsilon.name()) {
            Some(bits) => bits,
            None => return Err(ConfigError::Metadata(Key::Epsilon)),
        };
        let eps = A::from_bits(eps_bits);
        let freq_base = freq_base_of::<A>(model);
        let head_dim: u32 = meta_u32(model, Key::HeadDim)?;
        let n_heads: u32 = meta_u32(model, Key::Heads)?;
        let n_kv_heads: u32 = meta_u32(model, Key::KvHeads)?;
        let n_layers: u32 = meta_u32(model, Key::Layers)?;
        let max_seq_len: u32 = meta_u32(model, Key::Context)?;
        let intermediate: u32 = meta_u32(model, Key::FeedForward)?;
        let hidden: u32 = meta_u32(model, Key::Hidden)?;
        proof {
            lemma_u32_product(n_heads, head_dim);
            lemma_u32_product(n_kv_heads, head_dim);
        }
        if n_heads as u64 * head_dim as u64 != hidden as u64 {
            return Err(ConfigError::HiddenMismatch);
        }
        let kv_dim: usize = match (n_kv_heads as usize).checked_mul(head_dim as usize) {
            Some(kv_dim) => kv_dim,
            None => return Err(ConfigError::KvTooLarge),
        };
        let table = match model.tensor("token_embd.weight") {
            Some(t) => t,
            None => return Err(ConfigError::NoEmbedding),
        };
        if table.shape.len() < 2 {
            return Err(ConfigError::EmbeddingShape);
        }
        let vocab: usize = table.shape[1] as usize;
        Ok(
            Config {
                eps,
                freq_base,
                head_dim: head_dim as usize,
                n_heads: n_heads as usize,
                n_kv_heads: n_kv_heads as usize,
                n_layers: n_layers as usize,
                hidden: hidden as usize,
                kv_dim,
                intermediate: intermediate as usize,
                vocab,
                max_seq_len: max_seq_len as usize,
            },
        )
    }
}

/// The first entry that the configuration of the attention alone lacks.
pub open spec fn first_missing_for_attention(m: Map<Seq<char>, ValueView>) -> Option<Key> {
    if meta_f32_of(m, key_name(Key::Epsilon)) is None {
        Some(Key::Epsilon)
    } else if meta_u32_of(m, key_name(Key::HeadDim)) is None {
        Some(Key::HeadDim)
    } else if meta_u32_of(m, key_name(Key::Heads)) is None {
        Some(Key::Heads)
    } else if meta_u32_of(m, key_name(Key::KvHeads)) is None {
        Some(Key::KvHeads)
    } else if meta_u32_of(m, key_name(Key::Context)) is None {
        Some(Key::Context)
    } else {
        None
    }
}

/// What keeps a model from having a configuration of the attention, if anything.
pub open spec fn attention_config_error(m: Map<Seq<char>, ValueView>) -> Option<ConfigError> {
    match first_missing_for_attention(m) {
        Some(key) => Some(ConfigError::Metadata(key)),
        None => if number(m, Key::Heads) * number(m, Key::HeadDim) > usize::MAX {
            Some(ConfigError::HiddenTooLarge)
        } else if number(m, Key::KvHeads) * number(m, Key::HeadDim) > usize::MAX {
            Some(ConfigError::KvTooLarge)
        } else {
            None
        },
    }
}

impl<A: Arith> Config<A> {
    /// Reads what the attention half of a block needs of the configuration. The
    /// sizes that it does not need are zero.
    pub fn for_attention(model: &Model<'_>) -> (r: Result<Self, ConfigError>)
        ensures
            match attention_config_error(model@.metadata) {
                Some(e) => r == Err::<Self, ConfigError>(e),
                None => {
                    let m = model@.metadata;
                    &&& r is Ok
                    &&& numbers_are::<A>(m, r->Ok_0.eps, r->Ok_0.freq_base)
                    &&& r->Ok_0.head_dim == number(m, Key::HeadDim)
                    &&& r->Ok_0.n_heads == number(m, Key::Heads)
                    &&& r->Ok_0.n_kv_heads == number(m, Key::KvHeads)
                    &&& r->Ok_0.hidden == number(m, Key::Heads) * number(m, Key::HeadDim)
                    &&& r->Ok_0.kv_dim == number(m, Key::KvHeads) * number(m, Key::HeadDim)
                    &&& r->Ok_0.max_seq_len == number(m, Key::Context)
                    &&& r->Ok_0.n_layers == 0
                    &&& r->Ok_0.intermediate == 0
                    &&& r->Ok_0.vocab == 0
                },
            },
    {
        let eps_bits: u32 = match meta_f32(model, Key::Epsilon.name()) {
            Some(bits) => bits,
            None => return Err(ConfigError::Metadata(Key::Epsilon)),
        };
        let eps = A::from_bits(eps_bits);
        let freq_base = freq_base_of::<A>(model);
        let head_dim: u32 = meta_u32(model, Key::HeadDim)?;
        let n_heads: u32 = meta_u32(model, Key::Heads)?;
        let n_kv_heads: u32 = meta_u32(model, Key::KvHeads)?;
        let max_seq_len: u32 = meta_u32(model, Key::Context)?;
        let hidden: usize = match (n_heads as usize).checked_mul(head_dim as usize) {
            Some(hidden) => hidden,
            None => return Err(ConfigError::HiddenTooLarge),
        };
        let kv_dim: usize = match (n_kv_heads as usize).checked_mul(head_dim as usize) {
            Some(kv_dim) => kv_dim,
            None => return Err(ConfigError::KvTooLarge),
        };
        Ok(
            Config {
                eps,
                freq_base,
                head_dim: head_dim as usize,
                n_heads: n_heads as usize,
                n_kv_heads: n_kv_heads as usize,
                n_layers: 0,
                hidden,
                kv_dim,
                intermediate: 0,
                vocab: 0,
                max_seq_len: max_seq_len as usize,
            },
        )
    }
}

/// The base of the rotary frequencies: from the metadata, or 10000.
fn freq_base_of<A: Arith>(model: &Model<'_>) -> (r: A::Num)
    ensures
        match meta_f32_of(model@.metadata, "llama.rope.freq_base"@) {
            Some(bits) => bits_are::<A>(bits, r),
            None => count_is::<A>(10_000, r),
        },
{
    match meta_f32(model, "llama.rope.freq_base") {
        Some(bits) => A::from_bits(bits),
        None => A::from_u64(10_000),
    }
}

/// A product of 32-bit numbers has at most 64 bits.
proof fn lemma_u32_product(a: u32, b: u32)
    ensures
        0 <= a * b <= u64::MAX,
{
    assert(0 <= a * b <= 0xffff_ffff * 0xffff_ffff) by (nonlinear_arith)
        requires
            0 <= a <= 0xffff_ffff,
            0 <= b <= 0xffff_ffff,
    ;
}

/// The bit pattern of a 32-bit float in the metadata.
fn meta_f32(model: &Model<'_>, name: &str) -> (r: Option<u32>)
    ensures
        r == meta_f32_of(model@.metadata, name@),
{
    match model.metadata.get(name) {
        Some(v) => v.as_f32(),
        None => None,
    }
}

/// A whole number in the metadata.
fn meta_u32(model: &Model<'_>, key: Key) -> (r: Result<u32, ConfigError>)
    ensures
        match meta_u32_of(model@.metadata, key_name(key)) {
            Some(v) => r == Ok::<u32, ConfigError>(v),
            None => r == Err::<u32, ConfigError>(ConfigError::Metadata(key)),
        },
{
    match model.metadata.get(key.name()) {
        Some(v) => match v.as_u32() {
            Some(n) => Ok(n),
            None => Err(ConfigError::Metadata(key)),
        },
        None => Err(ConfigError::Metadata(key)),
    }
}

/// A digit.
pub open spec fn digit(d: nat) -> char {
    (0x30 + d) as char
}

/// A number in decimal.
pub open spec fn decimal(n: nat) -> Seq<char>
    decreases n,
{
    if n < 10 {
        seq![digit(n)]
    } else {
        decimal(n / 10).push(digit(n % 10))
    }
}

/// The text of a digit.
fn digit_str(d: usize) -> (text: &'static str)
    requires
        d < 10,
    ensures
        text@ == seq![digit(d as nat)],
{
    proof {
        reveal_strlit("0");
        reveal_strlit("1");
        reveal_strlit("2");
        reveal_strlit("3");
        reveal_strlit("4");
        reveal_strlit("5");
        reveal_strlit("6");
        reveal_strlit("7");
        reveal_strlit("8");
        reveal_strlit("9");
    }
    match d {
        0 => "0",
        1 => "1",
        2 => "2",
        3 => "3",
        4 => "4",
        5 => "5",
        6 => "6",
        7 => "7",
        8 => "8",
        _ => "9",
    }
}

/// A number in decimal.
fn to_decimal(n: usize) -> (text: String)
    ensures
        text@ == decimal(n as nat),
    decreases n,
{
    let mut text = if n < 10 {
        String::new()
    } else {
        to_decimal(n / 10)
    };
    let ghost before = text@;
    text.append(digit_str(n % 10));
    assert(text@ =~= before.push(digit((n % 10) as nat)));
    text
}

/// The weights of a block.
#[derive(Debug, Clone, Copy, PartialEq, Eq, Structural)]
pub enum Part {
    AttnNorm,
    Wq,
    Wk,
    Wv,
    Wo,
    FfnNorm,
    Gate,
    Up,
    Down,
}

/// The last part of the name of a tensor.
pub open spec fn part_name(part: Part) -> Seq<char> {
    match part {
        Part::AttnNorm => "attn_norm.weight"@,
        Part::Wq => "attn_q.weight"@,
        Part::Wk => "attn_k.weight"@,
        Part::Wv => "attn_v.weight"@,
        Part::Wo => "attn_output.weight"@,
        Part::FfnNorm => "ffn_norm.weight"@,
        Part::Gate => "ffn_gate.weight"@,
        Part::Up => "ffn_up.weight"@,
        Part::Down => "ffn_down.weight"@,
    }
}

/// The name of a tensor of a block: `blk.<layer>.<part>`.
pub open spec fn layer_tensor_name(layer: nat, part: Part) -> Seq<char> {
    "blk."@ + decimal(layer) + "."@ + part_name(part)
}

impl Part {
    /// The last part of the name of a tensor.
    pub fn name(self) -> (name: &'static str)
        ensures
            name@ == part_name(self),
    {
        match self {
            Part::AttnNorm => "attn_norm.weight",
            Part::Wq => "attn_q.weight",
            Part::Wk => "attn_k.weight",
            Part::Wv => "attn_v.weight",
            Part::Wo => "attn_output.weight",
            Part::FfnNorm => "ffn_norm.weight",
            Part::Gate => "ffn_gate.weight",
            Part::Up => "ffn_up.weight",
            Part::Down => "ffn_down.weight",
        }
    }

    /// The name of this tensor of block `layer`.
    pub fn tensor_name(self, layer: usize) -> (name: String)
        ensures
            name@ == layer_tensor_name(layer as nat, self),
    {
        let mut name = "blk.".to_owned();
        let index = to_decimal(layer);
        name.append(index.as_str());
        name.append(".");
        name.append(self.name());
        name
    }
}

/// Why the weights of a block cannot be loaded.
#[derive(Debug, Clone, Copy, PartialEq, Eq, Structural)]
pub struct LoadError {
    pub part: Part,
    pub error: TensorError,
}

/// The weights of a block, as plain numbers.
pub struct LayerWeights<A: Arith> {
    pub attn_norm: Vec<A::Num>,
    pub wq: Vec<A::Num>,
    pub wk: Vec<A::Num>,
    pub wv: Vec<A::Num>,
    pub wo: Vec<A::Num>,
    pub ffn_norm: Vec<A::Num>,
    pub w_gate: Vec<A::Num>,
    pub w_up: Vec<A::Num>,
    pub w_down: Vec<A::Num>,
}

/// The parts in the order in which they are loaded.
pub open spec fn parts() -> Seq<Part> {
    seq![
        Part::AttnNorm,
        Part::Wq,
        Part::Wk,
        Part::Wv,
        Part::Wo,
        Part::FfnNorm,
        Part::Gate,
        Part::Up,
        Part::Down,
    ]
}

/// What keeps a block from being loaded, if anything: the error of the first
/// part, from part `from` on, that has one.
pub open spec fn load_error(model: ModelView, len: nat, layer: nat, from: nat) -> Option<LoadError>
    decreases parts().len() - from,
{
    if from >= parts().len() {
        None
    } else {
        match tensor_error(model, len, layer_tensor_name(layer, parts()[from as int])) {
            Some(error) => Some(LoadError { part: parts()[from as int], error }),
            None => load_error(model, len, layer, from + 1),
        }
    }
}

/// Loads one part of block `layer`.
fn load_part<A: Arith>(model: &Model<'_>, layer: usize, part: Part) -> (r: Result<
    Vec<A::Num>,
    LoadError,
>)
    ensures
        match tensor_error(model@, model.data@.len(), layer_tensor_name(layer as nat, part)) {
            Some(error) => r == Err::<Vec<A::Num>, LoadError>(LoadError { part, error }),
            None => r is Ok && tensor_is::<A>(
                model@,
                model.data@,
                layer_tensor_name(layer as nat, part),
                r->Ok_0@,
            ),
        },
{
    let name = part.tensor_name(layer);
    match model.load_tensor::<A>(name.as_str()) {
        Ok(numbers) => Ok(numbers),
        Err(error) => Err(LoadError { part, error }),
    }
}

impl<A: Arith> LayerWeights<A> {
    /// These are the weights of block `layer`.
    pub open spec fn are_of(&self, model: ModelView, data: Seq<u8>, layer: nat) -> bool {
        &&& tensor_is::<A>(model, data, layer_tensor_name(layer, Part::AttnNorm), self.attn_norm@)
        &&& tensor_is::<A>(model, data, layer_tensor_name(layer, Part::Wq), self.wq@)
        &&& tensor_is::<A>(model, data, layer_tensor_name(layer, Part::Wk), self.wk@)
        &&& tensor_is::<A>(model, data, layer_tensor_name(layer, Part::Wv), self.wv@)
        &&& tensor_is::<A>(model, data, layer_tensor_name(layer, Part::Wo), self.wo@)
        &&& tensor_is::<A>(model, data, layer_tensor_name(layer, Part::FfnNorm), self.ffn_norm@)
        &&& tensor_is::<A>(model, data, layer_tensor_name(layer, Part::Gate), self.w_gate@)
        &&& tensor_is::<A>(model, data, layer_tensor_name(layer, Part::Up), self.w_up@)
        &&& tensor_is::<A>(model, data, layer_tensor_name(layer, Part::Down), self.w_down@)
    }

    /// Loads the weights of block `layer_idx`.
    pub fn load(model: &Model<'_>, layer_idx: usize) -> (r: Result<Self, LoadError>)
        ensures
            match load_error(model@, model.data@.len(), layer_idx as nat, 0) {
                Some(e) => r == Err::<Self, LoadError>(e),
                None => r is Ok && r->Ok_0.are_of(model@, model.data@, layer_idx as nat),
            },
    {
        proof {
            reveal_with_fuel(load_error, 10);
        }
        let attn_norm = load_part::<A>(model, layer_idx, Part::AttnNorm)?;
        let wq = load_part::<A>(model, layer_idx, Part::Wq)?;
        let wk = load_part::<A>(model, layer_idx, Part::Wk)?;
        let wv = load_part::<A>(model, layer_idx, Part::Wv)?;
        let wo = load_part::<A>(model, layer_idx, Part::Wo)?;
        let ffn_norm = load_part::<A>(model, layer_idx, Part::FfnNorm)?;
        let w_gate = load_part::<A>(model, layer_idx, Part::Gate)?;
        let w_up = load_part::<A>(model, layer_idx, Part::Up)?;
        let w_down = load_part::<A>(model, layer_idx, Part::Down)?;
        Ok(LayerWeights { attn_norm, wq, wk, wv, wo, ffn_norm, w_gate, w_up, w_down })
    }
}

/// Buffers that a block works in.
pub struct Scratch<A: Arith> {
    pub normed: Vec<A::Num>,
    pub q: Vec<A::Num>,
    pub k: Vec<A::Num>,
    pub v: Vec<A::Num>,
    pub attn: Vec<A::Num>,
    pub attn_proj: Vec<A::Num>,
    pub ffn_normed: Vec<A::Num>,
    pub gate: Vec<A::Num>,
    pub up: Vec<A::Num>,
    pub ffn_out: Vec<A::Num>,
}

/// A buffer of zeros.
pub open spec fn zeros_are<A: Arith>(n: nat, s: Seq<A::Num>) -> bool {
    &&& s.len() == n
    &&& exists|zero: A::Num| #[trigger] int_is::<A>(0, zero) && s == Seq::new(n, |i: int| zero)
}

/// A buffer of zeros.
fn zeros<A: Arith>(n: usize) -> (r: Vec<A::Num>)
    ensures
        zeros_are::<A>(n as nat, r@),
{
    let zero = A::from_i8(0);
    assert(int_is::<A>(0, zero));
    repeated(zero, n)
}

impl<A: Arith> Scratch<A> {
    /// Buffers for a model of this architecture, all zero.
    pub fn new(cfg: &Config<A>) -> (scratch: Self)
        ensures
            zeros_are::<A>(cfg.hidden as nat, scratch.normed@),
            zeros_are::<A>(cfg.hidden as nat, scratch.q@),
            zeros_are::<A>(cfg.kv_dim as nat, scratch.k@),
            zeros_are::<A>(cfg.kv_dim as nat, scratch.v@),
            zeros_are::<A>(cfg.hidden as nat, scratch.attn@),
            zeros_are::<A>(cfg.hidden as nat, scratch.attn_proj@),
            zeros_are::<A>(cfg.hidden as nat, scratch.ffn_normed@),
            zeros_are::<A>(cfg.intermediate as nat, scratch.gate@),
            zeros_are::<A>(cfg.intermediate as nat, scratch.up@),
            zeros_are::<A>(cfg.hidden as nat, scratch.ffn_out@),
    {
        Scratch {
            normed: zeros::<A>(cfg.hidden),
            q: zeros::<A>(cfg.hidden),
            k: zeros::<A>(cfg.kv_dim),
            v: zeros::<A>(cfg.kv_dim),
            attn: zeros::<A>(cfg.hidden),
            attn_proj: zeros::<A>(cfg.hidden),
            ffn_normed: zeros::<A>(cfg.hidden),
            gate: zeros::<A>(cfg.intermediate),
            up: zeros::<A>(cfg.intermediate),
            ffn_out: zeros::<A>(cfg.hidden),
        }
    }
}

/// The sizes of everything that the attention half of a block works on fit
/// together, at position `pos`.
pub open spec fn attention_fits<A: Arith>(
    x: nat,
    layer: &LayerWeights<A>,
    cache: &KvCache<A>,
    cfg: &Config<A>,
    scratch: &Scratch<A>,
    pos: int,
) -> bool {
    &&& layer.attn_norm@.len() == x
    &&& scratch.normed@.len() == x
    &&& layer.wq@.len() == x * scratch.q@.len()
    &&& layer.wk@.len() == x * scratch.k@.len()
    &&& layer.wv@.len() == x * scratch.v@.len()
    &&& cfg.head_dim > 0
    &&& scratch.q@.len() % (cfg.head_dim as nat) == 0
    &&& scratch.k@.len() % (cfg.head_dim as nat) == 0
    &&& cfg.head_dim % 2 == 0 || scratch.q@.len() == 0 && scratch.k@.len() == 0
    &&& cache.wf()
    &&& scratch.k@.len() == cache.kv_dim
    &&& scratch.v@.len() == cache.kv_dim
    &&& pos < cache.max_seq_len
    &&& scratch.q@.len() == cfg.n_heads * cfg.head_dim
    &&& scratch.attn@.len() == cfg.n_heads * cfg.head_dim
    &&& cfg.n_kv_heads > 0
    &&& cfg.n_heads % cfg.n_kv_heads == 0
    &&& cfg.n_heads > 0 ==> pos * cache.kv_dim + cfg.n_kv_heads * cfg.head_dim <= cache.k@.len()
    &&& layer.wo@.len() == scratch.attn@.len() * scratch.attn_proj@.len()
    &&& scratch.attn_proj@.len() == x
}

/// The sizes of everything that the feed-forward half of a block works on fit
/// together.
pub open spec fn feed_forward_fits<A: Arith>(
    x: nat,
    layer: &LayerWeights<A>,
    scratch: &Scratch<A>,
) -> bool {
    &&& layer.ffn_norm@.len() == x
    &&& scratch.ffn_normed@.len() == x
    &&& layer.w_gate@.len() == x * scratch.gate@.len()
    &&& layer.w_up@.len() == x * scratch.up@.len()
    &&& scratch.up@.len() == scratch.gate@.len()
    &&& layer.w_down@.len() == scratch.gate@.len() * scratch.ffn_out@.len()
    &&& scratch.ffn_out@.len() == x
}

/// The sizes of everything that a block works on fit together.
pub open spec fn block_fits<A: Arith>(
    x: nat,
    layer: &LayerWeights<A>,
    cache: &KvCache<A>,
    cfg: &Config<A>,
    scratch: &Scratch<A>,
    pos: int,
) -> bool {
    &&& attention_fits::<A>(x, layer, cache, cfg, scratch, pos)
    &&& feed_forward_fits::<A>(x, layer, scratch)
}

/// Each head of `y` is an outcome of rotating the head of `x`.
pub open spec fn heads_rotated<A: Arith>(
    x: Seq<A::Num>,
    head_dim: nat,
    pos: u64,
    freq_base: A::Num,
    y: Seq<A::Num>,
) -> bool {
    &&& y.len() == x.len()
    &&& forall|h: int|
        0 <= h < x.len() / head_dim ==> #[trigger] rope_is::<A>(
            head(x, head_dim, h),
            pos,
            freq_base,
            head(y, head_dim, h),
        )
}

/// `y` is an outcome of `a + b`, element by element.
pub open spec fn sums_are<A: Arith>(a: Seq<A::Num>, b: Seq<A::Num>, y: Seq<A::Num>) -> bool {
    &&& y.len() == a.len()
    &&& forall|i: int| 0 <= i < y.len() ==> sum_is::<A>(a[i], b[i], #[trigger] y[i])
}

/// `y` is an outcome of `silu(gate) * up`, element by element.
pub open spec fn gated_is<A: Arith>(
    gate: Seq<A::Num>,
    up: Seq<A::Num>,
    y: Seq<A::Num>,
) -> bool {
    &&& y.len() == gate.len()
    &&& forall|i: int| 0 <= i < y.len() ==> gated_at::<A>(gate[i], up[i], #[trigger] y[i])
}

/// `r` is an outcome of `silu(g) * u`.
pub open spec fn gated_at<A: Arith>(g: A::Num, u: A::Num, r: A::Num) -> bool {
    exists|s: A::Num| #[trigger] silu_is::<A>(g, s) && product_is::<A>(s, u, r)
}

/// Every query head attends to its key/value head on the positions `0..n`.
pub open spec fn heads_attend<A: Arith>(
    q: Seq<A::Num>,
    k: Seq<A::Num>,
    v: Seq<A::Num>,
    cfg: &Config<A>,
    kv_dim: int,
    n: nat,
    out: Seq<A::Num>,
) -> bool {
    attention_is::<A>(
        q,
        k,
        v,
        kv_dim,
        cfg.n_heads as int,
        cfg.n_kv_heads as int,
        cfg.head_dim,
        n,
        out,
    )
}

/// The first half of a block, from `x` to `y`: the normalised input is projected
/// to the query `q0` and the key `k0`, which are rotated, and to the value; these
/// have been stored in the cache at `pos`; attention on all positions up to `pos`
/// is projected and added to `x`.
pub open spec fn attention_half_is<A: Arith>(
    x: Seq<A::Num>,
    layer: &LayerWeights<A>,
    cache: &KvCache<A>,
    cfg: &Config<A>,
    scratch: &Scratch<A>,
    pos: usize,
    q0: Seq<A::Num>,
    k0: Seq<A::Num>,
    y: Seq<A::Num>,
) -> bool {
    &&& rmsnorm_is::<A>(x, layer.attn_norm@, cfg.eps, scratch.normed@)
    &&& linear_is::<A>(scratch.normed@, layer.wq@, q0)
    &&& linear_is::<A>(scratch.normed@, layer.wk@, k0)
    &&& linear_is::<A>(scratch.normed@, layer.wv@, scratch.v@)
    &&& heads_rotated::<A>(q0, cfg.head_dim as nat, pos as u64, cfg.freq_base, scratch.q@)
    &&& heads_rotated::<A>(k0, cfg.head_dim as nat, pos as u64, cfg.freq_base, scratch.k@)
    &&& heads_attend::<A>(
        scratch.q@,
        cache.k@,
        cache.v@,
        cfg,
        cache.kv_dim as int,
        (pos + 1) as nat,
        scratch.attn@,
    )
    &&& linear_is::<A>(scratch.attn@, layer.wo@, scratch.attn_proj@)
    &&& sums_are::<A>(x, scratch.attn_proj@, y)
}

/// The second half of a block, from `x` to `y`: the normalised input goes through
/// the gated feed-forward network, whose output is added to `x`.
pub open spec fn feed_forward_half_is<A: Arith>(
    x: Seq<A::Num>,
    layer: &LayerWeights<A>,
    cfg: &Config<A>,
    scratch: &Scratch<A>,
    gate0: Seq<A::Num>,
    y: Seq<A::Num>,
) -> bool {
    &&& rmsnorm_is::<A>(x, layer.ffn_norm@, cfg.eps, scratch.ffn_normed@)
    &&& linear_is::<A>(scratch.ffn_normed@, layer.w_gate@, gate0)
    &&& linear_is::<A>(scratch.ffn_normed@, layer.w_up@, scratch.up@)
    &&& gated_is::<A>(gate0, scratch.up@, scratch.gate@)
    &&& linear_is::<A>(scratch.gate@, layer.w_down@, scratch.ffn_out@)
    &&& sums_are::<A>(x, scratch.ffn_out@, y)
}

/// The cache after the key and the value of the token at `pos` have been stored.
pub open spec fn cache_stored<A: Arith>(
    before: &KvCache<A>,
    pos: usize,
    scratch: &Scratch<A>,
    after: &KvCache<A>,
) -> bool {
    &&& after.max_seq_len == before.max_seq_len
    &&& after.kv_dim == before.kv_dim
    &&& after.k@ == overwrite(before.k@, pos * before.kv_dim, scratch.k@)
    &&& after.v@ == overwrite(before.v@, pos * before.kv_dim, scratch.v@)
}

/// Applies the attention half of a block to `x` in place. The key and the value
/// of the token are stored in `cache` at `pos`.
pub fn attention_half<A: Arith>(
    x: &mut [A::Num],
    layer: &LayerWeights<A>,
    cache: &mut KvCache<A>,
    cfg: &Config<A>,
    scratch: &mut Scratch<A>,
    pos: usize,
)
    requires
        attention_fits::<A>(old(x)@.len(), layer, old(cache), cfg, old(scratch), pos as int),
    ensures
        final(x)@.len() == old(x)@.len(),
        attention_fits::<A>(final(x)@.len(), layer, final(cache), cfg, final(scratch), pos as int),
        cache_stored::<A>(old(cache), pos, final(scratch), final(cache)),
        final(scratch).ffn_normed@ == old(scratch).ffn_normed@,
        final(scratch).gate@ == old(scratch).gate@,
        final(scratch).up@ == old(scratch).up@,
        final(scratch).ffn_out@ == old(scratch).ffn_out@,
        exists|q0: Seq<A::Num>, k0: Seq<A::Num>|
            #[trigger] attention_half_is::<A>(
                old(x)@,
                layer,
                final(cache),
                cfg,
                final(scratch),
                pos,
                q0,
                k0,
                final(x)@,
            ),
{
    let ghost before = x@;
    rmsnorm::<A>(x, layer.attn_norm.as_slice(), cfg.eps, scratch.normed.as_mut_slice());
    linear::<A>(scratch.normed.as_slice(), layer.wq.as_slice(), scratch.q.as_mut_slice());
    linear::<A>(scratch.normed.as_slice(), layer.wk.as_slice(), scratch.k.as_mut_slice());
    linear::<A>(scratch.normed.as_slice(), layer.wv.as_slice(), scratch.v.as_mut_slice());
    let ghost q0 = scratch.q@;
    let ghost k0 = scratch.k@;
    rope_heads::<A>(scratch.q.as_mut_slice(), cfg.head_dim, pos, cfg.freq_base);
    rope_heads::<A>(scratch.k.as_mut_slice(), cfg.head_dim, pos, cfg.freq_base);
    cache.store(pos, scratch.k.as_slice(), scratch.v.as_slice());
    attention::<A>(
        scratch.q.as_slice(),
        cache,
        pos,
        cfg.n_heads,
        cfg.n_kv_heads,
        cfg.head_dim,
        scratch.attn.as_mut_slice(),
    );
    linear::<A>(scratch.attn.as_slice(), layer.wo.as_slice(), scratch.attn_proj.as_mut_slice());
    add_in_place::<A>(x, scratch.attn_proj.as_slice());
    assert(attention_half_is::<A>(before, layer, cache, cfg, scratch, pos, q0, k0, x@));
}

/// Applies the feed-forward half of a block to `x` in place.
pub fn feed_forward_half<A: Arith>(
    x: &mut [A::Num],
    layer: &LayerWeights<A>,
    cfg: &Config<A>,
    scratch: &mut Scratch<A>,
)
    requires
        feed_forward_fits::<A>(old(x)@.len(), layer, old(scratch)),
    ensures
        final(x)@.len() == old(x)@.len(),
        feed_forward_fits::<A>(final(x)@.len(), layer, final(scratch)),
        final(scratch).gate@.len() == old(scratch).gate@.len(),
        final(scratch).normed@ == old(scratch).normed@,
        final(scratch).q@ == old(scratch).q@,
        final(scratch).k@ == old(scratch).k@,
        final(scratch).v@ == old(scratch).v@,
        final(scratch).attn@ == old(scratch).attn@,
        final(scratch).attn_proj@ == old(scratch).attn_proj@,
        exists|gate0: Seq<A::Num>|
            #[trigger] feed_forward_half_is::<A>(
                old(x)@,
                layer,
                cfg,
                final(scratch),
                gate0,
                final(x)@,
            ),
{
    let ghost before = x@;
    rmsnorm::<A>(x, layer.ffn_norm.as_slice(), cfg.eps, scratch.ffn_normed.as_mut_slice());
    linear::<A>(
        scratch.ffn_normed.as_slice(),
        layer.w_gate.as_slice(),
        scratch.gate.as_mut_slice(),
    );
    linear::<A>(scratch.ffn_normed.as_slice(), layer.w_up.as_slice(), scratch.up.as_mut_slice());
    let ghost gate0 = scratch.gate@;
    silu_in_place::<A>(scratch.gate.as_mut_slice());
    let ghost activated = scratch.gate@;
    mul_in_place::<A>(scratch.gate.as_mut_slice(), scratch.up.as_slice());
    proof {
        assert forall|i: int| 0 <= i < gate0.len() implies gated_at::<A>(
            gate0[i],
            scratch.up@[i],
            #[trigger] scratch.gate@[i],
        ) by {
            assert(silu_is::<A>(gate0[i], activated[i]));
        }
    }
    linear::<A>(scratch.gate.as_slice(), layer.w_down.as_slice(), scratch.ffn_out.as_mut_slice());
    add_in_place::<A>(x, scratch.ffn_out.as_slice());
    assert(feed_forward_half_is::<A>(before, layer, cfg, scratch, gate0, x@));
}

/// `y` is an outcome of applying a block to `x` at position `pos`, with `scratch`
/// left as it is and the cache turned from `before` into `after`.
pub open spec fn block_is<A: Arith>(
    x: Seq<A::Num>,
    layer: &LayerWeights<A>,
    before: &KvCache<A>,
    after: &KvCache<A>,
    cfg: &Config<A>,
    scratch: &Scratch<A>,
    pos: usize,
    y: Seq<A::Num>,
) -> bool {
    &&& block_fits::<A>(x.len(), layer, after, cfg, scratch, pos as int)
    &&& cache_stored::<A>(before, pos, scratch, after)
    &&& exists|q0: Seq<A::Num>, k0: Seq<A::Num>, mid: Seq<A::Num>, gate0: Seq<A::Num>|
        {
            &&& #[trigger] attention_half_is::<A>(x, layer, after, cfg, scratch, pos, q0, k0, mid)
            &&& #[trigger] feed_forward_half_is::<A>(mid, layer, cfg, scratch, gate0, y)
        }
}

/// Applies one transformer block to `x` in place. The key and the value of the
/// token are stored in `cache` at `pos`.
pub fn forward_layer<A: Arith>(
    x: &mut [A::Num],
    layer: &LayerWeights<A>,
    cache: &mut KvCache<A>,
    cfg: &Config<A>,
    scratch: &mut Scratch<A>,
    pos: usize,
)
    requires
        block_fits::<A>(old(x)@.len(), layer, old(cache), cfg, old(scratch), pos as int),
    ensures
        final(x)@.len() == old(x)@.len(),
        same_sizes::<A>(old(scratch), final(scratch)),
        block_is::<A>(
            old(x)@,
            layer,
            old(cache),
            final(cache),
            cfg,
            final(scratch),
            pos,
            final(x)@,
        ),
{
    let ghost before = x@;
    attention_half::<A>(x, layer, cache, cfg, scratch, pos);
    let ghost mid = x@;
    let ghost (q0, k0) = choose|q0: Seq<A::Num>, k0: Seq<A::Num>|
        #[trigger] attention_half_is::<A>(before, layer, cache, cfg, scratch, pos, q0, k0, mid);
    feed_forward_half::<A>(x, layer, cfg, scratch);
    proof {
        let gate0 = choose|gate0: Seq<A::Num>|
            #[trigger] feed_forward_half_is::<A>(mid, layer, cfg, scratch, gate0, x@);
        assert(attention_half_is::<A>(before, layer, cache, cfg, scratch, pos, q0, k0, mid));
        assert(feed_forward_half_is::<A>(mid, layer, cfg, scratch, gate0, x@));
    }
}

/// The operations that a block consists of have one outcome each.
pub open spec fn computes_once<A: Arith>() -> bool {
    &&& attends_once::<A>()
    &&& rotates_once::<A>()
    &&& forall|a: A::Num, r: A::Num, s: A::Num|
        #[trigger] negation_is::<A>(a, r) && #[trigger] negation_is::<A>(a, s) ==> r == s
}

/// Where every operation has one outcome, so has the scale of a vector.
proof fn lemma_rms_scale_unique<A: Arith>(x: Seq<A::Num>, eps: A::Num, r1: A::Num, r2: A::Num)
    requires
        computes_once::<A>(),
        rms_scale_is::<A>(x, eps, r1),
        rms_scale_is::<A>(x, eps, r2),
    ensures
        r1 == r2,
{
    let (t1, n1, m1, s1) = choose|total: A::Num, n: A::Num, mean: A::Num, shifted: A::Num|
        {
            &&& inner_is::<A>(x, x, total)
            &&& count_is::<A>(x.len() as u64, n)
            &&& #[trigger] quotient_is::<A>(total, n, mean)
            &&& #[trigger] sum_is::<A>(mean, eps, shifted)
            &&& rsqrt_is::<A>(shifted, r1)
        };
    let (t2, n2, m2, s2) = choose|total: A::Num, n: A::Num, mean: A::Num, shifted: A::Num|
        {
            &&& inner_is::<A>(x, x, total)
            &&& count_is::<A>(x.len() as u64, n)
            &&& #[trigger] quotient_is::<A>(total, n, mean)
            &&& #[trigger] sum_is::<A>(mean, eps, shifted)
            &&& rsqrt_is::<A>(shifted, r2)
        };
    lemma_inner_unique::<A>(x, x, t1, t2);
    assert(n1 == n2);
    assert(m1 == m2);
    assert(s1 == s2);
    lemma_rsqrt_unique::<A>(s1, r1, r2);
}

/// Where every operation has one outcome, so has an RMS normalisation.
proof fn lemma_rmsnorm_unique<A: Arith>(
    x: Seq<A::Num>,
    weight: Seq<A::Num>,
    eps: A::Num,
    y1: Seq<A::Num>,
    y2: Seq<A::Num>,
)
    requires
        computes_once::<A>(),
        rmsnorm_is::<A>(x, weight, eps, y1),
        rmsnorm_is::<A>(x, weight, eps, y2),
    ensures
        y1 == y2,
{
    let r1 = choose|scale: A::Num|
        {
            &&& #[trigger] rms_scale_is::<A>(x, eps, scale)
            &&& forall|i: int|
                0 <= i < x.len() ==> product3_is::<A>(x[i], scale, weight[i], #[trigger] y1[i])
        };
    let r2 = choose|scale: A::Num|
        {
            &&& #[trigger] rms_scale_is::<A>(x, eps, scale)
            &&& forall|i: int|
                0 <= i < x.len() ==> product3_is::<A>(x[i], scale, weight[i], #[trigger] y2[i])
        };
    lemma_rms_scale_unique::<A>(x, eps, r1, r2);
    assert forall|i: int| 0 <= i < x.len() implies #[trigger] y1[i] == y2[i] by {
        assert(product3_is::<A>(x[i], r1, weight[i], y1[i]));
        assert(product3_is::<A>(x[i], r1, weight[i], y2[i]));
        let p1 = choose|p: A::Num|
            #[trigger] product_is::<A>(x[i], r1, p) && product_is::<A>(p, weight[i], y1[i]);
        let p2 = choose|p: A::Num|
            #[trigger] product_is::<A>(x[i], r1, p) && product_is::<A>(p, weight[i], y2[i]);
        assert(p1 == p2);
    }
    assert(y1 =~= y2);
}

/// Where every operation has one outcome, so has rotating the heads of a vector.
proof fn lemma_heads_rotated_unique<A: Arith>(
    x: Seq<A::Num>,
    head_dim: nat,
    pos: u64,
    freq_base: A::Num,
    y1: Seq<A::Num>,
    y2: Seq<A::Num>,
)
    requires
        computes_once::<A>(),
        head_dim > 0,
        x.len() % head_dim == 0,
        head_dim % 2 == 0 || x.len() == 0,
        heads_rotated::<A>(x, head_dim, pos, freq_base, y1),
        heads_rotated::<A>(x, head_dim, pos, freq_base, y2),
    ensures
        y1 == y2,
{
    if x.len() == 0 {
        assert(y1 =~= y2);
    } else {
        let heads = (x.len() / head_dim) as int;
        let alone = Seq::new(heads as nat, |h: int| head(y2, head_dim, h));
        assert forall|h: int| 0 <= h < heads implies rope_is::<A>(
            head(x, head_dim, h),
            pos,
            freq_base,
            #[trigger] alone[h],
        ) by {
            assert(rope_is::<A>(head(x, head_dim, h), pos, freq_base, head(y2, head_dim, h)));
        }
        law_rope_heads_is_rope_per_head::<A>(x, head_dim, pos, freq_base, y1, alone);
        vstd::arithmetic::div_mod::lemma_fundamental_div_mod(x.len() as int, head_dim as int);
        assert(heads * head_dim == head_dim * heads) by (nonlinear_arith);
        assert forall|h: int| 0 <= h < heads implies #[trigger] head(y1, head_dim, h) == head(
            y2,
            head_dim,
            h,
        ) by {
            assert(head(y1, head_dim, h) == alone[h]);
        }
        lemma_heads_make_whole(y1, y2, heads, head_dim);
    }
}

/// Where every operation has one outcome, so have sums.
proof fn lemma_sums_unique<A: Arith>(
    a: Seq<A::Num>,
    b: Seq<A::Num>,
    y1: Seq<A::Num>,
    y2: Seq<A::Num>,
)
    requires
        computes_once::<A>(),
        sums_are::<A>(a, b, y1),
        sums_are::<A>(a, b, y2),
    ensures
        y1 == y2,
{
    assert forall|i: int| 0 <= i < y1.len() implies #[trigger] y1[i] == y2[i] by {
        assert(sum_is::<A>(a[i], b[i], y1[i]) && sum_is::<A>(a[i], b[i], y2[i]));
    }
    assert(y1 =~= y2);
}

/// Where every operation has one outcome, so has `silu(g)`.
proof fn lemma_silu_unique<A: Arith>(g: A::Num, r1: A::Num, r2: A::Num)
    requires
        computes_once::<A>(),
        silu_is::<A>(g, r1),
        silu_is::<A>(g, r2),
    ensures
        r1 == r2,
{
    let (n1, e1, one1, d1) = choose|n: A::Num, e: A::Num, one: A::Num, d: A::Num|
        {
            &&& #[trigger] negation_is::<A>(g, n)
            &&& #[trigger] exp_is::<A>(n, e)
            &&& int_is::<A>(1, one)
            &&& #[trigger] sum_is::<A>(one, e, d)
            &&& quotient_is::<A>(g, d, r1)
        };
    let (n2, e2, one2, d2) = choose|n: A::Num, e: A::Num, one: A::Num, d: A::Num|
        {
            &&& #[trigger] negation_is::<A>(g, n)
            &&& #[trigger] exp_is::<A>(n, e)
            &&& int_is::<A>(1, one)
            &&& #[trigger] sum_is::<A>(one, e, d)
            &&& quotient_is::<A>(g, d, r2)
        };
    assert(n1 == n2 && one1 == one2);
    assert(e1 == e2);
    assert(d1 == d2);
}

/// Where every operation has one outcome, so has gating.
proof fn lemma_gated_unique<A: Arith>(
    gate: Seq<A::Num>,
    up: Seq<A::Num>,
    y1: Seq<A::Num>,
    y2: Seq<A::Num>,
)
    requires
        computes_once::<A>(),
        gated_is::<A>(gate, up, y1),
        gated_is::<A>(gate, up, y2),
    ensures
        y1 == y2,
{
    assert forall|i: int| 0 <= i < y1.len() implies #[trigger] y1[i] == y2[i] by {
        assert(gated_at::<A>(gate[i], up[i], y1[i]) && gated_at::<A>(gate[i], up[i], y2[i]));
        let s1 = choose|s: A::Num|
            #[trigger] silu_is::<A>(gate[i], s) && product_is::<A>(s, up[i], y1[i]);
        let s2 = choose|s: A::Num|
            #[trigger] silu_is::<A>(gate[i], s) && product_is::<A>(s, up[i], y2[i]);
        lemma_silu_unique::<A>(gate[i], s1, s2);
    }
    assert(y1 =~= y2);
}

/// Rows that agree before position `pos` agree up to it, once the same row has
/// been written there.
proof fn lemma_rows_agree<T>(rows1: Seq<T>, rows2: Seq<T>, kv_dim: int, pos: int, row: Seq<T>)
    requires
        0 <= pos,
        0 <= kv_dim,
        row.len() == kv_dim,
        (pos + 1) * kv_dim <= rows1.len(),
        (pos + 1) * kv_dim <= rows2.len(),
        rows1.subrange(0, pos * kv_dim) == rows2.subrange(0, pos * kv_dim),
    ensures
        overwrite(rows1, pos * kv_dim, row).subrange(0, (pos + 1) * kv_dim) == overwrite(
            rows2,
            pos * kv_dim,
            row,
        ).subrange(0, (pos + 1) * kv_dim),
{
    let (at, end) = (pos * kv_dim, (pos + 1) * kv_dim);
    assert(end == at + kv_dim && 0 <= at) by (nonlinear_arith)
        requires
            at == pos * kv_dim,
            end == (pos + 1) * kv_dim,
            0 <= pos,
            0 <= kv_dim,
    ;
    let (a, b) = (overwrite(rows1, at, row), overwrite(rows2, at, row));
    assert forall|i: int| 0 <= i < end implies #[trigger] a[i] == b[i] by {
        if i < at {
            assert(rows1.subrange(0, at)[i] == rows2.subrange(0, at)[i]);
        }
    }
    assert(a.subrange(0, end) =~= b.subrange(0, end));
}

/// Where every operation has one outcome, so has the attention half of a block.
proof fn lemma_attention_half_unique<A: Arith>(
    x: Seq<A::Num>,
    layer: &LayerWeights<A>,
    cfg: &Config<A>,
    pos: usize,
    before1: &KvCache<A>,
    after1: &KvCache<A>,
    scratch1: &Scratch<A>,
    q1: Seq<A::Num>,
    k1: Seq<A::Num>,
    y1: Seq<A::Num>,
    before2: &KvCache<A>,
    after2: &KvCache<A>,
    scratch2: &Scratch<A>,
    q2: Seq<A::Num>,
    k2: Seq<A::Num>,
    y2: Seq<A::Num>,
)
    requires
        computes_once::<A>(),
        before1.kv_dim == before2.kv_dim,
        cfg.n_kv_heads * cfg.head_dim <= before1.kv_dim,
        before1.k@.subrange(0, pos * before1.kv_dim) == before2.k@.subrange(
            0,
            pos * before1.kv_dim,
        ),
        before1.v@.subrange(0, pos * before1.kv_dim) == before2.v@.subrange(
            0,
            pos * before1.kv_dim,
        ),
        attention_fits::<A>(x.len(), layer, after1, cfg, scratch1, pos as int),
        attention_fits::<A>(x.len(), layer, after2, cfg, scratch2, pos as int),
        cache_stored::<A>(before1, pos, scratch1, after1),
        cache_stored::<A>(before2, pos, scratch2, after2),
        attention_half_is::<A>(x, layer, after1, cfg, scratch1, pos, q1, k1, y1),
        attention_half_is::<A>(x, layer, after2, cfg, scratch2, pos, q2, k2, y2),
    ensures
        y1 == y2,
        after1.k@.subrange(0, (pos + 1) * before1.kv_dim) == after2.k@.subrange(
            0,
            (pos + 1) * before1.kv_dim,
        ),
        after1.v@.subrange(0, (pos + 1) * before1.kv_dim) == after2.v@.subrange(
            0,
            (pos + 1) * before1.kv_dim,
        ),
{
    let (kv_dim, hd) = (before1.kv_dim as int, cfg.head_dim as nat);
    lemma_rmsnorm_unique::<A>(x, layer.attn_norm@, cfg.eps, scratch1.normed@, scratch2.normed@);
    let normed = scratch1.normed@;
    law_linear_unique::<A>(normed, layer.wq@, q1, q2);
    law_linear_unique::<A>(normed, layer.wk@, k1, k2);
    law_linear_unique::<A>(normed, layer.wv@, scratch1.v@, scratch2.v@);
    lemma_heads_rotated_unique::<A>(q1, hd, pos as u64, cfg.freq_base, scratch1.q@, scratch2.q@);
    lemma_heads_rotated_unique::<A>(k1, hd, pos as u64, cfg.freq_base, scratch1.k@, scratch2.k@);
    lemma_row_in_matrix(pos as int, after1.max_seq_len as int, kv_dim);
    lemma_row_in_matrix(pos as int, after2.max_seq_len as int, kv_dim);
    assert((pos + 1) * kv_dim == pos * kv_dim + kv_dim) by (nonlinear_arith);
    lemma_rows_agree(before1.k@, before2.k@, kv_dim, pos as int, scratch1.k@);
    lemma_rows_agree(before1.v@, before2.v@, kv_dim, pos as int, scratch1.v@);
    law_attention_ignores_later_positions::<A>(
        scratch1.q@,
        after1.k@,
        after1.v@,
        after2.k@,
        after2.v@,
        kv_dim,
        cfg.n_heads as int,
        cfg.n_kv_heads as int,
        cfg.head_dim,
        (pos + 1) as nat,
        scratch1.attn@,
        scratch2.attn@,
    );
    law_linear_unique::<A>(scratch1.attn@, layer.wo@, scratch1.attn_proj@, scratch2.attn_proj@);
    lemma_sums_unique::<A>(x, scratch1.attn_proj@, y1, y2);
}

/// Where every operation has one outcome, so has the feed-forward half of a block.
proof fn lemma_feed_forward_half_unique<A: Arith>(
    x: Seq<A::Num>,
    layer: &LayerWeights<A>,
    cfg: &Config<A>,
    scratch1: &Scratch<A>,
    gate1: Seq<A::Num>,
    y1: Seq<A::Num>,
    scratch2: &Scratch<A>,
    gate2: Seq<A::Num>,
    y2: Seq<A::Num>,
)
    requires
        computes_once::<A>(),
        feed_forward_fits::<A>(x.len(), layer, scratch1),
        feed_forward_fits::<A>(x.len(), layer, scratch2),
        feed_forward_half_is::<A>(x, layer, cfg, scratch1, gate1, y1),
        feed_forward_half_is::<A>(x, layer, cfg, scratch2, gate2, y2),
    ensures
        y1 == y2,
{
    if x.len() == 0 {
        assert(y1 =~= y2);
    } else {
        let (n, g1, g2) = (x.len(), scratch1.gate@.len(), scratch2.gate@.len());
        assert(g1 == g2) by (nonlinear_arith)
            requires
                n > 0,
                n * g1 == n * g2,
        ;
        lemma_rmsnorm_unique::<A>(
            x,
            layer.ffn_norm@,
            cfg.eps,
            scratch1.ffn_normed@,
            scratch2.ffn_normed@,
        );
        let normed = scratch1.ffn_normed@;
        law_linear_unique::<A>(normed, layer.w_gate@, gate1, gate2);
        law_linear_unique::<A>(normed, layer.w_up@, scratch1.up@, scratch2.up@);
        lemma_gated_unique::<A>(gate1, scratch1.up@, scratch1.gate@, scratch2.gate@);
        law_linear_unique::<A>(
            scratch1.gate@,
            layer.w_down@,
            scratch1.ffn_out@,
            scratch2.ffn_out@,
        );
        lemma_sums_unique::<A>(x, scratch1.ffn_out@, y1, y2);
    }
}

/// Where every operation has one outcome, applying a block depends on nothing but
/// the input, the weights, the configuration, the position and the rows of the
/// cache before it: whatever was in the buffers and in the rows from `pos` on, the
/// outputs are the same, and so are the rows of the cache up to `pos`, which is
/// the one that has been written.
pub proof fn law_block_unique<A: Arith>(
    x: Seq<A::Num>,
    layer: &LayerWeights<A>,
    cfg: &Config<A>,
    pos: usize,
    before1: &KvCache<A>,
    after1: &KvCache<A>,
    scratch1: &Scratch<A>,
    y1: Seq<A::Num>,
    before2: &KvCache<A>,
    after2: &KvCache<A>,
    scratch2: &Scratch<A>,
    y2: Seq<A::Num>,
)
    requires
        computes_once::<A>(),
        before1.kv_dim == before2.kv_dim,
        cfg.n_kv_heads * cfg.head_dim <= before1.kv_dim,
        before1.k@.subrange(0, pos * before1.kv_dim) == before2.k@.subrange(
            0,
            pos * before1.kv_dim,
        ),
        before1.v@.subrange(0, pos * before1.kv_dim) == before2.v@.subrange(
            0,
            pos * before1.kv_dim,
        ),
        block_is::<A>(x, layer, before1, after1, cfg, scratch1, pos, y1),
        block_is::<A>(x, layer, before2, after2, cfg, scratch2, pos, y2),
    ensures
        y1 == y2,
        after1.k@.subrange(0, (pos + 1) * before1.kv_dim) == after2.k@.subrange(
            0,
            (pos + 1) * before1.kv_dim,
        ),
        after1.v@.subrange(0, (pos + 1) * before1.kv_dim) == after2.v@.subrange(
            0,
            (pos + 1) * before1.kv_dim,
        ),
{
    let (q1, k1, mid1, gate1) = choose|
        q0: Seq<A::Num>,
        k0: Seq<A::Num>,
        mid: Seq<A::Num>,
        gate0: Seq<A::Num>,
    |
        {
            &&& #[trigger] attention_half_is::<A>(x, layer, after1, cfg, scratch1, pos, q0, k0, mid)
            &&& #[trigger] feed_forward_half_is::<A>(mid, layer, cfg, scratch1, gate0, y1)
        };
    let (q2, k2, mid2, gate2) = choose|
        q0: Seq<A::Num>,
        k0: Seq<A::Num>,
        mid: Seq<A::Num>,
        gate0: Seq<A::Num>,
    |
        {
            &&& #[trigger] attention_half_is::<A>(x, layer, after2, cfg, scratch2, pos, q0, k0, mid)
            &&& #[trigger] feed_forward_half_is::<A>(mid, layer, cfg, scratch2, gate0, y2)
        };
    lemma_attention_half_unique::<A>(
        x,
        layer,
        cfg,
        pos,
        before1,
        after1,
        scratch1,
        q1,
        k1,
        mid1,
        before2,
        after2,
        scratch2,
        q2,
        k2,
        mid2,
    );
    lemma_feed_forward_half_unique::<A>(
        mid1,
        layer,
        cfg,
        scratch1,
        gate1,
        y1,
        scratch2,
        gate2,
        y2,
    );
}

/// `y` is an outcome of applying all blocks to `x` at position `pos`, one after
/// the other: `xs` holds what goes into each block and, at last, what comes out.
pub open spec fn blocks_are<A: Arith>(
    x: Seq<A::Num>,
    layers: Seq<LayerWeights<A>>,
    before: Seq<KvCache<A>>,
    after: Seq<KvCache<A>>,
    cfg: &Config<A>,
    pos: usize,
    n: nat,
    xs: Seq<Seq<A::Num>>,
    y: Seq<A::Num>,
) -> bool {
    &&& xs.len() == n + 1
    &&& xs[0] == x
    &&& xs[n as int] == y
    &&& forall|l: int|
        0 <= l < n ==> #[trigger] block_done::<A>(layers, before, after, cfg, pos, xs, l)
}

/// Block `l` has turned `xs[l]` into `xs[l + 1]`.
pub open spec fn block_done<A: Arith>(
    layers: Seq<LayerWeights<A>>,
    before: Seq<KvCache<A>>,
    after: Seq<KvCache<A>>,
    cfg: &Config<A>,
    pos: usize,
    xs: Seq<Seq<A::Num>>,
    l: int,
) -> bool {
    exists|scratch: Scratch<A>|
        #[trigger] block_is::<A>(
            xs[l],
            &layers[l],
            &before[l],
            &after[l],
            cfg,
            &scratch,
            pos,
            xs[l + 1],
        )
}

/// Runs the token at position `pos` through all blocks, in place. Each block has
/// its own cache.
pub fn forward_token<A: Arith>(
    x: &mut [A::Num],
    layers: &Vec<LayerWeights<A>>,
    caches: &mut Vec<KvCache<A>>,
    cfg: &Config<A>,
    scratch: &mut Scratch<A>,
    pos: usize,
)
    requires
        layers@.len() == old(caches)@.len(),
        forall|l: int|
            0 <= l < layers@.len() ==> #[trigger] block_fits::<A>(
                old(x)@.len(),
                &layers@[l],
                &old(caches)@[l],
                cfg,
                old(scratch),
                pos as int,
            ),
    ensures
        final(x)@.len() == old(x)@.len(),
        final(caches)@.len() == old(caches)@.len(),
        same_sizes::<A>(old(scratch), final(scratch)),
        exists|xs: Seq<Seq<A::Num>>|
            #[trigger] blocks_are::<A>(
                old(x)@,
                layers@,
                old(caches)@,
                final(caches)@,
                cfg,
                pos,
                layers@.len(),
                xs,
                final(x)@,
            ),
{
    let ghost start = x@;
    let ghost before = caches@;
    let ghost buffers = *scratch;
    let ghost mut xs: Seq<Seq<A::Num>> = seq![x@];
    for l in 0..layers.len()
        invariant
            layers@.len() == before.len(),
            caches@.len() == before.len(),
            x@.len() == start.len(),
            same_sizes::<A>(&buffers, scratch),
            forall|m: int|
                0 <= m < layers@.len() ==> #[trigger] block_fits::<A>(
                    start.len(),
                    &layers@[m],
                    &before[m],
                    cfg,
                    &buffers,
                    pos as int,
                ),
            forall|m: int| l <= m < layers@.len() ==> #[trigger] caches@[m] == before[m],
            blocks_are::<A>(start, layers@, before, caches@, cfg, pos, l as nat, xs, x@),
    {
        let ghost (into, stored) = (x@, caches@);
        assert(block_fits::<A>(
            start.len(),
            &layers@[l as int],
            &before[l as int],
            cfg,
            &buffers,
            pos as int,
        ));
        assert(caches@[l as int] == before[l as int]);
        forward_layer::<A>(x, &layers[l], &mut caches[l], cfg, scratch, pos);
        proof {
            let grown = xs.push(x@);
            assert(block_is::<A>(
                into,
                &layers@[l as int],
                &before[l as int],
                &caches@[l as int],
                cfg,
                scratch,
                pos,
                x@,
            ));
            assert(grown[l as int] == into && grown[l + 1] == x@);
            assert(block_done::<A>(layers@, before, caches@, cfg, pos, grown, l as int));
            assert forall|m: int| 0 <= m < l implies #[trigger] block_done::<A>(
                layers@,
                before,
                caches@,
                cfg,
                pos,
                grown,
                m,
            ) by {
                assert(block_done::<A>(layers@, before, stored, cfg, pos, xs, m));
                assert(grown[m] == xs[m] && grown[m + 1] == xs[m + 1]);
                assert(caches@[m] == stored[m]);
            }
            xs = grown;
        }
    }
}

/// The buffers have the same sizes.
pub open spec fn same_sizes<A: Arith>(a: &Scratch<A>, b: &Scratch<A>) -> bool {
    &&& a.normed@.len() == b.normed@.len()
    &&& a.q@.len() == b.q@.len()
    &&& a.k@.len() == b.k@.len()
    &&& a.v@.len() == b.v@.len()
    &&& a.attn@.len() == b.attn@.len()
    &&& a.attn_proj@.len() == b.attn_proj@.len()
    &&& a.ffn_normed@.len() == b.ffn_normed@.len()
    &&& a.gate@.len() == b.gate@.len()
    &&& a.up@.len() == b.up@.len()
    &&& a.ffn_out@.len() == b.ffn_out@.len()
}

/// Whether `n` is `a * b`.
fn is_product(n: usize, a: usize, b: usize) -> (r: bool)
    ensures
        r == (n == a * b),
{
    match a.checked_mul(b) {
        Some(p) => n == p,
        None => false,
    }
}

/// Whether [`attention_half`] can be called.
pub fn check_attention<A: Arith>(
    x: usize,
    layer: &LayerWeights<A>,
    cache: &KvCache<A>,
    cfg: &Config<A>,
    scratch: &Scratch<A>,
    pos: usize,
) -> (ok: bool)
    ensures
        ok == attention_fits::<A>(x as nat, layer, cache, cfg, scratch, pos as int),
{
    let (q, k, v) = (scratch.q.len(), scratch.k.len(), scratch.v.len());
    if layer.attn_norm.len() != x || scratch.normed.len() != x || !is_product(
        layer.wq.len(),
        x,
        q,
    ) || !is_product(layer.wk.len(), x, k) || !is_product(layer.wv.len(), x, v) {
        return false;
    }
    if cfg.head_dim == 0 || q % cfg.head_dim != 0 || k % cfg.head_dim != 0 || cfg.head_dim % 2 != 0
        && (q != 0 || k != 0) {
        return false;
    }
    if !is_product(cache.k.len(), cache.max_seq_len, cache.kv_dim) || !is_product(
        cache.v.len(),
        cache.max_seq_len,
        cache.kv_dim,
    ) || k != cache.kv_dim || v != cache.kv_dim || pos >= cache.max_seq_len {
        return false;
    }
    if !is_product(q, cfg.n_heads, cfg.head_dim) || !is_product(
        scratch.attn.len(),
        cfg.n_heads,
        cfg.head_dim,
    ) || cfg.n_kv_heads == 0 || cfg.n_heads % cfg.n_kv_heads != 0 {
        return false;
    }
    if cfg.n_heads > 0 {
        proof {
            assert(0 <= pos * cache.kv_dim && 0 <= cfg.n_kv_heads * cfg.head_dim)
                by (nonlinear_arith);
        }
        match pos.checked_mul(cache.kv_dim) {
            Some(row) => match cfg.n_kv_heads.checked_mul(cfg.head_dim) {
                Some(keys) => match row.checked_add(keys) {
                    Some(end) => {
                        if end > cache.k.len() {
                            return false;
                        }
                    },
                    None => return false,
                },
                None => return false,
            },
            None => return false,
        }
    }
    is_product(layer.wo.len(), scratch.attn.len(), scratch.attn_proj.len())
        && scratch.attn_proj.len() == x
}

/// Whether [`forward_layer`] can be called.
pub fn check_block<A: Arith>(
    x: usize,
    layer: &LayerWeights<A>,
    cache: &KvCache<A>,
    cfg: &Config<A>,
    scratch: &Scratch<A>,
    pos: usize,
) -> (ok: bool)
    ensures
        ok == block_fits::<A>(x as nat, layer, cache, cfg, scratch, pos as int),
{
    check_attention::<A>(x, layer, cache, cfg, scratch, pos) && layer.ffn_norm.len() == x
        && scratch.ffn_normed.len() == x && is_product(layer.w_gate.len(), x, scratch.gate.len())
        && is_product(layer.w_up.len(), x, scratch.up.len()) && scratch.up.len()
        == scratch.gate.len() && is_product(
        layer.w_down.len(),
        scratch.gate.len(),
        scratch.ffn_out.len(),
    ) && scratch.ffn_out.len() == x
}

/// `mb` is an outcome of the size of a block in 10^6 bytes, at four bytes per
/// weight of the norms and one per other weight.
pub open spec fn size_mb_is<A: Arith, F: Arith>(layer: &LayerWeights<A>, mb: F::Num) -> bool {
    exists|bytes: F::Num, mega: F::Num|
        {
            &&& count_is::<F>(layer.size() as u64, bytes)
            &&& count_is::<F>(1_000_000, mega)
            &&& #[trigger] quotient_is::<F>(bytes, mega, mb)
        }
}

impl<A: Arith> LayerWeights<A> {
    /// The size in bytes, at four bytes per weight of the norms and one per other
    /// weight.
    pub open spec fn size(&self) -> nat {
        (self.attn_norm@.len() + self.ffn_norm@.len()) * 4 + self.wq@.len() + self.wk@.len()
            + self.wv@.len() + self.wo@.len() + self.w_gate@.len() + self.w_up@.len()
            + self.w_down@.len()
    }
}

/// The size of a block, in 10^6 bytes.
pub fn layer_size_mb<A: Arith, F: Arith>(layer: &LayerWeights<A>) -> (mb: F::Num)
    requires
        layer.size() <= usize::MAX,
    ensures
        size_mb_is::<A, F>(layer, mb),
{
    let norm_bytes: usize = (layer.attn_norm.len() + layer.ffn_norm.len()) * 4;
    let packed_bytes: usize = layer.wq.len() + layer.wk.len() + layer.wv.len() + layer.wo.len()
        + layer.w_gate.len() + layer.w_up.len() + layer.w_down.len();
    let bytes = F::from_u64((norm_bytes + packed_bytes) as u64);
    let mega = F::from_u64(1_000_000);
    let mb = F::divide(bytes, mega);
    assert(quotient_is::<F>(bytes, mega, mb));
    mb
}

} // verus!
