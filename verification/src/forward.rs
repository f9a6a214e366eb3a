//! What the layers of a model do, written out: which tensors and which entries of
//! the metadata they come from, and how a token goes through them.

use vstd::prelude::*;

use crate::arith::Arith;
use crate::attention::{attention_is, head_at, KvCache};
use crate::embedding::{embed_error, table_of, EmbedError};
use crate::gguf::{product_of, tensor_named, ModelView, TensorType, TensorView, ValueView};
use crate::matmul::lemma_row_in_matrix;
use crate::nn::{head, linear_is, rmsnorm_is, rope_is};
use crate::plain::{follows, law_elements_written_out, law_q8_0_written_out, Ops};
use crate::quant::{
    dequantized_is, element_is, law_widening_is_one_to_one, tensor_error, tensor_is, widened,
    QuantError, TensorError,
};
use crate::roofline::{layer_ops_of, LinearOp, Projection};
use crate::transformer::{
    attention_config_error, attention_half_is, block_done, block_fits, block_is, blocks_are,
    config_error, decimal, digit, feed_forward_half_is, gated_is, layer_tensor_name, load_error,
    meta_f32_of, meta_u32_of, parts, sums_are, zeros_are, Config, ConfigError, Key, LayerWeights,
    Part, Scratch,
};

verus! {

/// A block normalises its input, projects it to query, key and value, and turns query
/// and key by the position. Key and value go into the row of the cache that the
/// position has; no other row changes. Attention to all positions so far is
/// projected and added to the input. Then the gated feed-forward network is applied
/// to the normalised sum, and its output added to the sum.
#[verifier::rlimit(50)]
pub proof fn law_block_written_out<A: Arith>(
    x: Seq<A::Num>,
    layer: &LayerWeights<A>,
    before: &KvCache<A>,
    after: &KvCache<A>,
    cfg: &Config<A>,
    scratch: &Scratch<A>,
    pos: usize,
    y: Seq<A::Num>,
)
    requires
        block_is::<A>(x, layer, before, after, cfg, scratch, pos, y),
    ensures
        exists|
            normed: Seq<A::Num>,
            q0: Seq<A::Num>,
            k0: Seq<A::Num>,
            v: Seq<A::Num>,
            q: Seq<A::Num>,
            k: Seq<A::Num>,
            attended: Seq<A::Num>,
            projected: Seq<A::Num>,
            mid: Seq<A::Num>,
            ffn_normed: Seq<A::Num>,
            gate0: Seq<A::Num>,
            up: Seq<A::Num>,
            gated: Seq<A::Num>,
            down: Seq<A::Num>,
        |
            {
                let hd = cfg.head_dim as nat;
                &&& #[trigger] rmsnorm_is::<A>(x, layer.attn_norm@, cfg.eps, normed)
                &&& #[trigger] linear_is::<A>(normed, layer.wq@, q0)
                &&& #[trigger] linear_is::<A>(normed, layer.wk@, k0)
                &&& #[trigger] linear_is::<A>(normed, layer.wv@, v)
                &&& q.len() == q0.len()
                &&& forall|h: int|
                    0 <= h < q0.len() / hd ==> #[trigger] rope_is::<A>(
                        head(q0, hd, h),
                        pos as u64,
                        cfg.freq_base,
                        head(q, hd, h),
                    )
                &&& k.len() == k0.len()
                &&& forall|h: int|
                    0 <= h < k0.len() / hd ==> #[trigger] rope_is::<A>(
                        head(k0, hd, h),
                        pos as u64,
                        cfg.freq_base,
                        head(k, hd, h),
                    )
                &&& after.k@ == Seq::new(
                    before.k@.len(),
                    |p: int|
                        if pos * before.kv_dim <= p < pos * before.kv_dim + k.len() {
                            k[p - pos * before.kv_dim]
                        } else {
                            before.k@[p]
                        },
                )
                &&& after.v@ == Seq::new(
                    before.v@.len(),
                    |p: int|
                        if pos * before.kv_dim <= p < pos * before.kv_dim + v.len() {
                            v[p - pos * before.kv_dim]
                        } else {
                            before.v@[p]
                        },
                )
                &&& #[trigger] attention_is::<A>(
                    q,
                    after.k@,
                    after.v@,
                    before.kv_dim as int,
                    cfg.n_heads as int,
                    cfg.n_kv_heads as int,
                    cfg.head_dim,
                    (pos + 1) as nat,
                    attended,
                )
                &&& #[trigger] linear_is::<A>(attended, layer.wo@, projected)
                &&& #[trigger] sums_are::<A>(x, projected, mid)
                &&& #[trigger] rmsnorm_is::<A>(mid, layer.ffn_norm@, cfg.eps, ffn_normed)
                &&& #[trigger] linear_is::<A>(ffn_normed, layer.w_gate@, gate0)
                &&& #[trigger] linear_is::<A>(ffn_normed, layer.w_up@, up)
                &&& #[trigger] gated_is::<A>(gate0, up, gated)
                &&& #[trigger] linear_is::<A>(gated, layer.w_down@, down)
                &&& sums_are::<A>(mid, down, y)
                &&& v.len() == before.kv_dim
                &&& #[trigger] q.len() == cfg.n_heads * cfg.head_dim
                &&& #[trigger] k.len() == before.kv_dim
            },
        after.kv_dim == before.kv_dim,
        after.max_seq_len == before.max_seq_len,
{
    let (q0, k0, mid, gate0) = choose|
        q0: Seq<A::Num>,
        k0: Seq<A::Num>,
        mid: Seq<A::Num>,
        gate0: Seq<A::Num>,
    |
        {
            &&& #[trigger] attention_half_is::<A>(x, layer, after, cfg, scratch, pos, q0, k0, mid)
            &&& #[trigger] feed_forward_half_is::<A>(mid, layer, cfg, scratch, gate0, y)
        };
    let (normed, q, k, v) = (scratch.normed@, scratch.q@, scratch.k@, scratch.v@);
    assert(rmsnorm_is::<A>(x, layer.attn_norm@, cfg.eps, normed));
    assert(linear_is::<A>(normed, layer.wq@, q0));
    assert(linear_is::<A>(normed, layer.wk@, k0));
    assert(linear_is::<A>(normed, layer.wv@, v));
    assert(linear_is::<A>(scratch.attn@, layer.wo@, scratch.attn_proj@));
    assert(sums_are::<A>(x, scratch.attn_proj@, mid));
    assert(rmsnorm_is::<A>(mid, layer.ffn_norm@, cfg.eps, scratch.ffn_normed@));
    assert(linear_is::<A>(scratch.ffn_normed@, layer.w_gate@, gate0));
    assert(linear_is::<A>(scratch.ffn_normed@, layer.w_up@, scratch.up@));
    assert(gated_is::<A>(gate0, scratch.up@, scratch.gate@));
    assert(linear_is::<A>(scratch.gate@, layer.w_down@, scratch.ffn_out@));
    assert(q.len() == cfg.n_heads * cfg.head_dim);
    assert(k.len() == before.kv_dim);
}

/// A token goes through all blocks in their order: what comes out of one goes into
/// the next, and each has a cache of its own.
pub proof fn law_blocks_follow_each_other<A: Arith>(
    x: Seq<A::Num>,
    layers: Seq<LayerWeights<A>>,
    before: Seq<KvCache<A>>,
    after: Seq<KvCache<A>>,
    cfg: &Config<A>,
    pos: usize,
    xs: Seq<Seq<A::Num>>,
    y: Seq<A::Num>,
    l: int,
)
    requires
        blocks_are::<A>(x, layers, before, after, cfg, pos, layers.len(), xs, y),
    ensures
        xs.len() == layers.len() + 1,
        xs.first() == x,
        xs.last() == y,
        0 <= l < layers.len() ==> exists|scratch: Scratch<A>|
            #[trigger] block_is::<A>(
                xs[l],
                &layers[l],
                &before[l],
                &after[l],
                cfg,
                &scratch,
                pos,
                xs[l + 1],
            ),
{
    if 0 <= l < layers.len() {
        assert(block_done::<A>(layers, before, after, cfg, pos, xs, l));
    }
}

/// Element `i` of head `h` at position `pos` of a cache.
pub proof fn law_cache_places<T>(
    rows: Seq<T>,
    kv_dim: nat,
    pos: nat,
    h: nat,
    head_dim: nat,
    i: int,
)
    requires
        0 <= i < head_dim,
        pos * kv_dim + h * head_dim + head_dim <= rows.len(),
    ensures
        head_at(rows, kv_dim as int, pos as int, h as int, head_dim as int).len() == head_dim,
        head_at(rows, kv_dim as int, pos as int, h as int, head_dim as int)[i] == rows[pos * kv_dim
            + h * head_dim + i],
{
    assert(0 <= pos * kv_dim && 0 <= h * head_dim) by (nonlinear_arith);
}

/// A buffer of zeros holds nothing else.
pub proof fn law_zeros<A: Arith>(o: Ops<A::Num>, n: nat, s: Seq<A::Num>)
    requires
        follows::<A>(o),
        zeros_are::<A>(n, s),
    ensures
        s == Seq::new(n, |i: int| (o.int)(0)),
{
}

/// The value of a decimal numeral is the number it was made of. It consists of
/// digits, and does not begin with a zero but for the number zero.
pub proof fn law_decimal_round_trip(n: nat)
    ensures
        decimal(n).fold_left(0int, |v: int, c: char| 10 * v + (c as int - '0' as int)) == n,
        forall|i: int| 0 <= i < decimal(n).len() ==> '0' <= #[trigger] decimal(n)[i] <= '9',
        decimal(n).len() >= 1,
        decimal(n)[0] == '0' ==> n == 0,
    decreases n,
{
    let f = |v: int, c: char| 10 * v + (c as int - '0' as int);
    reveal_with_fuel(Seq::fold_left, 2);
    if n >= 10 {
        law_decimal_round_trip(n / 10);
        let rest = decimal(n / 10);
        assert(decimal(n).drop_last() =~= rest);
        assert(decimal(n).last() == digit(n % 10));
        assert forall|i: int| 0 <= i < decimal(n).len() implies '0' <= #[trigger] decimal(
            n,
        )[i] <= '9' by {
            if i < rest.len() {
                assert(decimal(n)[i] == rest[i]);
            }
        }
    } else {
        assert(decimal(n).drop_last() =~= Seq::<char>::empty());
    }
}

/// The tensors of a block are named by the number of the block and their part.
pub proof fn law_tensor_names(layer: nat)
    ensures
        ({
            let prefix = "blk."@ + decimal(layer) + "."@;
            &&& layer_tensor_name(layer, Part::AttnNorm) == prefix + "attn_norm.weight"@
            &&& layer_tensor_name(layer, Part::Wq) == prefix + "attn_q.weight"@
            &&& layer_tensor_name(layer, Part::Wk) == prefix + "attn_k.weight"@
            &&& layer_tensor_name(layer, Part::Wv) == prefix + "attn_v.weight"@
            &&& layer_tensor_name(layer, Part::Wo) == prefix + "attn_output.weight"@
            &&& layer_tensor_name(layer, Part::FfnNorm) == prefix + "ffn_norm.weight"@
            &&& layer_tensor_name(layer, Part::Gate) == prefix + "ffn_gate.weight"@
            &&& layer_tensor_name(layer, Part::Up) == prefix + "ffn_up.weight"@
            &&& layer_tensor_name(layer, Part::Down) == prefix + "ffn_down.weight"@
        }),
{
}

/// Each weight of a block comes from the tensor that has its name.
pub proof fn law_weights_come_from_their_tensors<A: Arith>(
    weights: &LayerWeights<A>,
    model: ModelView,
    data: Seq<u8>,
    layer: nat,
)
    requires
        weights.are_of(model, data, layer),
    ensures
        ({
            let prefix = "blk."@ + decimal(layer) + "."@;
            &&& tensor_is::<A>(model, data, prefix + "attn_norm.weight"@, weights.attn_norm@)
            &&& tensor_is::<A>(model, data, prefix + "attn_q.weight"@, weights.wq@)
            &&& tensor_is::<A>(model, data, prefix + "attn_k.weight"@, weights.wk@)
            &&& tensor_is::<A>(model, data, prefix + "attn_v.weight"@, weights.wv@)
            &&& tensor_is::<A>(model, data, prefix + "attn_output.weight"@, weights.wo@)
            &&& tensor_is::<A>(model, data, prefix + "ffn_norm.weight"@, weights.ffn_norm@)
            &&& tensor_is::<A>(model, data, prefix + "ffn_gate.weight"@, weights.w_gate@)
            &&& tensor_is::<A>(model, data, prefix + "ffn_up.weight"@, weights.w_up@)
            &&& tensor_is::<A>(model, data, prefix + "ffn_down.weight"@, weights.w_down@)
        }),
{
}

/// A block is loaded unless one of its nine tensors cannot be; the error is that of
/// the first such tensor, in the order in which the block uses them.
pub proof fn law_load_reports_first_error(model: ModelView, len: nat, layer: nat)
    ensures
        ({
            let order = seq![
                Part::AttnNorm,
                Part::Wq,
                Part::Wk,
                Part::Wv,
                Part::Wo,
                Part::FfnNorm,
                Part::Gate,
                Part::Up,
                Part::Down,
            ];
            match load_error(model, len, layer, 0) {
                Some(e) => exists|i: int|
                    {
                        &&& 0 <= i < 9
                        &&& e.part == #[trigger] order[i]
                        &&& tensor_error(model, len, layer_tensor_name(layer, order[i])) == Some(
                            e.error,
                        )
                        &&& forall|j: int|
                            0 <= j < i ==> tensor_error(
                                model,
                                len,
                                layer_tensor_name(layer, #[trigger] order[j]),
                            ) is None
                    },
                None => forall|i: int|
                    0 <= i < 9 ==> tensor_error(
                        model,
                        len,
                        layer_tensor_name(layer, #[trigger] order[i]),
                    ) is None,
            }
        }),
{
    lemma_load_error(model, len, layer, 0);
}

/// The first error from part `from` on.
proof fn lemma_load_error(model: ModelView, len: nat, layer: nat, from: nat)
    requires
        from <= 9,
    ensures
        match load_error(model, len, layer, from) {
            Some(e) => exists|i: int|
                {
                    &&& from <= i < 9
                    &&& e.part == #[trigger] parts()[i]
                    &&& tensor_error(model, len, layer_tensor_name(layer, parts()[i])) == Some(
                        e.error,
                    )
                    &&& forall|j: int|
                        from <= j < i ==> tensor_error(
                            model,
                            len,
                            layer_tensor_name(layer, #[trigger] parts()[j]),
                        ) is None
                },
            None => forall|i: int|
                from <= i < 9 ==> tensor_error(
                    model,
                    len,
                    layer_tensor_name(layer, #[trigger] parts()[i]),
                ) is None,
        },
    decreases 9 - from,
{
    if from < 9 {
        assert(parts().len() == 9);
        let here = tensor_error(model, len, layer_tensor_name(layer, parts()[from as int]));
        if here is None {
            lemma_load_error(model, len, layer, from + 1);
        } else {
            assert(load_error(model, len, layer, from) is Some);
            assert(parts()[from as int] == load_error(model, len, layer, from)->0.part);
        }
    }
}

/// A tensor can be loaded where the model names it, the file holds it in whole
/// blocks, and its type is one of the three that can be dequantized.
pub proof fn law_loadable_tensors(model: ModelView, len: nat, name: Seq<char>)
    ensures
        match tensor_named(model.tensors, name) {
            None => tensor_error(model, len, name) == Some(TensorError::Missing),
            Some(t) => {
                let known = t.dtype == TensorType::F32 || t.dtype == TensorType::F16 || t.dtype
                    == TensorType::Q8_0;
                let whole = t.dtype != TensorType::Q8_0 || t.elements() % 32 == 0;
                if !model.holds(len, t) || !whole {
                    tensor_error(model, len, name) == Some(TensorError::Unreadable)
                } else if !known {
                    tensor_error(model, len, name) == Some(
                        TensorError::Quant(QuantError::Unsupported(t.dtype)),
                    )
                } else {
                    tensor_error(model, len, name) is None
                }
            },
        },
{
}

/// The embedding of a token is its row of the embedding table, element by element.
pub proof fn law_embedding_is_its_row<A: Arith>(
    o: Ops<A::Num>,
    model: ModelView,
    data: Seq<u8>,
    id: usize,
    table: Seq<A::Num>,
    row: Seq<A::Num>,
    i: int,
)
    requires
        follows::<A>(o),
        embed_error(model, data.len(), id) is None,
        tensor_error(model, data.len(), "token_embd.weight"@) is None,
        tensor_is::<A>(model, data, "token_embd.weight"@, table),
        ({
            let t = table_of(model)->0;
            &&& row.len() == t.shape[0]
            &&& dequantized_is::<A>(
                t.dtype,
                model.tensor_bytes(data, t).subrange(
                    id * t.row_bytes(),
                    (id + 1) * t.row_bytes(),
                ),
                row,
            )
        }),
        0 <= i < row.len(),
        0 <= id * row.len() + i < table.len(),
    ensures
        row[i] == table[id * row.len() + i],
{
    let t = table_of(model)->0;
    let bytes = model.tensor_bytes(data, t);
    let rb = t.row_bytes() as int;
    let n = row.len() as int;
    assert(bytes.len() == t.bytes());
    assert((id + 1) * rb == id * rb + rb && 0 <= id * rb) by (nonlinear_arith)
        requires
            0 <= rb,
            0 <= id,
    ;
    let part = bytes.subrange(id * rb, id * rb + rb);
    match t.dtype {
        TensorType::F32 => lemma_row_of_singles::<A>(o, bytes, id as int, table, row, part, i),
        TensorType::F16 => lemma_row_of_halves::<A>(o, bytes, id as int, table, row, part, i),
        _ => lemma_row_of_blocks::<A>(o, bytes, id as int, n / 32, table, row, part, i),
    }
}

/// A row of 32-bit floats.
proof fn lemma_row_of_singles<A: Arith>(
    o: Ops<A::Num>,
    bytes: Seq<u8>,
    id: int,
    table: Seq<A::Num>,
    row: Seq<A::Num>,
    part: Seq<u8>,
    i: int,
)
    requires
        follows::<A>(o),
        dequantized_is::<A>(TensorType::F32, bytes, table),
        dequantized_is::<A>(TensorType::F32, part, row),
        0 <= id * (row.len() * 4),
        id * (row.len() * 4) + row.len() * 4 <= bytes.len(),
        part == bytes.subrange(
            id * (row.len() * 4),
            id * (row.len() * 4) + row.len() * 4,
        ),
        0 <= i < row.len(),
        0 <= id * row.len() + i < table.len(),
    ensures
        row[i] == table[id * row.len() + i],
{
    let at = id * row.len() + i;
    law_elements_written_out::<A>(o, TensorType::F32, part, row, i);
    law_elements_written_out::<A>(o, TensorType::F32, bytes, table, at);
    assert(4 * at == id * (row.len() * 4) + 4 * i) by (nonlinear_arith)
        requires
            at == id * row.len() + i,
    ;
}

/// A row of 16-bit floats.
proof fn lemma_row_of_halves<A: Arith>(
    o: Ops<A::Num>,
    bytes: Seq<u8>,
    id: int,
    table: Seq<A::Num>,
    row: Seq<A::Num>,
    part: Seq<u8>,
    i: int,
)
    requires
        follows::<A>(o),
        dequantized_is::<A>(TensorType::F16, bytes, table),
        dequantized_is::<A>(TensorType::F16, part, row),
        0 <= id * (row.len() * 2),
        id * (row.len() * 2) + row.len() * 2 <= bytes.len(),
        part == bytes.subrange(
            id * (row.len() * 2),
            id * (row.len() * 2) + row.len() * 2,
        ),
        0 <= i < row.len(),
        0 <= id * row.len() + i < table.len(),
    ensures
        row[i] == table[id * row.len() + i],
{
    let at = id * row.len() + i;
    law_elements_written_out::<A>(o, TensorType::F16, part, row, i);
    law_elements_written_out::<A>(o, TensorType::F16, bytes, table, at);
    assert(2 * at == id * (row.len() * 2) + 2 * i) by (nonlinear_arith)
        requires
            at == id * row.len() + i,
    ;
    let s = choose|s: u32|
        #[trigger] widened((part[2 * i] + 256 * part[2 * i + 1]) as u16, s) && row[i] == (o.bits)(
            s,
        );
    let u = choose|u: u32|
        #[trigger] widened((bytes[2 * at] + 256 * bytes[2 * at + 1]) as u16, u) && table[at] == (
        o.bits)(u);
    assert(part[2 * i] == bytes[2 * at] && part[2 * i + 1] == bytes[2 * at + 1]);
    let h = (part[2 * i] + 256 * part[2 * i + 1]) as u16;
    law_widening_is_one_to_one(h, s, h, u);
}

/// A row of `w` blocks.
#[verifier::rlimit(50)]
proof fn lemma_row_of_blocks<A: Arith>(
    o: Ops<A::Num>,
    bytes: Seq<u8>,
    id: int,
    w: int,
    table: Seq<A::Num>,
    row: Seq<A::Num>,
    part: Seq<u8>,
    i: int,
)
    requires
        follows::<A>(o),
        dequantized_is::<A>(TensorType::Q8_0, bytes, table),
        dequantized_is::<A>(TensorType::Q8_0, part, row),
        row.len() == w * 32,
        0 <= id * (w * 34),
        id * (w * 34) + w * 34 <= bytes.len(),
        part == bytes.subrange(id * (w * 34), id * (w * 34) + w * 34),
        0 <= i < row.len(),
        0 <= id * row.len() + i < table.len(),
    ensures
        row[i] == table[id * row.len() + i],
{
    let at = id * row.len() + i;
    let (b, c) = (i / 32, i % 32);
    assert(at == (id * w) * 32 + i && id * (w * 34) == (id * w) * 34) by (nonlinear_arith)
        requires
            at == id * row.len() + i,
            row.len() == w * 32,
    ;
    let d = id * w + b;
    assert(d * 34 == id * (w * 34) + b * 34);
    assert(i == b * 32 + c && at == d * 32 + c);
    assert(0 <= d) by (nonlinear_arith)
        requires
            0 <= (id * w) * 34,
            0 <= b,
            d == id * w + b,
    ;
    assert(element_is::<A>(TensorType::Q8_0, part, i, row[i]));
    assert(element_is::<A>(TensorType::Q8_0, bytes, at, table[at]));
    law_q8_0_written_out::<A>(o, part, b, c, row[i]);
    law_q8_0_written_out::<A>(o, bytes, d, c, table[at]);
    assert(part[b * 34] == bytes[d * 34] && part[b * 34 + 1] == bytes[d * 34 + 1]);
    assert(part[b * 34 + 2 + c] == bytes[d * 34 + 2 + c]);
    let h = (part[b * 34] + 256 * part[b * 34 + 1]) as u16;
    let q = if part[b * 34 + 2 + c] < 128 {
        part[b * 34 + 2 + c] as i8
    } else {
        (part[b * 34 + 2 + c] - 256) as i8
    };
    let s = choose|s: u32| #[trigger] widened(h, s) && row[i] == (o.times)((o.bits)(s), (o.int)(q));
    let u = choose|u: u32|
        #[trigger] widened(h, u) && table[at] == (o.times)((o.bits)(u), (o.int)(q));
    law_widening_is_one_to_one(h, s, h, u);
}

/// A number of the metadata is read by its key: a missing key has none.
pub proof fn law_metadata_numbers(m: Map<Seq<char>, ValueView>, name: Seq<char>, n: u32)
    ensures
        !m.contains_key(name) ==> meta_u32_of(m, name) is None && meta_f32_of(m, name) is None,
        m.contains_pair(name, ValueView::U32(n)) ==> meta_u32_of(m, name) == Some(n),
        m.contains_pair(name, ValueView::F32(n)) ==> meta_f32_of(m, name) == Some(n),
{
}

/// The configuration of a model is what its metadata says under the keys of the
/// format, with the sizes that follow from them. The base of the rotary frequencies
/// is 10000 where nothing is said of it. The vocabulary is as large as the second
/// dimension of the token embedding.
pub proof fn law_config_reads_the_metadata<A: Arith>(
    model: ModelView,
    cfg: &Config<A>,
    eps: u32,
    head_dim: u32,
    heads: u32,
    kv_heads: u32,
    layers: u32,
    context: u32,
    feed_forward: u32,
    hidden: u32,
    table: TensorView,
)
    requires
        ({
            let m = model.metadata;
            &&& m.contains_pair(
                "llama.attention.layer_norm_rms_epsilon"@,
                ValueView::F32(eps),
            )
            &&& m.contains_pair("llama.rope.dimension_count"@, ValueView::U32(head_dim))
            &&& m.contains_pair("llama.attention.head_count"@, ValueView::U32(heads))
            &&& m.contains_pair("llama.attention.head_count_kv"@, ValueView::U32(kv_heads))
            &&& m.contains_pair("llama.block_count"@, ValueView::U32(layers))
            &&& m.contains_pair("llama.context_length"@, ValueView::U32(context))
            &&& m.contains_pair("llama.feed_forward_length"@, ValueView::U32(feed_forward))
            &&& m.contains_pair("llama.embedding_length"@, ValueView::U32(hidden))
        }),
        hidden == heads * head_dim,
        kv_heads * head_dim <= usize::MAX,
        tensor_named(model.tensors, "token_embd.weight"@) == Some(table),
        table.shape.len() >= 2,
    ensures
        config_error(model) is None,
        cfg.describes(model) ==> {
            let m = model.metadata;
            let key = "llama.rope.freq_base"@;
            &&& call_ensures(A::from_bits, (eps,), cfg.eps)
            &&& !m.contains_key(key) ==> call_ensures(A::from_u64, (10_000,), cfg.freq_base)
            &&& forall|b: u32|
                #[trigger] m.contains_pair(key, ValueView::F32(b)) ==> call_ensures(
                    A::from_bits,
                    (b,),
                    cfg.freq_base,
                )
            &&& cfg.head_dim == head_dim
            &&& cfg.n_heads == heads
            &&& cfg.n_kv_heads == kv_heads
            &&& cfg.n_layers == layers
            &&& cfg.max_seq_len == context
            &&& cfg.intermediate == feed_forward
            &&& cfg.hidden == hidden
            &&& cfg.kv_dim == kv_heads * head_dim
            &&& cfg.vocab == table.shape[1] as usize
        },
{
}

/// A model has no configuration where an entry is missing, of which the first is
/// reported, where the heads do not make up the embedding, where the keys of all
/// heads are too large, or where the token embedding is missing or no matrix.
pub proof fn law_config_errors(model: ModelView)
    ensures
        ({
            let m = model.metadata;
            let head_dim = meta_u32_of(m, "llama.rope.dimension_count"@);
            let heads = meta_u32_of(m, "llama.attention.head_count"@);
            let kv_heads = meta_u32_of(m, "llama.attention.head_count_kv"@);
            let hidden = meta_u32_of(m, "llama.embedding_length"@);
            let table = tensor_named(model.tensors, "token_embd.weight"@);
            config_error(model) == if meta_f32_of(
                m,
                "llama.attention.layer_norm_rms_epsilon"@,
            ) is None {
                Some(ConfigError::Metadata(Key::Epsilon))
            } else if head_dim is None {
                Some(ConfigError::Metadata(Key::HeadDim))
            } else if heads is None {
                Some(ConfigError::Metadata(Key::Heads))
            } else if kv_heads is None {
                Some(ConfigError::Metadata(Key::KvHeads))
            } else if meta_u32_of(m, "llama.block_count"@) is None {
                Some(ConfigError::Metadata(Key::Layers))
            } else if meta_u32_of(m, "llama.context_length"@) is None {
                Some(ConfigError::Metadata(Key::Context))
            } else if meta_u32_of(m, "llama.feed_forward_length"@) is None {
                Some(ConfigError::Metadata(Key::FeedForward))
            } else if hidden is None {
                Some(ConfigError::Metadata(Key::Hidden))
            } else if heads->0 * head_dim->0 != hidden->0 {
                Some(ConfigError::HiddenMismatch)
            } else if kv_heads->0 * head_dim->0 > usize::MAX {
                Some(ConfigError::KvTooLarge)
            } else if table is None {
                Some(ConfigError::NoEmbedding)
            } else if table->0.shape.len() < 2 {
                Some(ConfigError::EmbeddingShape)
            } else {
                None
            }
        }),
{
}

/// The attention alone needs fewer entries; the first that is missing is reported.
pub proof fn law_attention_config_errors(m: Map<Seq<char>, ValueView>)
    ensures
        ({
            let head_dim = meta_u32_of(m, "llama.rope.dimension_count"@);
            let heads = meta_u32_of(m, "llama.attention.head_count"@);
            let kv_heads = meta_u32_of(m, "llama.attention.head_count_kv"@);
            attention_config_error(m) == if meta_f32_of(
                m,
                "llama.attention.layer_norm_rms_epsilon"@,
            ) is None {
                Some(ConfigError::Metadata(Key::Epsilon))
            } else if head_dim is None {
                Some(ConfigError::Metadata(Key::HeadDim))
            } else if heads is None {
                Some(ConfigError::Metadata(Key::Heads))
            } else if kv_heads is None {
                Some(ConfigError::Metadata(Key::KvHeads))
            } else if meta_u32_of(m, "llama.context_length"@) is None {
                Some(ConfigError::Metadata(Key::Context))
            } else if heads->0 * head_dim->0 > usize::MAX {
                Some(ConfigError::HiddenTooLarge)
            } else if kv_heads->0 * head_dim->0 > usize::MAX {
                Some(ConfigError::KvTooLarge)
            } else {
                None
            }
        }),
{
}

/// The seven matrix-vector products of a block, in their order: from the embedding
/// to itself, to keys and to values, back to it, and through the feed-forward
/// network.
pub proof fn law_layer_products<A: Arith>(cfg: &Config<A>)
    ensures
        layer_ops_of::<A>(cfg).map_values(|op: LinearOp| (op.projection, op.in_dim, op.out_dim))
            == seq![
            (Projection::Q, cfg.hidden, cfg.hidden),
            (Projection::K, cfg.hidden, cfg.kv_dim),
            (Projection::V, cfg.hidden, cfg.kv_dim),
            (Projection::O, cfg.hidden, cfg.hidden),
            (Projection::Gate, cfg.hidden, cfg.intermediate),
            (Projection::Up, cfg.hidden, cfg.intermediate),
            (Projection::Down, cfg.intermediate, cfg.hidden),
        ],
{
    assert(layer_ops_of::<A>(cfg).map_values(
        |op: LinearOp| (op.projection, op.in_dim, op.out_dim),
    ) =~= seq![
        (Projection::Q, cfg.hidden, cfg.hidden),
        (Projection::K, cfg.hidden, cfg.kv_dim),
        (Projection::V, cfg.hidden, cfg.kv_dim),
        (Projection::O, cfg.hidden, cfg.hidden),
        (Projection::Gate, cfg.hidden, cfg.intermediate),
        (Projection::Up, cfg.hidden, cfg.intermediate),
        (Projection::Down, cfg.intermediate, cfg.hidden),
    ]);
}

/// A token has an embedding where the model has a table with two dimensions, the
/// second of which exceeds the token, and where the file holds the row in a type
/// that can be dequantized.
pub proof fn law_embedding_errors(model: ModelView, len: nat, id: usize)
    ensures
        match tensor_named(model.tensors, "token_embd.weight"@) {
            None => embed_error(model, len, id) == Some(EmbedError::NoTable),
            Some(t) => {
                let known = t.dtype == TensorType::F32 || t.dtype == TensorType::F16 || t.dtype
                    == TensorType::Q8_0;
                if t.shape.len() != 2 {
                    embed_error(model, len, id) == Some(EmbedError::Shape)
                } else if id >= t.shape[1] as usize {
                    embed_error(model, len, id) == Some(
                        EmbedError::OutOfRange { id, vocab: t.shape[1] as usize },
                    )
                } else if !model.holds(len, t) || t.dtype == TensorType::Q8_0 && t.shape[0] % 32
                    != 0 {
                    embed_error(model, len, id) == Some(EmbedError::Unreadable)
                } else {
                    embed_error(model, len, id) is None ==> known
                }
            },
        },
{
}

/// Every token that the table has a row for has an embedding, where the file holds
/// the table in a type that can be dequantized, with rows of whole blocks.
pub proof fn law_tokens_have_embeddings(model: ModelView, len: nat, id: usize, t: TensorView)
    requires
        tensor_named(model.tensors, "token_embd.weight"@) == Some(t),
        t.shape.len() == 2,
        t.shape[0] <= usize::MAX,
        t.shape[1] <= usize::MAX,
        id < t.shape[1],
        model.holds(len, t),
        t.dtype == TensorType::F32 || t.dtype == TensorType::F16 || t.dtype == TensorType::Q8_0
            && t.shape[0] % 32 == 0,
    ensures
        embed_error(model, len, id) is None,
{
    let (n, rows) = (t.shape[0] as int, t.shape[1] as int);
    assert(t.elements() == n * rows) by {
        reveal_with_fuel(product_of, 3);
        assert(1 * n == n) by (nonlinear_arith);
    }
    let block = t.dtype.elements() as int;
    let w = n / block;
    assert(n == w * block);
    assert((n * rows) / block == w * rows) by {
        assert(n * rows == (w * rows) * block) by (nonlinear_arith)
            requires
                n == w * block,
        ;
        vstd::arithmetic::div_mod::lemma_div_multiples_vanish(w * rows, block);
        assert((w * rows) * block == block * (w * rows)) by (nonlinear_arith);
    }
    let b = t.dtype.bytes() as int;
    assert((id + 1) * (w * b) <= (w * rows) * b) by (nonlinear_arith)
        requires
            0 <= w,
            0 <= b,
            id + 1 <= rows,
    ;
}

/// A block can be applied wherever the weights have the sizes that the configuration
/// says, with buffers and a cache that are made for it, at every position that the
/// cache has.
pub proof fn law_block_fits_its_config<A: Arith>(
    cfg: &Config<A>,
    layer: &LayerWeights<A>,
    cache: &KvCache<A>,
    scratch: &Scratch<A>,
    pos: int,
)
    requires
        cfg.head_dim > 0,
        cfg.head_dim % 2 == 0,
        cfg.n_kv_heads > 0,
        cfg.n_heads % cfg.n_kv_heads == 0,
        cfg.hidden == cfg.n_heads * cfg.head_dim,
        cfg.kv_dim == cfg.n_kv_heads * cfg.head_dim,
        layer.attn_norm@.len() == cfg.hidden,
        layer.wq@.len() == cfg.hidden * cfg.hidden,
        layer.wk@.len() == cfg.hidden * cfg.kv_dim,
        layer.wv@.len() == cfg.hidden * cfg.kv_dim,
        layer.wo@.len() == cfg.hidden * cfg.hidden,
        layer.ffn_norm@.len() == cfg.hidden,
        layer.w_gate@.len() == cfg.hidden * cfg.intermediate,
        layer.w_up@.len() == cfg.hidden * cfg.intermediate,
        layer.w_down@.len() == cfg.intermediate * cfg.hidden,
        cache.kv_dim == cfg.kv_dim,
        cache.k@.len() == cache.max_seq_len * cfg.kv_dim,
        cache.v@.len() == cache.max_seq_len * cfg.kv_dim,
        scratch.normed@.len() == cfg.hidden,
        scratch.q@.len() == cfg.hidden,
        scratch.k@.len() == cfg.kv_dim,
        scratch.v@.len() == cfg.kv_dim,
        scratch.attn@.len() == cfg.hidden,
        scratch.attn_proj@.len() == cfg.hidden,
        scratch.ffn_normed@.len() == cfg.hidden,
        scratch.gate@.len() == cfg.intermediate,
        scratch.up@.len() == cfg.intermediate,
        scratch.ffn_out@.len() == cfg.hidden,
        0 <= pos < cache.max_seq_len,
    ensures
        block_fits::<A>(cfg.hidden as nat, layer, cache, cfg, scratch, pos),
{
    let hd = cfg.head_dim as int;
    vstd::arithmetic::div_mod::lemma_mod_multiples_basic(cfg.n_heads as int, hd);
    vstd::arithmetic::div_mod::lemma_mod_multiples_basic(cfg.n_kv_heads as int, hd);
    lemma_row_in_matrix(pos, cache.max_seq_len as int, cfg.kv_dim as int);
}

/// The sizes that a block needs are no less than what it reads and writes: where it
/// can be applied, norms and weights fit the vectors, the heads divide the query and
/// the key, and the cache has a row for the position.
pub proof fn law_block_needs_its_sizes<A: Arith>(
    x: nat,
    layer: &LayerWeights<A>,
    cache: &KvCache<A>,
    cfg: &Config<A>,
    scratch: &Scratch<A>,
    pos: int,
)
    requires
        block_fits::<A>(x, layer, cache, cfg, scratch, pos),
    ensures
        layer.attn_norm@.len() == x,
        layer.ffn_norm@.len() == x,
        layer.wq@.len() == x * (cfg.n_heads * cfg.head_dim),
        layer.wk@.len() == x * cache.kv_dim,
        layer.wv@.len() == x * cache.kv_dim,
        layer.wo@.len() == (cfg.n_heads * cfg.head_dim) * x,
        layer.w_up@.len() == layer.w_gate@.len(),
        layer.w_gate@.len() == x * scratch.gate@.len(),
        layer.w_down@.len() == scratch.gate@.len() * x,
        cfg.n_heads % cfg.n_kv_heads == 0,
        pos < cache.max_seq_len,
{
}

} // verus!
