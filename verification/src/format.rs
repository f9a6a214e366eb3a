//! The model file format from the writing side: which bytes hold which value.
//!
//! The laws say that [`crate::gguf`] reads back what was written.

use vstd::prelude::*;
use vstd::utf8::*;

use crate::gguf::{
    body_at, dims_at, elements_at, law_align_up, le_value, lemma_views, metadata_at, model_of,
    product_of, string_at, tables_at, tensor_at, tensor_named, tensor_type, tensors_at, uint16_at,
    uint32_at, uint64_at, uint8_at, uint_at, value_as_f32, value_as_u32, value_at, GgufError, Model,
    ModelView, TensorType, TensorView, Value, ValueView,
};
use crate::quant::lengths_fit;
use crate::text::lemma_longest_utf8;

verus! {

/// The `n` bytes of the number `v`, the lowest first.
pub open spec fn le(v: nat, n: nat) -> Seq<u8>
    decreases n,
{
    if n == 0 {
        Seq::empty()
    } else {
        seq![(v % 256) as u8] + le(v / 256, (n - 1) as nat)
    }
}

/// The bytes of a text: how many its UTF-8 encoding takes, and the encoding.
pub open spec fn text_bytes(s: Seq<char>) -> Seq<u8> {
    le(encode_utf8(s).len(), 8) + encode_utf8(s)
}

/// The bytes of an array whose elements are of type number `elem` and take the bytes
/// `parts`.
pub open spec fn array_bytes(elem: u32, parts: Seq<Seq<u8>>) -> Seq<u8> {
    le(elem as nat, 4) + le(parts.len(), 8) + parts.flatten()
}

/// The bytes `b` hold the value `v` as one of type number `t`. Negative numbers are
/// in two's complement, and every byte but zero is true.
pub open spec fn writes(v: ValueView, t: u32, b: Seq<u8>) -> bool
    decreases v,
{
    match v {
        ValueView::U8(x) => t == 0 && b == le(x as nat, 1),
        ValueView::I8(x) => t == 1 && b == le(
            if x < 0 {
                (x + 0x100) as nat
            } else {
                x as nat
            },
            1,
        ),
        ValueView::U16(x) => t == 2 && b == le(x as nat, 2),
        ValueView::I16(x) => t == 3 && b == le(
            if x < 0 {
                (x + 0x1_0000) as nat
            } else {
                x as nat
            },
            2,
        ),
        ValueView::U32(x) => t == 4 && b == le(x as nat, 4),
        ValueView::I32(x) => t == 5 && b == le(
            if x < 0 {
                (x + 0x1_0000_0000) as nat
            } else {
                x as nat
            },
            4,
        ),
        ValueView::F32(x) => t == 6 && b == le(x as nat, 4),
        ValueView::Bool(x) => t == 7 && b.len() == 1 && (b[0] != 0 <==> x),
        ValueView::Text(s) => t == 8 && b == text_bytes(s),
        ValueView::Array(vs) => t == 9 && exists|elem: u32, parts: Seq<Seq<u8>>|
            {
                &&& b == #[trigger] array_bytes(elem, parts)
                &&& parts.len() == vs.len()
                &&& forall|i: int| 0 <= i < vs.len() ==> writes(vs[i], elem, #[trigger] parts[i])
            },
        ValueView::U64(x) => t == 10 && b == le(x as nat, 8),
        ValueView::I64(x) => t == 11 && b == le(
            if x < 0 {
                (x + 0x1_0000_0000_0000_0000) as nat
            } else {
                x as nat
            },
            8,
        ),
        ValueView::F64(x) => t == 12 && b == le(x as nat, 8),
    }
}

/// The bytes of a metadata entry: its key, the number of its type, and its value.
pub open spec fn entry_bytes(key: Seq<char>, t: u32, value: Seq<u8>) -> Seq<u8> {
    text_bytes(key) + le(t as nat, 4) + value
}

/// The bytes `b` hold a metadata entry.
pub open spec fn writes_entry(entry: (Seq<char>, ValueView), b: Seq<u8>) -> bool {
    exists|t: u32, value: Seq<u8>|
        b == #[trigger] entry_bytes(entry.0, t, value) && writes(entry.1, t, value)
}

/// The number of a tensor type.
pub open spec fn type_number(t: TensorType) -> nat {
    match t {
        TensorType::F32 => 0,
        TensorType::F16 => 1,
        TensorType::Q4_0 => 2,
        TensorType::Q4_1 => 3,
        TensorType::Q5_0 => 6,
        TensorType::Q5_1 => 7,
        TensorType::Q8_0 => 8,
        TensorType::Q8_1 => 9,
        TensorType::Q2K => 10,
        TensorType::Q3K => 11,
        TensorType::Q4K => 12,
        TensorType::Q5K => 13,
        TensorType::Q6K => 14,
        TensorType::Q8K => 15,
    }
}

/// The bytes of a tensor description: the name, how many dimensions there are, each
/// of them, the number of the type, and the offset.
pub open spec fn tensor_bytes(t: TensorView) -> Seq<u8> {
    text_bytes(t.name) + le(t.shape.len(), 4) + t.shape.map_values(
        |d: u64| le(d as nat, 8),
    ).flatten() + le(type_number(t.dtype), 4) + le(t.offset as nat, 8)
}

/// The bytes of a model file up to its tensor data, with metadata entries that take
/// the bytes `entries`.
pub open spec fn file_bytes(entries: Seq<Seq<u8>>, tensors: Seq<TensorView>) -> Seq<u8> {
    seq![0x47u8, 0x47u8, 0x55u8, 0x46u8] + le(3, 4) + le(tensors.len(), 8) + le(entries.len(), 8)
        + entries.flatten() + tensors.map_values(|t: TensorView| tensor_bytes(t)).flatten()
}

/// The bytes `b` stand in `data` at `pos`.
spec fn stand(data: Seq<u8>, pos: nat, b: Seq<u8>) -> bool {
    pos + b.len() <= data.len() && data.subrange(pos as int, (pos + b.len()) as int) == b
}

/// Both parts of bytes stand where the whole stands.
proof fn lemma_stand_split(data: Seq<u8>, pos: nat, a: Seq<u8>, b: Seq<u8>)
    requires
        stand(data, pos, a + b),
    ensures
        stand(data, pos, a),
        stand(data, pos + a.len(), b),
{
    let whole = data.subrange(pos as int, (pos + (a + b).len()) as int);
    assert(data.subrange(pos as int, (pos + a.len()) as int) =~= whole.subrange(
        0,
        a.len() as int,
    ));
    assert(whole.subrange(0, a.len() as int) =~= a);
    assert(data.subrange((pos + a.len()) as int, (pos + a.len() + b.len()) as int)
        =~= whole.subrange(a.len() as int, (a + b).len() as int));
    assert(whole.subrange(a.len() as int, (a + b).len() as int) =~= b);
}

/// The number `v` needs no more than `n` bytes.
spec fn fits(v: nat, n: nat) -> bool
    decreases n,
{
    if n == 0 {
        v == 0
    } else {
        fits(v / 256, (n - 1) as nat)
    }
}

/// The bytes of a number have its value.
proof fn lemma_le(v: nat, n: nat)
    ensures
        le(v, n).len() == n,
        fits(v, n) ==> le_value(le(v, n)) == v,
    decreases n,
{
    if n > 0 {
        lemma_le(v / 256, (n - 1) as nat);
        assert(le(v, n).drop_first() =~= le(v / 256, (n - 1) as nat));
    }
}

/// Numbers of the integer types need no more bytes than the types have.
proof fn lemma_fits(v: nat)
    ensures
        v < 0x100 ==> fits(v, 1),
        v < 0x1_0000 ==> fits(v, 2),
        v < 0x1_0000_0000 ==> fits(v, 4),
        v < 0x1_0000_0000_0000_0000 ==> fits(v, 8),
{
    reveal_with_fuel(fits, 9);
}

/// A number is read back.
proof fn lemma_uint(data: Seq<u8>, pos: nat, v: nat, n: nat)
    requires
        fits(v, n),
        stand(data, pos, le(v, n)),
    ensures
        uint_at(data, pos, n) == Ok::<(nat, nat), GgufError>((v, pos + n)),
        le(v, n).len() == n,
{
    lemma_le(v, n);
}

/// A text is read back.
proof fn lemma_text(data: Seq<u8>, pos: nat, s: Seq<char>)
    requires
        data.len() <= usize::MAX,
        stand(data, pos, text_bytes(s)),
    ensures
        string_at(data, pos) == Ok::<(Seq<char>, nat), GgufError>(
            (s, pos + text_bytes(s).len()),
        ),
        text_bytes(s).len() >= 8,
{
    let b = encode_utf8(s);
    lemma_le(b.len(), 8);
    lemma_stand_split(data, pos, le(b.len(), 8), b);
    lemma_fits(b.len());
    lemma_uint(data, pos, b.len(), 8);
    encode_utf8_valid_utf8(s);
    encode_utf8_decode_utf8(s);
}

/// A value takes at least one byte.
proof fn lemma_value_len(v: ValueView, t: u32, b: Seq<u8>)
    requires
        writes(v, t, b),
    ensures
        b.len() >= 1,
{
    match v {
        ValueView::U8(x) => lemma_le(x as nat, 1),
        ValueView::I8(x) => {
            lemma_le((x + 0x100) as nat, 1);
            lemma_le(x as nat, 1);
        },
        ValueView::U16(x) => lemma_le(x as nat, 2),
        ValueView::I16(x) => {
            lemma_le((x + 0x1_0000) as nat, 2);
            lemma_le(x as nat, 2);
        },
        ValueView::U32(x) => lemma_le(x as nat, 4),
        ValueView::I32(x) => {
            lemma_le((x + 0x1_0000_0000) as nat, 4);
            lemma_le(x as nat, 4);
        },
        ValueView::F32(x) => lemma_le(x as nat, 4),
        ValueView::Bool(_) => {},
        ValueView::Text(s) => lemma_le(encode_utf8(s).len(), 8),
        ValueView::Array(vs) => {
            let (elem, parts) = choose|elem: u32, parts: Seq<Seq<u8>>|
                {
                    &&& b == #[trigger] array_bytes(elem, parts)
                    &&& parts.len() == vs.len()
                    &&& forall|i: int|
                        0 <= i < vs.len() ==> writes(vs[i], elem, #[trigger] parts[i])
                };
            lemma_le(elem as nat, 4);
        },
        ValueView::U64(x) => lemma_le(x as nat, 8),
        ValueView::I64(x) => {
            lemma_le((x + 0x1_0000_0000_0000_0000) as nat, 8);
            lemma_le(x as nat, 8);
        },
        ValueView::F64(x) => lemma_le(x as nat, 8),
    }
}

/// Two's complement.
proof fn lemma_twos_complement(a: u8, b: u16, c: u32, d: u64)
    ensures
        a as i8 == if a < 0x80 {
            a as int
        } else {
            a - 0x100
        },
        b as i16 == if b < 0x8000 {
            b as int
        } else {
            b - 0x1_0000
        },
        c as i32 == if c < 0x8000_0000 {
            c as int
        } else {
            c - 0x1_0000_0000
        },
        d as i64 == if d < 0x8000_0000_0000_0000 {
            d as int
        } else {
            d - 0x1_0000_0000_0000_0000
        },
{
    assert(a >= 0x80 ==> a as i8 == a - 0x100) by (bit_vector);
    assert(b >= 0x8000 ==> b as i16 == b - 0x1_0000) by (bit_vector);
    assert(c >= 0x8000_0000 ==> c as i32 == c - 0x1_0000_0000) by (bit_vector);
    assert(d >= 0x8000_0000_0000_0000 ==> d as i64 == d - 0x1_0000_0000_0000_0000)
        by (bit_vector);
}

/// A value is read back, whatever its type: numbers of every size and sign, texts,
/// and arrays of any depth.
#[verifier::rlimit(50)]
pub proof fn law_values_round_trip(data: Seq<u8>, pos: nat, v: ValueView, t: u32, b: Seq<u8>)
    requires
        data.len() <= usize::MAX,
        writes(v, t, b),
        pos + b.len() <= data.len(),
        data.subrange(pos as int, (pos + b.len()) as int) == b,
    ensures
        value_at(data, pos, t) == Ok::<(ValueView, nat), GgufError>((v, pos + b.len())),
    decreases b.len(), 0nat,
{
    match v {
        ValueView::U8(x) => {
            lemma_fits(x as nat);
            lemma_uint(data, pos, x as nat, 1);
        },
        ValueView::I8(x) => {
            let u = if x < 0 {
                (x + 0x100) as nat
            } else {
                x as nat
            };
            lemma_fits(u);
            lemma_uint(data, pos, u, 1);
            lemma_twos_complement(u as u8, 0, 0, 0);
        },
        ValueView::U16(x) => {
            lemma_fits(x as nat);
            lemma_uint(data, pos, x as nat, 2);
        },
        ValueView::I16(x) => {
            let u = if x < 0 {
                (x + 0x1_0000) as nat
            } else {
                x as nat
            };
            lemma_fits(u);
            lemma_uint(data, pos, u, 2);
            lemma_twos_complement(0, u as u16, 0, 0);
        },
        ValueView::U32(x) => {
            lemma_fits(x as nat);
            lemma_uint(data, pos, x as nat, 4);
        },
        ValueView::I32(x) => {
            let u = if x < 0 {
                (x + 0x1_0000_0000) as nat
            } else {
                x as nat
            };
            lemma_fits(u);
            lemma_uint(data, pos, u, 4);
            lemma_twos_complement(0, 0, u as u32, 0);
        },
        ValueView::F32(x) => {
            lemma_fits(x as nat);
            lemma_uint(data, pos, x as nat, 4);
        },
        ValueView::Bool(x) => {
            let u = b[0] as nat;
            lemma_fits(u);
            assert(le(u, 1) =~= b) by {
                reveal_with_fuel(le, 2);
            }
            lemma_uint(data, pos, u, 1);
        },
        ValueView::Text(s) => {
            lemma_text(data, pos, s);
        },
        ValueView::Array(vs) => {
            let (elem, parts) = choose|elem: u32, parts: Seq<Seq<u8>>|
                {
                    &&& b == #[trigger] array_bytes(elem, parts)
                    &&& parts.len() == vs.len()
                    &&& forall|i: int|
                        0 <= i < vs.len() ==> writes(vs[i], elem, #[trigger] parts[i])
                };
            let n = parts.len();
            lemma_le(elem as nat, 4);
            lemma_le(n, 8);
            lemma_stand_split(data, pos, le(elem as nat, 4) + le(n, 8), parts.flatten());
            lemma_stand_split(data, pos, le(elem as nat, 4), le(n, 8));
            lemma_fits(elem as nat);
            lemma_uint(data, pos, elem as nat, 4);
            lemma_parts_len(vs, elem, parts);
            lemma_fits(n);
            lemma_uint(data, pos + 4, n, 8);
            lemma_elements(data, pos + 12, elem, vs, parts, Seq::empty());
            assert(Seq::<ValueView>::empty() + vs =~= vs);
        },
        ValueView::U64(x) => {
            lemma_fits(x as nat);
            lemma_uint(data, pos, x as nat, 8);
        },
        ValueView::I64(x) => {
            let u = if x < 0 {
                (x + 0x1_0000_0000_0000_0000) as nat
            } else {
                x as nat
            };
            lemma_fits(u);
            lemma_uint(data, pos, u, 8);
            lemma_twos_complement(0, 0, 0, u as u64);
        },
        ValueView::F64(x) => {
            lemma_fits(x as nat);
            lemma_uint(data, pos, x as nat, 8);
        },
    }
}

/// The elements of an array take at least as many bytes as they are.
proof fn lemma_parts_len(vs: Seq<ValueView>, elem: u32, parts: Seq<Seq<u8>>)
    requires
        parts.len() == vs.len(),
        forall|i: int| 0 <= i < vs.len() ==> writes(vs[i], elem, #[trigger] parts[i]),
    ensures
        parts.flatten().len() >= parts.len(),
    decreases parts.len(),
{
    if parts.len() > 0 {
        assert(writes(vs[0], elem, parts[0]));
        lemma_value_len(vs[0], elem, parts[0]);
        let (v2, p2) = (vs.drop_first(), parts.drop_first());
        assert forall|i: int| 0 <= i < v2.len() implies writes(v2[i], elem, #[trigger] p2[i]) by {
            assert(writes(vs[i + 1], elem, parts[i + 1]));
        }
        lemma_parts_len(v2, elem, p2);
    }
}

/// The elements of an array are read back.
proof fn lemma_elements(
    data: Seq<u8>,
    pos: nat,
    elem: u32,
    vs: Seq<ValueView>,
    parts: Seq<Seq<u8>>,
    acc: Seq<ValueView>,
)
    requires
        data.len() <= usize::MAX,
        parts.len() == vs.len(),
        forall|i: int| 0 <= i < vs.len() ==> writes(vs[i], elem, #[trigger] parts[i]),
        stand(data, pos, parts.flatten()),
    ensures
        elements_at(data, pos, elem, vs.len(), acc) == Ok::<(Seq<ValueView>, nat), GgufError>(
            (acc + vs, pos + parts.flatten().len()),
        ),
    decreases parts.flatten().len(), 1nat,
{
    if parts.len() == 0 {
        assert(acc + vs =~= acc);
    } else {
        let (v2, p2) = (vs.drop_first(), parts.drop_first());
        assert(writes(vs[0], elem, parts[0]));
        lemma_value_len(vs[0], elem, parts[0]);
        lemma_stand_split(data, pos, parts[0], p2.flatten());
        law_values_round_trip(data, pos, vs[0], elem, parts[0]);
        assert forall|i: int| 0 <= i < v2.len() implies writes(v2[i], elem, #[trigger] p2[i]) by {
            assert(writes(vs[i + 1], elem, parts[i + 1]));
        }
        lemma_elements(data, pos + parts[0].len(), elem, v2, p2, acc.push(vs[0]));
        assert(acc.push(vs[0]) + v2 =~= acc + vs);
    }
}

/// A fold begins with the first element.
proof fn lemma_fold_first<S, T>(s: Seq<T>, b: S, f: spec_fn(S, T) -> S)
    requires
        s.len() > 0,
    ensures
        s.fold_left(b, f) == s.drop_first().fold_left(f(b, s[0]), f),
{
    s.lemma_fold_left_split(b, f, 1);
    reveal_with_fuel(Seq::fold_left, 2);
    assert(s.subrange(0, 1).drop_last() =~= Seq::<T>::empty());
    assert(s.subrange(1, s.len() as int) =~= s.drop_first());
}

/// Metadata entries are read back.
proof fn lemma_metadata(
    data: Seq<u8>,
    pos: nat,
    entries: Seq<(Seq<char>, ValueView)>,
    parts: Seq<Seq<u8>>,
    acc: Map<Seq<char>, ValueView>,
)
    requires
        data.len() <= usize::MAX,
        parts.len() == entries.len(),
        forall|i: int| 0 <= i < entries.len() ==> writes_entry(entries[i], #[trigger] parts[i]),
        stand(data, pos, parts.flatten()),
    ensures
        metadata_at(data, pos, entries.len(), acc) == Ok::<
            (Map<Seq<char>, ValueView>, nat),
            GgufError,
        >(
            (
                entries.fold_left(
                    acc,
                    |m: Map<Seq<char>, ValueView>, e: (Seq<char>, ValueView)| m.insert(e.0, e.1),
                ),
                pos + parts.flatten().len(),
            ),
        ),
        parts.flatten().len() >= parts.len(),
    decreases parts.len(),
{
    if parts.len() > 0 {
        let (e2, p2) = (entries.drop_first(), parts.drop_first());
        assert(writes_entry(entries[0], parts[0]));
        let (key, v) = entries[0];
        let (t, value) = choose|t: u32, value: Seq<u8>|
            parts[0] == #[trigger] entry_bytes(key, t, value) && writes(v, t, value);
        lemma_stand_split(data, pos, parts[0], p2.flatten());
        lemma_stand_split(data, pos, text_bytes(key) + le(t as nat, 4), value);
        lemma_stand_split(data, pos, text_bytes(key), le(t as nat, 4));
        lemma_text(data, pos, key);
        lemma_fits(t as nat);
        lemma_uint(data, pos + text_bytes(key).len(), t as nat, 4);
        law_values_round_trip(data, pos + text_bytes(key).len() + 4, v, t, value);
        assert forall|i: int| 0 <= i < e2.len() implies writes_entry(e2[i], #[trigger] p2[i]) by {
            assert(writes_entry(entries[i + 1], parts[i + 1]));
        }
        lemma_metadata(data, pos + parts[0].len(), e2, p2, acc.insert(key, v));
        lemma_fold_first(
            entries,
            acc,
            |m: Map<Seq<char>, ValueView>, e: (Seq<char>, ValueView)| m.insert(e.0, e.1),
        );
    }
}

/// Dimensions are read back.
proof fn lemma_dims(data: Seq<u8>, pos: nat, dims: Seq<u64>, acc: Seq<u64>)
    requires
        stand(data, pos, dims.map_values(|d: u64| le(d as nat, 8)).flatten()),
    ensures
        dims_at(data, pos, dims.len(), acc) == Ok::<(Seq<u64>, nat), GgufError>(
            (acc + dims, pos + 8 * dims.len()),
        ),
        dims.map_values(|d: u64| le(d as nat, 8)).flatten().len() == 8 * dims.len(),
    decreases dims.len(),
{
    let parts = dims.map_values(|d: u64| le(d as nat, 8));
    if dims.len() == 0 {
        assert(acc + dims =~= acc);
    } else {
        let rest = dims.drop_first();
        assert(parts.drop_first() =~= rest.map_values(|d: u64| le(d as nat, 8)));
        lemma_stand_split(data, pos, parts[0], parts.drop_first().flatten());
        lemma_fits(dims[0] as nat);
        lemma_uint(data, pos, dims[0] as nat, 8);
        lemma_dims(data, pos + 8, rest, acc.push(dims[0]));
        assert(acc.push(dims[0]) + rest =~= acc + dims);
    }
}

/// A tensor description is read back.
pub proof fn law_tensors_round_trip(data: Seq<u8>, pos: nat, t: TensorView)
    requires
        data.len() <= usize::MAX,
        t.shape.len() <= u32::MAX,
        pos + tensor_bytes(t).len() <= data.len(),
        data.subrange(pos as int, (pos + tensor_bytes(t).len()) as int) == tensor_bytes(t),
    ensures
        tensor_at(data, pos) == Ok::<(TensorView, nat), GgufError>(
            (t, pos + tensor_bytes(t).len()),
        ),
{
    let name = text_bytes(t.name);
    let rank = le(t.shape.len(), 4);
    let dims = t.shape.map_values(|d: u64| le(d as nat, 8)).flatten();
    let number = le(type_number(t.dtype), 4);
    let offset = le(t.offset as nat, 8);
    lemma_stand_split(data, pos, name + rank + dims + number, offset);
    lemma_stand_split(data, pos, name + rank + dims, number);
    lemma_stand_split(data, pos, name + rank, dims);
    lemma_stand_split(data, pos, name, rank);
    lemma_text(data, pos, t.name);
    let p = pos + name.len();
    lemma_fits(t.shape.len());
    lemma_uint(data, p, t.shape.len(), 4);
    lemma_dims(data, p + 4, t.shape, Seq::empty());
    assert(Seq::<u64>::empty() + t.shape =~= t.shape);
    let q = p + 4 + dims.len();
    lemma_fits(type_number(t.dtype));
    lemma_uint(data, q, type_number(t.dtype), 4);
    lemma_fits(t.offset as nat);
    lemma_uint(data, q + 4, t.offset as nat, 8);
    assert(tensor_type(type_number(t.dtype) as u32) == Some(t.dtype));
}

/// Tensor descriptions are read back.
proof fn lemma_tensors(data: Seq<u8>, pos: nat, ts: Seq<TensorView>, acc: Seq<TensorView>)
    requires
        data.len() <= usize::MAX,
        forall|i: int| 0 <= i < ts.len() ==> (#[trigger] ts[i]).shape.len() <= u32::MAX,
        stand(data, pos, ts.map_values(|t: TensorView| tensor_bytes(t)).flatten()),
    ensures
        tensors_at(data, pos, ts.len(), acc) == Ok::<(Seq<TensorView>, nat), GgufError>(
            (
                acc + ts,
                pos + ts.map_values(|t: TensorView| tensor_bytes(t)).flatten().len(),
            ),
        ),
        ts.map_values(|t: TensorView| tensor_bytes(t)).flatten().len() >= ts.len(),
    decreases ts.len(),
{
    let parts = ts.map_values(|t: TensorView| tensor_bytes(t));
    if ts.len() == 0 {
        assert(acc + ts =~= acc);
    } else {
        let rest = ts.drop_first();
        assert(parts.drop_first() =~= rest.map_values(|t: TensorView| tensor_bytes(t)));
        lemma_stand_split(data, pos, parts[0], parts.drop_first().flatten());
        law_tensors_round_trip(data, pos, ts[0]);
        lemma_le(encode_utf8(ts[0].name).len(), 8);
        lemma_tensors(data, pos + parts[0].len(), rest, acc.push(ts[0]));
        assert(acc.push(ts[0]) + rest =~= acc + ts);
    }
}

/// The tables of a model file are read back.
#[verifier::rlimit(50)]
proof fn lemma_tables(
    entries: Seq<(Seq<char>, ValueView)>,
    parts: Seq<Seq<u8>>,
    tensors: Seq<TensorView>,
    rest: Seq<u8>,
)
    requires
        parts.len() == entries.len(),
        forall|i: int| 0 <= i < entries.len() ==> writes_entry(entries[i], #[trigger] parts[i]),
        forall|i: int| 0 <= i < tensors.len() ==> (#[trigger] tensors[i]).shape.len() <= u32::MAX,
        (file_bytes(parts, tensors) + rest).len() <= usize::MAX,
    ensures
        model_of(file_bytes(parts, tensors) + rest) == body_at(
            file_bytes(parts, tensors) + rest,
            3,
        ),
        tables_at(file_bytes(parts, tensors) + rest) == Ok::<
            ((Map<Seq<char>, ValueView>, Seq<TensorView>), nat),
            GgufError,
        >(
            (
                (
                    entries.fold_left(
                        Map::<Seq<char>, ValueView>::empty(),
                        |m: Map<Seq<char>, ValueView>, e: (Seq<char>, ValueView)|
                            m.insert(e.0, e.1),
                    ),
                    tensors,
                ),
                file_bytes(parts, tensors).len(),
            ),
        ),
{
    let data = file_bytes(parts, tensors) + rest;
    let magic = seq![0x47u8, 0x47u8, 0x55u8, 0x46u8];
    let version = le(3, 4);
    let n_tensors = le(tensors.len(), 8);
    let n_entries = le(parts.len(), 8);
    let tail = tensors.map_values(|t: TensorView| tensor_bytes(t)).flatten();
    lemma_le(3, 4);
    lemma_le(tensors.len(), 8);
    lemma_le(parts.len(), 8);
    assert(data.subrange(0, data.len() as int) =~= data);
    lemma_stand_split(data, 0, file_bytes(parts, tensors), rest);
    let head = magic + version + n_tensors + n_entries;
    lemma_stand_split(data, 0, head + parts.flatten(), tail);
    lemma_stand_split(data, 0, head, parts.flatten());
    lemma_stand_split(data, 0, magic + version + n_tensors, n_entries);
    lemma_stand_split(data, 0, magic + version, n_tensors);
    lemma_stand_split(data, 0, magic, version);
    lemma_fits(3);
    lemma_uint(data, 4, 3, 4);
    lemma_metadata(data, 24, entries, parts, Map::empty());
    lemma_tensors(data, 24 + parts.flatten().len(), tensors, Seq::empty());
    lemma_fits(tensors.len());
    lemma_fits(parts.len());
    lemma_uint(data, 8, tensors.len(), 8);
    lemma_uint(data, 16, parts.len(), 8);
    assert(Seq::<TensorView>::empty() + tensors =~= tensors);
}

/// A model file is read back: the metadata, where the last entry for a key counts,
/// and all tensor descriptions in their order. The tensor data begins behind them,
/// at the first multiple of the alignment, which the metadata may set and which is
/// 32 otherwise. What follows the descriptions does not matter.
pub proof fn law_models_round_trip(
    entries: Seq<(Seq<char>, ValueView)>,
    parts: Seq<Seq<u8>>,
    tensors: Seq<TensorView>,
    rest: Seq<u8>,
    alignment: nat,
)
    requires
        parts.len() == entries.len(),
        forall|i: int| 0 <= i < entries.len() ==> writes_entry(entries[i], #[trigger] parts[i]),
        forall|i: int| 0 <= i < tensors.len() ==> (#[trigger] tensors[i]).shape.len() <= u32::MAX,
        (file_bytes(parts, tensors) + rest).len() <= usize::MAX,
        ({
            let m = entries.fold_left(
                Map::<Seq<char>, ValueView>::empty(),
                |m: Map<Seq<char>, ValueView>, e: (Seq<char>, ValueView)| m.insert(e.0, e.1),
            );
            let key = "general.alignment"@;
            if m.contains_key(key) {
                m[key] matches ValueView::U32(a) && alignment == a
            } else {
                alignment == 32
            }
        }),
        alignment > 0,
    ensures
        model_of(file_bytes(parts, tensors) + rest) matches Ok(model) && {
            &&& model.version == 3
            &&& model.metadata == entries.fold_left(
                Map::<Seq<char>, ValueView>::empty(),
                |m: Map<Seq<char>, ValueView>, e: (Seq<char>, ValueView)| m.insert(e.0, e.1),
            )
            &&& model.tensors == tensors
            &&& model.tensor_data_start % alignment == 0
            &&& file_bytes(parts, tensors).len() <= model.tensor_data_start
            &&& model.tensor_data_start < file_bytes(parts, tensors).len() + alignment
        },
{
    lemma_tables(entries, parts, tensors, rest);
    law_align_up(file_bytes(parts, tensors).len(), alignment);
}

/// A model file whose metadata sets the alignment to zero is refused, however it
/// is written otherwise.
pub proof fn law_zero_alignment_is_refused(
    entries: Seq<(Seq<char>, ValueView)>,
    parts: Seq<Seq<u8>>,
    tensors: Seq<TensorView>,
    rest: Seq<u8>,
)
    requires
        parts.len() == entries.len(),
        forall|i: int| 0 <= i < entries.len() ==> writes_entry(entries[i], #[trigger] parts[i]),
        forall|i: int| 0 <= i < tensors.len() ==> (#[trigger] tensors[i]).shape.len() <= u32::MAX,
        (file_bytes(parts, tensors) + rest).len() <= usize::MAX,
        ({
            let m = entries.fold_left(
                Map::<Seq<char>, ValueView>::empty(),
                |m: Map<Seq<char>, ValueView>, e: (Seq<char>, ValueView)| m.insert(e.0, e.1),
            );
            let key = "general.alignment"@;
            m.contains_key(key) && m[key] == ValueView::U32(0)
        }),
    ensures
        model_of(file_bytes(parts, tensors) + rest) == Err::<ModelView, GgufError>(
            GgufError::ZeroAlignment,
        ),
{
    lemma_tables(entries, parts, tensors, rest);
}

/// A file that does not begin with the four letters and version 3 is refused, and
/// so is one that ends before them.
#[verifier::rlimit(50)]
pub proof fn law_other_files_are_refused(data: Seq<u8>)
    requires
        data.len() <= usize::MAX,
    ensures
        data.len() < 4 ==> model_of(data) == Err::<ModelView, GgufError>(
            GgufError::Truncated { need: 4, at: 0, len: data.len() as usize },
        ),
        data.len() >= 4 && data.take(4) != seq![0x47u8, 0x47u8, 0x55u8, 0x46u8] ==> model_of(data)
            == Err::<ModelView, GgufError>(
            GgufError::BadMagic(data[0], data[1], data[2], data[3]),
        ),
        4 <= data.len() < 8 && data.take(4) == seq![0x47u8, 0x47u8, 0x55u8, 0x46u8] ==> model_of(
            data,
        ) == Err::<ModelView, GgufError>(
            GgufError::Truncated { need: 4, at: 4, len: data.len() as usize },
        ),
        data.len() >= 8 && data.take(4) == seq![0x47u8, 0x47u8, 0x55u8, 0x46u8] && data.subrange(
            4,
            8,
        ) != seq![3u8, 0u8, 0u8, 0u8] ==> model_of(data) == Err::<ModelView, GgufError>(
            GgufError::UnsupportedVersion(
                (data[4] + 0x100 * data[5] + 0x1_0000 * data[6] + 0x100_0000 * data[7]) as u32,
            ),
        ),
{
    let magic = seq![0x47u8, 0x47u8, 0x55u8, 0x46u8];
    if data.len() >= 4 {
        let m = data.subrange(0, 4);
        assert(m =~= data.take(4));
        if m[0] == 0x47 && m[1] == 0x47 && m[2] == 0x55 && m[3] == 0x46 {
            assert(m =~= magic);
        }
    }
    if data.len() >= 8 {
        law_numbers_by_their_bytes(data, 4, data.skip(4));
        let v = data.subrange(4, 8);
        if v != seq![3u8, 0u8, 0u8, 0u8] {
            assert(!(v[0] == 3 && v[1] == 0 && v[2] == 0 && v[3] == 0)) by {
                if v[0] == 3 && v[1] == 0 && v[2] == 0 && v[3] == 0 {
                    assert(v =~= seq![3u8, 0u8, 0u8, 0u8]);
                }
            }
        }
    }
}

/// Numbers of one, two, four and eight bytes: byte `i` counts `256^i` times. A
/// number that the bytes end before is missing, with its size and its place. `d` is
/// what stands from `pos` on.
#[verifier::rlimit(50)]
pub proof fn law_numbers_by_their_bytes(data: Seq<u8>, pos: nat, d: Seq<u8>)
    requires
        data.len() <= usize::MAX,
        pos <= data.len(),
        d == data.skip(pos as int),
    ensures
        pos + 1 <= data.len() ==> uint8_at(data, pos) == Ok::<(u8, nat), GgufError>(
            (d[0], pos + 1),
        ),
        pos + 2 <= data.len() ==> uint16_at(data, pos) == Ok::<(u16, nat), GgufError>(
            ((d[0] + 0x100 * d[1]) as u16, pos + 2),
        ),
        pos + 4 <= data.len() ==> uint32_at(data, pos) == Ok::<(u32, nat), GgufError>(
            (
                (d[0] + 0x100 * d[1] + 0x1_0000 * d[2] + 0x100_0000 * d[3]) as u32,
                pos + 4,
            ),
        ),
        pos + 8 <= data.len() ==> uint64_at(data, pos) == Ok::<(u64, nat), GgufError>(
            (
                (d[0] + 0x100 * d[1] + 0x1_0000 * d[2] + 0x100_0000 * d[3] + 0x1_0000_0000 * d[4]
                    + 0x100_0000_0000 * d[5] + 0x1_0000_0000_0000 * d[6] + 0x100_0000_0000_0000
                    * d[7]) as u64,
                pos + 8,
            ),
        ),
        pos + 1 > data.len() ==> uint8_at(data, pos) == Err::<(u8, nat), GgufError>(
            GgufError::Truncated { need: 1, at: pos as usize, len: data.len() as usize },
        ),
        pos + 2 > data.len() ==> uint16_at(data, pos) == Err::<(u16, nat), GgufError>(
            GgufError::Truncated { need: 2, at: pos as usize, len: data.len() as usize },
        ),
        pos + 4 > data.len() ==> uint32_at(data, pos) == Err::<(u32, nat), GgufError>(
            GgufError::Truncated { need: 4, at: pos as usize, len: data.len() as usize },
        ),
        pos + 8 > data.len() ==> uint64_at(data, pos) == Err::<(u64, nat), GgufError>(
            GgufError::Truncated { need: 8, at: pos as usize, len: data.len() as usize },
        ),
{
    reveal_with_fuel(le_value, 9);
}

/// A value of a type number that is not known is refused, and so is one of a fixed
/// size that the bytes end before.
pub proof fn law_other_values_are_refused(data: Seq<u8>, pos: nat, t: u32, size: nat)
    requires
        data.len() <= usize::MAX,
        pos <= data.len(),
        size == (if t == 0 || t == 1 || t == 7 {
            1nat
        } else if t == 2 || t == 3 {
            2
        } else if t == 4 || t == 5 || t == 6 {
            4
        } else {
            8
        }),
    ensures
        t > 12 ==> value_at(data, pos, t) == Err::<(ValueView, nat), GgufError>(
            GgufError::UnknownValueType(t),
        ),
        t <= 12 && t != 8 && t != 9 && pos + size > data.len() ==> value_at(data, pos, t) == Err::<
            (ValueView, nat),
            GgufError,
        >(
            GgufError::Truncated {
                need: size as usize,
                at: pos as usize,
                len: data.len() as usize,
            },
        ),
{
}

/// A `u32` is read of unsigned numbers of 32 and 64 bits and of signed ones of 32,
/// where they fit; the bit pattern of a 32-bit float only of such a float.
pub proof fn law_numbers_of_values(v: ValueView)
    ensures
        v matches ValueView::U32(x) ==> value_as_u32(v) == Some(x),
        v matches ValueView::U64(x) ==> if x < 0x1_0000_0000 {
            value_as_u32(v) == Some(x as u32)
        } else {
            value_as_u32(v) is None
        },
        v matches ValueView::I32(x) ==> if x < 0 {
            value_as_u32(v) is None
        } else {
            value_as_u32(v) == Some(x as u32)
        },
        !(v is U32) && !(v is U64) && !(v is I32) ==> value_as_u32(v) is None,
        v matches ValueView::F32(x) ==> value_as_f32(v) == Some(x),
        !(v is F32) ==> value_as_f32(v) is None,
{
}

/// A name stands for the first tensor that has it, and for none where none has.
pub proof fn law_name_finds_first_tensor(tensors: Seq<TensorView>, name: Seq<char>)
    ensures
        match tensor_named(tensors, name) {
            Some(t) => exists|i: int|
                {
                    &&& 0 <= i < tensors.len()
                    &&& #[trigger] tensors[i] == t
                    &&& t.name == name
                    &&& forall|j: int| 0 <= j < i ==> (#[trigger] tensors[j]).name != name
                },
            None => forall|i: int| 0 <= i < tensors.len() ==> (#[trigger] tensors[i]).name != name,
        },
    decreases tensors.len(),
{
    if tensors.len() > 0 && tensors[0].name != name {
        let rest = tensors.drop_first();
        law_name_finds_first_tensor(rest, name);
        match tensor_named(rest, name) {
            Some(t) => {
                let i = choose|i: int|
                    {
                        &&& 0 <= i < rest.len()
                        &&& #[trigger] rest[i] == t
                        &&& t.name == name
                        &&& forall|j: int| 0 <= j < i ==> (#[trigger] rest[j]).name != name
                    };
                assert(tensors[i + 1] == t);
                assert forall|j: int| 0 <= j < i + 1 implies (#[trigger] tensors[j]).name
                    != name by {
                    if j > 0 {
                        assert(rest[j - 1].name != name);
                    }
                }
            },
            None => {
                assert forall|i: int| 0 <= i < tensors.len() implies (#[trigger] tensors[i]).name
                    != name by {
                    if i > 0 {
                        assert(rest[i - 1].name != name);
                    }
                }
            },
        }
    } else if tensors.len() > 0 {
        assert(tensors[0].name == name);
    }
}

/// A tensor has as many elements as the product of all its dimensions says. They
/// come in blocks, of a size that goes by the type.
pub proof fn law_tensor_sizes(t: TensorView, elements: nat)
    requires
        elements == t.shape.fold_left(1nat, |n: nat, d: u64| n * d as nat),
    ensures
        t.elements() == elements,
        t.bytes() == match t.dtype {
            TensorType::F32 => elements * 4,
            TensorType::F16 => elements * 2,
            TensorType::Q4_0 => elements / 32 * 18,
            TensorType::Q4_1 => elements / 32 * 20,
            TensorType::Q5_0 => elements / 32 * 22,
            TensorType::Q5_1 => elements / 32 * 24,
            TensorType::Q8_0 => elements / 32 * 34,
            TensorType::Q8_1 => elements / 32 * 36,
            TensorType::Q2K => elements / 256 * 84,
            TensorType::Q3K => elements / 256 * 110,
            TensorType::Q4K => elements / 256 * 144,
            TensorType::Q5K => elements / 256 * 176,
            TensorType::Q6K => elements / 256 * 210,
            TensorType::Q8K => elements / 256 * 292,
        },
{
    lemma_product_folds(t.shape, t.shape.len());
    assert(t.shape.take(t.shape.len() as int) =~= t.shape);
}

/// The product of the first dimensions, as a fold.
proof fn lemma_product_folds(dims: Seq<u64>, n: nat)
    requires
        n <= dims.len(),
    ensures
        product_of(dims, n) == dims.take(n as int).fold_left(
            1nat,
            |n: nat, d: u64| n * d as nat,
        ),
    decreases n,
{
    if n > 0 {
        lemma_product_folds(dims, (n - 1) as nat);
        assert(dims.take(n as int).drop_last() =~= dims.take(n - 1));
    }
}

/// A file holds a tensor where its last byte is within the file and the products of
/// its dimensions can be counted in 64 bits. Its bytes are those from its offset
/// into the tensor data.
pub proof fn law_tensor_data(model: ModelView, data: Seq<u8>, t: TensorView, i: int)
    ensures
        model.holds(data.len(), t) <==> {
            &&& forall|n: int|
                0 <= n <= t.shape.len() ==> (#[trigger] t.shape.take(n)).fold_left(
                    1nat,
                    |n: nat, d: u64| n * d as nat,
                ) <= u64::MAX
            &&& model.tensor_data_start + t.offset + t.bytes() <= data.len()
        },
        model.holds(data.len(), t) ==> model.tensor_bytes(data, t).len() == t.bytes(),
        model.holds(data.len(), t) && 0 <= i < t.bytes() ==> model.tensor_bytes(data, t)[i]
            == data[model.tensor_data_start + t.offset + i],
{
    assert forall|n: int| 0 <= n <= t.shape.len() implies (#[trigger] t.shape.take(n)).fold_left(
        1nat,
        |n: nat, d: u64| n * d as nat,
    ) == product_of(t.shape, n as nat) by {
        lemma_product_folds(t.shape, n as nat);
    }
    if t.countable() {
        assert forall|n: int| 0 <= n <= t.shape.len() implies (#[trigger] t.shape.take(
            n,
        )).fold_left(1nat, |n: nat, d: u64| n * d as nat) <= u64::MAX by {
            assert(product_of(t.shape, n as nat) <= u64::MAX);
        }
    }
    if forall|n: int|
        0 <= n <= t.shape.len() ==> (#[trigger] t.shape.take(n)).fold_left(
            1nat,
            |n: nat, d: u64| n * d as nat,
        ) <= u64::MAX {
        assert forall|n: nat| n <= t.shape.len() implies #[trigger] product_of(t.shape, n)
            <= u64::MAX by {
            let prefix = t.shape.take(n as int);
            assert(prefix.fold_left(1nat, |n: nat, d: u64| n * d as nat) <= u64::MAX);
        }
    }
}

/// A text whose bytes are no UTF-8 is refused, with the length of the longest prefix
/// that is.
pub proof fn law_other_texts_are_refused(data: Seq<u8>, pos: nat, b: Seq<u8>, valid: int)
    requires
        data.len() <= usize::MAX,
        pos + 8 + b.len() <= data.len(),
        data.subrange(pos as int, (pos + 8 + b.len()) as int) == le(b.len(), 8) + b,
        !valid_utf8(b),
        0 <= valid <= b.len(),
        valid_utf8(b.take(valid)),
        forall|m: int| valid < m <= b.len() ==> !valid_utf8(#[trigger] b.take(m)),
    ensures
        string_at(data, pos) == Err::<(Seq<char>, nat), GgufError>(
            GgufError::BadUtf8 { valid_up_to: valid as usize },
        ),
{
    lemma_le(b.len(), 8);
    assert(stand(data, pos, le(b.len(), 8) + b));
    lemma_stand_split(data, pos, le(b.len(), 8), b);
    lemma_fits(b.len());
    lemma_uint(data, pos, b.len(), 8);
    lemma_longest_utf8(b, valid);
}

/// A tensor description with a type number that is not known is refused.
pub proof fn law_other_tensors_are_refused(
    data: Seq<u8>,
    pos: nat,
    name: Seq<char>,
    shape: Seq<u64>,
    number: u32,
)
    requires
        data.len() <= usize::MAX,
        shape.len() <= u32::MAX,
        number == 4 || number == 5 || number > 15,
        ({
            let b = text_bytes(name) + le(shape.len(), 4) + shape.map_values(
                |d: u64| le(d as nat, 8),
            ).flatten() + le(number as nat, 4);
            pos + b.len() <= data.len() && data.subrange(pos as int, (pos + b.len()) as int) == b
        }),
    ensures
        tensor_at(data, pos) == Err::<(TensorView, nat), GgufError>(
            GgufError::UnknownDtype(number),
        ),
{
    let first = text_bytes(name);
    let rank = le(shape.len(), 4);
    let dims = shape.map_values(|d: u64| le(d as nat, 8)).flatten();
    lemma_stand_split(data, pos, first + rank + dims, le(number as nat, 4));
    lemma_stand_split(data, pos, first + rank, dims);
    lemma_stand_split(data, pos, first, rank);
    lemma_text(data, pos, name);
    let p = pos + first.len();
    lemma_fits(shape.len());
    lemma_uint(data, p, shape.len(), 4);
    lemma_dims(data, p + 4, shape, Seq::empty());
    lemma_fits(number as nat);
    lemma_uint(data, p + 4 + dims.len(), number as nat, 4);
}

/// A value in memory says what it holds, and an array what its elements say, one by
/// one.
pub proof fn law_values_say_what_they_hold(v: Value)
    ensures
        match v {
            Value::U8(x) => v@ == ValueView::U8(x),
            Value::I8(x) => v@ == ValueView::I8(x),
            Value::U16(x) => v@ == ValueView::U16(x),
            Value::I16(x) => v@ == ValueView::I16(x),
            Value::U32(x) => v@ == ValueView::U32(x),
            Value::I32(x) => v@ == ValueView::I32(x),
            Value::U64(x) => v@ == ValueView::U64(x),
            Value::I64(x) => v@ == ValueView::I64(x),
            Value::F32(x) => v@ == ValueView::F32(x),
            Value::F64(x) => v@ == ValueView::F64(x),
            Value::Bool(x) => v@ == ValueView::Bool(x),
            Value::String(s) => v@ == ValueView::Text(s@),
            Value::Array(a) => v@ matches ValueView::Array(vs) && vs.len() == a@.len() && forall|
                i: int,
            |
                0 <= i < a@.len() ==> #[trigger] vs[i] == a@[i]@,
        },
{
    if let Value::Array(a) = v {
        lemma_views(a@);
    }
}

/// A model in memory says what it holds.
pub proof fn law_models_say_what_they_hold(m: Model<'_>, i: int)
    ensures
        m@.version == m.version,
        m@.metadata == m.metadata@,
        m@.tensor_data_start == m.tensor_data_start,
        m@.tensors.len() == m.tensors@.len(),
        0 <= i < m.tensors@.len() ==> m@.tensors[i] == (TensorView {
            name: m.tensors@[i].name@,
            shape: m.tensors@[i].shape@,
            dtype: m.tensors@[i].dtype,
            offset: m.tensors@[i].offset,
        }),
{
}

/// The tensor types that can be dequantized take four bytes, two bytes, or 34 bytes
/// per 32 elements, and any number of such pieces is accepted.
pub proof fn law_accepted_lengths(n: nat)
    ensures
        lengths_fit(TensorType::F32, 4 * n, n),
        lengths_fit(TensorType::F16, 2 * n, n),
        lengths_fit(TensorType::Q8_0, 34 * n, 32 * n),
{
}

} // verus!
