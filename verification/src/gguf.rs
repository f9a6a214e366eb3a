//! GGUF v3 reader.
//!
//! Format (little-endian throughout):
//!
//! ```text
//! header       : magic="GGUF" | version: u32 | n_tensors: u64 | n_metadata: u64
//! metadata     : n_metadata x { key: string, value_type: u32, value: typed }
//! tensor_info  : n_tensors  x { name: string, n_dims: u32, dims: [u64; n_dims],
//!                               type: u32, offset: u64 }
//! <pad>        : align to general.alignment (default 32) measured from file start
//! tensor_data  : raw bytes; tensor i lives at tensor_data_start + tensor[i].offset
//! ```
//!
//! Strings are `{ u64 length, UTF-8 bytes }`, with no terminator.
//!
//! The `*_at` specification functions below are the grammar: each reads one
//! production of the format at a position and gives its value and the position
//! behind it, or the error.

use vstd::prelude::*;
use vstd::utf8::*;

use crate::metadata::Metadata;

verus! {

/// Alignment of the tensor data where the metadata names none.
pub const DEFAULT_ALIGNMENT: u64 = 32;

/// Why bytes are not a model.
#[derive(Debug, Clone, Copy, PartialEq, Eq, Structural)]
pub enum GgufError {
    /// `need` bytes were wanted at offset `at`, of `len` in all.
    Truncated { need: usize, at: usize, len: usize },
    /// The first four bytes are not `GGUF`.
    BadMagic(u8, u8, u8, u8),
    /// This reader only handles version 3.
    UnsupportedVersion(u32),
    /// A tensor has a type that is not known.
    UnknownDtype(u32),
    /// A metadata value has a type that is not known.
    UnknownValueType(u32),
    /// A string is not UTF-8 behind its first `valid_up_to` bytes.
    BadUtf8 { valid_up_to: usize },
    /// `general.alignment` is zero, so that the tensor data has no place.
    ZeroAlignment,
}

/// A metadata value. Floating-point values are kept as their bit patterns.
#[derive(Debug)]
pub enum Value {
    U8(u8),
    I8(i8),
    U16(u16),
    I16(i16),
    U32(u32),
    I32(i32),
    U64(u64),
    I64(i64),
    F32(u32),
    F64(u64),
    Bool(bool),
    String(String),
    Array(Vec<Value>),
}

/// What a metadata value says.
pub enum ValueView {
    U8(u8),
    I8(i8),
    U16(u16),
    I16(i16),
    U32(u32),
    I32(i32),
    U64(u64),
    I64(i64),
    F32(u32),
    F64(u64),
    Bool(bool),
    Text(Seq<char>),
    Array(Seq<ValueView>),
}

impl Value {
    /// What the value says.
    pub open spec fn view(&self) -> ValueView
        decreases *self,
    {
        match *self {
            Value::U8(v) => ValueView::U8(v),
            Value::I8(v) => ValueView::I8(v),
            Value::U16(v) => ValueView::U16(v),
            Value::I16(v) => ValueView::I16(v),
            Value::U32(v) => ValueView::U32(v),
            Value::I32(v) => ValueView::I32(v),
            Value::U64(v) => ValueView::U64(v),
            Value::I64(v) => ValueView::I64(v),
            Value::F32(v) => ValueView::F32(v),
            Value::F64(v) => ValueView::F64(v),
            Value::Bool(v) => ValueView::Bool(v),
            Value::String(s) => ValueView::Text(s@),
            Value::Array(a) => ValueView::Array(Value::views(a@)),
        }
    }

    /// What each value of a sequence says.
    pub open spec fn views(s: Seq<Value>) -> Seq<ValueView>
        decreases s,
    {
        if s.len() == 0 {
            Seq::empty()
        } else {
            Value::views(s.drop_last()).push(s.last().view())
        }
    }
}

/// A sequence of values says what each of its values says.
pub proof fn lemma_views(s: Seq<Value>)
    ensures
        Value::views(s).len() == s.len(),
        forall|i: int| 0 <= i < s.len() ==> #[trigger] Value::views(s)[i] == s[i]@,
    decreases s.len(),
{
    if s.len() > 0 {
        lemma_views(s.drop_last());
        assert forall|i: int| 0 <= i < s.len() implies #[trigger] Value::views(s)[i] == s[i]@ by {
            if i < s.len() - 1 {
                assert(Value::views(s.drop_last())[i] == s.drop_last()[i]@);
            }
        }
    }
}

impl Clone for Value {
    fn clone(&self) -> (r: Self)
        ensures
            r@ == self@,
        decreases *self,
    {
        match self {
            Value::U8(v) => Value::U8(*v),
            Value::I8(v) => Value::I8(*v),
            Value::U16(v) => Value::U16(*v),
            Value::I16(v) => Value::I16(*v),
            Value::U32(v) => Value::U32(*v),
            Value::I32(v) => Value::I32(*v),
            Value::U64(v) => Value::U64(*v),
            Value::I64(v) => Value::I64(*v),
            Value::F32(v) => Value::F32(*v),
            Value::F64(v) => Value::F64(*v),
            Value::Bool(v) => Value::Bool(*v),
            Value::String(s) => Value::String(s.clone()),
            Value::Array(a) => {
                let mut copies: Vec<Value> = Vec::new();
                for i in 0..a.len()
                    invariant
                        decreases_to!(*self => *a),
                        copies@.len() == i,
                        forall|k: int| 0 <= k < i ==> #[trigger] copies@[k]@ == a@[k]@,
                {
                    copies.push(a[i].clone());
                }
                proof {
                    lemma_views(copies@);
                    lemma_views(a@);
                    assert(Value::views(copies@) =~= Value::views(a@));
                }
                Value::Array(copies)
            },
        }
    }
}

impl Value {
    /// The value as a `u32`, where it is an unsigned 32- or 64-bit integer or a
    /// signed 32-bit one and fits.
    pub fn as_u32(&self) -> (r: Option<u32>)
        ensures
            r == value_as_u32(self@),
    {
        match self {
            Value::U32(v) => Some(*v),
            Value::U64(v) => if *v <= u32::MAX as u64 {
                Some(*v as u32)
            } else {
                None
            },
            Value::I32(v) => if *v >= 0 {
                Some(*v as u32)
            } else {
                None
            },
            _ => None,
        }
    }

    /// The text, where the value is a string.
    pub fn as_str(&self) -> (r: Option<&str>)
        ensures
            r is Some <==> self@ is Text,
            r matches Some(s) ==> self@ == ValueView::Text(s@),
    {
        if let Value::String(s) = self {
            Some(s.as_str())
        } else {
            None
        }
    }

    /// The bit pattern, where the value is a 32-bit float.
    pub fn as_f32(&self) -> (r: Option<u32>)
        ensures
            r == value_as_f32(self@),
    {
        if let Value::F32(v) = self {
            Some(*v)
        } else {
            None
        }
    }
}

/// The `u32` that a value can be read as.
pub open spec fn value_as_u32(v: ValueView) -> Option<u32> {
    match v {
        ValueView::U32(x) => Some(x),
        ValueView::U64(x) => if x <= u32::MAX {
            Some(x as u32)
        } else {
            None
        },
        ValueView::I32(x) => if x >= 0 {
            Some(x as u32)
        } else {
            None
        },
        _ => None,
    }
}

/// The 32-bit float, as a bit pattern, that a value can be read as.
pub open spec fn value_as_f32(v: ValueView) -> Option<u32> {
    match v {
        ValueView::F32(x) => Some(x),
        _ => None,
    }
}

/// Element type of a tensor.
#[allow(non_camel_case_types)]
#[derive(Debug, Clone, Copy, PartialEq, Eq, PartialOrd, Ord, Hash, Structural)]
pub enum TensorType {
    F32,
    F16,
    Q4_0,
    Q4_1,
    Q5_0,
    Q5_1,
    Q8_0,
    Q8_1,
    Q2K,
    Q3K,
    Q4K,
    Q5K,
    Q6K,
    Q8K,
}

/// The tensor type with a given number in the file format.
pub open spec fn tensor_type(v: u32) -> Option<TensorType> {
    if v == 0 {
        Some(TensorType::F32)
    } else if v == 1 {
        Some(TensorType::F16)
    } else if v == 2 {
        Some(TensorType::Q4_0)
    } else if v == 3 {
        Some(TensorType::Q4_1)
    } else if v == 6 {
        Some(TensorType::Q5_0)
    } else if v == 7 {
        Some(TensorType::Q5_1)
    } else if v == 8 {
        Some(TensorType::Q8_0)
    } else if v == 9 {
        Some(TensorType::Q8_1)
    } else if v == 10 {
        Some(TensorType::Q2K)
    } else if v == 11 {
        Some(TensorType::Q3K)
    } else if v == 12 {
        Some(TensorType::Q4K)
    } else if v == 13 {
        Some(TensorType::Q5K)
    } else if v == 14 {
        Some(TensorType::Q6K)
    } else if v == 15 {
        Some(TensorType::Q8K)
    } else {
        None
    }
}

/// The numbers of the tensor types are those up to 15, but for 4 and 5. No two of
/// them have the same type, and every type has one.
pub proof fn law_tensor_type_numbers(v: u32, w: u32, t: TensorType)
    ensures
        tensor_type(v) is Some <==> v <= 3 || 6 <= v <= 15,
        tensor_type(v) is Some && tensor_type(v) == tensor_type(w) ==> v == w,
        exists|n: u32| #[trigger] tensor_type(n) == Some(t),
{
    let n: u32 = match t {
        TensorType::F32 => 0,
        TensorType::F16 => 1,
        TensorType::Q4_0 => 2,
        TensorType::Q4_1 => 3,
        TensorType::Q5_0 => 6,
        TensorType::Q5_1 => 7,
        TensorType::Q8_0 => 8,
        TensorType::Q8_1 => 9,
        TensorType::Q2K => 10,
        TensorType::Q3K => 11,
        TensorType::Q4K => 12,
        TensorType::Q5K => 13,
        TensorType::Q6K => 14,
        TensorType::Q8K => 15,
    };
    assert(tensor_type(n) == Some(t));
}

impl TensorType {
    /// The tensor type with number `v` in the file format.
    pub fn from_u32(v: u32) -> (r: Result<Self, GgufError>)
        ensures
            r == match tensor_type(v) {
                Some(t) => Ok(t),
                None => Err(GgufError::UnknownDtype(v)),
            },
    {
        match v {
            0 => Ok(TensorType::F32),
            1 => Ok(TensorType::F16),
            2 => Ok(TensorType::Q4_0),
            3 => Ok(TensorType::Q4_1),
            6 => Ok(TensorType::Q5_0),
            7 => Ok(TensorType::Q5_1),
            8 => Ok(TensorType::Q8_0),
            9 => Ok(TensorType::Q8_1),
            10 => Ok(TensorType::Q2K),
            11 => Ok(TensorType::Q3K),
            12 => Ok(TensorType::Q4K),
            13 => Ok(TensorType::Q5K),
            14 => Ok(TensorType::Q6K),
            15 => Ok(TensorType::Q8K),
            _ => Err(GgufError::UnknownDtype(v)),
        }
    }

    /// How many elements one block holds.
    pub open spec fn elements(self) -> nat {
        match self {
            TensorType::F32 | TensorType::F16 => 1,
            TensorType::Q4_0
            | TensorType::Q4_1
            | TensorType::Q5_0
            | TensorType::Q5_1
            | TensorType::Q8_0
            | TensorType::Q8_1 => 32,
            _ => 256,
        }
    }

    /// How many bytes one block takes.
    pub open spec fn bytes(self) -> nat {
        match self {
            TensorType::F32 => 4,
            TensorType::F16 => 2,
            TensorType::Q4_0 => 18,
            TensorType::Q4_1 => 20,
            TensorType::Q5_0 => 22,
            TensorType::Q5_1 => 24,
            TensorType::Q8_0 => 34,
            TensorType::Q8_1 => 36,
            TensorType::Q2K => 84,
            TensorType::Q3K => 110,
            TensorType::Q4K => 144,
            TensorType::Q5K => 176,
            TensorType::Q6K => 210,
            TensorType::Q8K => 292,
        }
    }

    /// How many elements one block holds.
    pub fn block_elements(self) -> (n: usize)
        ensures
            n == self.elements(),
    {
        match self {
            TensorType::F32 | TensorType::F16 => 1,
            TensorType::Q4_0
            | TensorType::Q4_1
            | TensorType::Q5_0
            | TensorType::Q5_1
            | TensorType::Q8_0
            | TensorType::Q8_1 => 32,
            TensorType::Q2K
            | TensorType::Q3K
            | TensorType::Q4K
            | TensorType::Q5K
            | TensorType::Q6K
            | TensorType::Q8K => 256,
        }
    }

    /// How many bytes one block takes.
    pub fn block_bytes(self) -> (n: usize)
        ensures
            n == self.bytes(),
    {
        match self {
            TensorType::F32 => 4,
            TensorType::F16 => 2,
            TensorType::Q4_0 => 18,
            TensorType::Q4_1 => 20,
            TensorType::Q5_0 => 22,
            TensorType::Q5_1 => 24,
            TensorType::Q8_0 => 34,
            TensorType::Q8_1 => 36,
            TensorType::Q2K => 84,
            TensorType::Q3K => 110,
            TensorType::Q4K => 144,
            TensorType::Q5K => 176,
            TensorType::Q6K => 210,
            TensorType::Q8K => 292,
        }
    }
}

/// Where a tensor is and how it is to be read.
#[derive(Debug, Clone)]
pub struct TensorInfo {
    pub name: String,
    pub shape: Vec<u64>,
    pub dtype: TensorType,
    /// Byte offset from the start of the tensor data block, not of the file.
    pub offset: u64,
}

/// What a tensor description says.
#[verifier::ext_equal]
pub struct TensorView {
    pub name: Seq<char>,
    pub shape: Seq<u64>,
    pub dtype: TensorType,
    pub offset: u64,
}

/// The product of the first `n` dimensions.
pub open spec fn product_of(dims: Seq<u64>, n: nat) -> nat
    decreases n,
{
    if n == 0 {
        1
    } else {
        product_of(dims, (n - 1) as nat) * dims[n - 1] as nat
    }
}

impl TensorView {
    /// How many elements the tensor has.
    pub open spec fn elements(self) -> nat {
        product_of(self.shape, self.shape.len())
    }

    /// The running product of the dimensions stays within 64 bits.
    pub open spec fn countable(self) -> bool {
        forall|n: nat| n <= self.shape.len() ==> #[trigger] product_of(self.shape, n) <= u64::MAX
    }

    /// How many bytes the tensor takes: whole blocks only.
    pub open spec fn bytes(self) -> nat {
        (self.elements() / self.dtype.elements()) * self.dtype.bytes()
    }
}

impl TensorInfo {
    /// What the description says.
    pub open spec fn view(&self) -> TensorView {
        TensorView { name: self.name@, shape: self.shape@, dtype: self.dtype, offset: self.offset }
    }

    /// How many elements the tensor has.
    pub fn n_elements(&self) -> (n: u64)
        requires
            self@.countable(),
        ensures
            n == self@.elements(),
    {
        let mut n: u64 = 1;
        for i in 0..self.shape.len()
            invariant
                self@.countable(),
                n == product_of(self.shape@, i as nat),
        {
            assert(product_of(self@.shape, (i + 1) as nat) <= u64::MAX);
            n = n * self.shape[i];
        }
        n
    }

    /// How many bytes the tensor takes.
    pub fn byte_size(&self) -> (n: u64)
        requires
            self@.countable(),
            self@.bytes() <= u64::MAX,
        ensures
            n == self@.bytes(),
    {
        let n_blocks = self.n_elements() / self.dtype.block_elements() as u64;
        n_blocks * self.dtype.block_bytes() as u64
    }
}

/// The value of a little-endian byte sequence.
pub open spec fn le_value(b: Seq<u8>) -> nat
    decreases b.len(),
{
    if b.len() == 0 {
        0
    } else {
        b[0] as nat + 256 * le_value(b.drop_first())
    }
}

/// The next `n` bytes.
pub open spec fn bytes_at(data: Seq<u8>, pos: nat, n: nat) -> Result<(Seq<u8>, nat), GgufError> {
    if pos + n <= data.len() {
        Ok((data.subrange(pos as int, (pos + n) as int), pos + n))
    } else {
        Err(
            GgufError::Truncated {
                need: n as usize,
                at: pos as usize,
                len: data.len() as usize,
            },
        )
    }
}

/// An unsigned integer of `n` bytes.
pub open spec fn uint_at(data: Seq<u8>, pos: nat, n: nat) -> Result<(nat, nat), GgufError> {
    match bytes_at(data, pos, n) {
        Ok((b, next)) => Ok((le_value(b), next)),
        Err(e) => Err(e),
    }
}

/// An unsigned integer of one byte.
pub open spec fn uint8_at(data: Seq<u8>, pos: nat) -> Result<(u8, nat), GgufError> {
    match uint_at(data, pos, 1) {
        Ok((v, next)) => Ok((v as u8, next)),
        Err(e) => Err(e),
    }
}

/// An unsigned integer of two bytes.
pub open spec fn uint16_at(data: Seq<u8>, pos: nat) -> Result<(u16, nat), GgufError> {
    match uint_at(data, pos, 2) {
        Ok((v, next)) => Ok((v as u16, next)),
        Err(e) => Err(e),
    }
}

/// An unsigned integer of four bytes.
pub open spec fn uint32_at(data: Seq<u8>, pos: nat) -> Result<(u32, nat), GgufError> {
    match uint_at(data, pos, 4) {
        Ok((v, next)) => Ok((v as u32, next)),
        Err(e) => Err(e),
    }
}

/// An unsigned integer of eight bytes.
pub open spec fn uint64_at(data: Seq<u8>, pos: nat) -> Result<(u64, nat), GgufError> {
    match uint_at(data, pos, 8) {
        Ok((v, next)) => Ok((v as u64, next)),
        Err(e) => Err(e),
    }
}

/// A string: its length in bytes, then its UTF-8 bytes.
pub open spec fn string_at(data: Seq<u8>, pos: nat) -> Result<(Seq<char>, nat), GgufError> {
    match uint64_at(data, pos) {
        Ok((len, p)) => match bytes_at(data, p, (len as usize) as nat) {
            Ok((b, next)) => if valid_utf8(b) {
                Ok((decode_utf8(b), next))
            } else {
                Err(GgufError::BadUtf8 { valid_up_to: crate::text::longest_utf8(b) as usize })
            },
            Err(e) => Err(e),
        },
        Err(e) => Err(e),
    }
}

/// How far a string that cannot be read is read: the length and the bytes each
/// as a whole, or not at all.
pub open spec fn string_stop(data: Seq<u8>, pos: nat) -> nat {
    match uint64_at(data, pos) {
        Ok((len, p)) => match bytes_at(data, p, (len as usize) as nat) {
            Ok((_, next)) => next,
            Err(_) => p,
        },
        Err(_) => pos,
    }
}

/// A fixed-size value of type `t`, made of an unsigned integer.
pub open spec fn scalar_of(t: u32, v: nat) -> ValueView {
    if t == 0 {
        ValueView::U8(v as u8)
    } else if t == 1 {
        ValueView::I8((v as u8) as i8)
    } else if t == 2 {
        ValueView::U16(v as u16)
    } else if t == 3 {
        ValueView::I16((v as u16) as i16)
    } else if t == 4 {
        ValueView::U32(v as u32)
    } else if t == 5 {
        ValueView::I32((v as u32) as i32)
    } else if t == 6 {
        ValueView::F32(v as u32)
    } else if t == 7 {
        ValueView::Bool(v as u8 != 0)
    } else if t == 10 {
        ValueView::U64(v as u64)
    } else if t == 11 {
        ValueView::I64((v as u64) as i64)
    } else {
        ValueView::F64(v as u64)
    }
}

/// How many bytes a fixed-size value of type `t` takes, if `t` is such a type.
pub open spec fn scalar_size(t: u32) -> Option<nat> {
    if t == 0 || t == 1 || t == 7 {
        Some(1)
    } else if t == 2 || t == 3 {
        Some(2)
    } else if t == 4 || t == 5 || t == 6 {
        Some(4)
    } else if t == 10 || t == 11 || t == 12 {
        Some(8)
    } else {
        None
    }
}

/// A value of type `t`.
pub open spec fn value_at(data: Seq<u8>, pos: nat, t: u32) -> Result<(ValueView, nat), GgufError>
    decreases data.len() - pos, 0nat,
{
    if scalar_size(t) is Some {
        match uint_at(data, pos, scalar_size(t).unwrap()) {
            Ok((v, next)) => Ok((scalar_of(t, v), next)),
            Err(e) => Err(e),
        }
    } else if t == 8 {
        match string_at(data, pos) {
            Ok((s, next)) => Ok((ValueView::Text(s), next)),
            Err(e) => Err(e),
        }
    } else if t == 9 {
        match uint32_at(data, pos) {
            Ok((elem, p)) => match uint64_at(data, p) {
                Ok((n, q)) => match elements_at(
                    data,
                    q,
                    elem,
                    (n as usize) as nat,
                    Seq::empty(),
                ) {
                    Ok((vs, next)) => Ok((ValueView::Array(vs), next)),
                    Err(e) => Err(e),
                },
                Err(e) => Err(e),
            },
            Err(e) => Err(e),
        }
    } else {
        Err(GgufError::UnknownValueType(t))
    }
}

/// `n` more values of type `t`, behind those in `acc`.
pub open spec fn elements_at(
    data: Seq<u8>,
    pos: nat,
    t: u32,
    n: nat,
    acc: Seq<ValueView>,
) -> Result<(Seq<ValueView>, nat), GgufError>
    decreases data.len() - pos, 1nat,
{
    if n == 0 {
        Ok((acc, pos))
    } else {
        match value_at(data, pos, t) {
            // A value takes at least one byte.
            Ok((v, next)) => if pos < next <= data.len() {
                elements_at(data, next, t, (n - 1) as nat, acc.push(v))
            } else {
                arbitrary()
            },
            Err(e) => Err(e),
        }
    }
}

/// How far a value of type `t` that cannot be read is read. Of a type that is not
/// known, nothing is.
pub open spec fn value_stop(data: Seq<u8>, pos: nat, t: u32) -> nat
    decreases data.len() - pos, 0nat,
{
    if t == 8 {
        string_stop(data, pos)
    } else if t == 9 {
        match uint32_at(data, pos) {
            Ok((elem, p)) => match uint64_at(data, p) {
                Ok((n, q)) => elements_stop(data, q, elem, (n as usize) as nat),
                Err(_) => p,
            },
            Err(_) => pos,
        }
    } else {
        pos
    }
}

/// How far `n` values of type `t` are read where one of them cannot be.
pub open spec fn elements_stop(data: Seq<u8>, pos: nat, t: u32, n: nat) -> nat
    decreases data.len() - pos, 1nat,
{
    if n == 0 {
        pos
    } else {
        match value_at(data, pos, t) {
            Ok((_, next)) => if pos < next <= data.len() {
                elements_stop(data, next, t, (n - 1) as nat)
            } else {
                arbitrary()
            },
            Err(_) => value_stop(data, pos, t),
        }
    }
}

/// `n` more metadata entries, on top of those in `acc`. A later entry for a key
/// replaces an earlier one.
pub open spec fn metadata_at(
    data: Seq<u8>,
    pos: nat,
    n: nat,
    acc: Map<Seq<char>, ValueView>,
) -> Result<(Map<Seq<char>, ValueView>, nat), GgufError>
    decreases n,
{
    if n == 0 {
        Ok((acc, pos))
    } else {
        match string_at(data, pos) {
            Ok((key, p)) => match uint32_at(data, p) {
                Ok((t, q)) => match value_at(data, q, t) {
                    Ok((v, next)) => metadata_at(data, next, (n - 1) as nat, acc.insert(key, v)),
                    Err(e) => Err(e),
                },
                Err(e) => Err(e),
            },
            Err(e) => Err(e),
        }
    }
}

/// `n` more dimensions, behind those in `acc`.
pub open spec fn dims_at(data: Seq<u8>, pos: nat, n: nat, acc: Seq<u64>) -> Result<
    (Seq<u64>, nat),
    GgufError,
>
    decreases n,
{
    if n == 0 {
        Ok((acc, pos))
    } else {
        match uint64_at(data, pos) {
            Ok((d, next)) => dims_at(data, next, (n - 1) as nat, acc.push(d)),
            Err(e) => Err(e),
        }
    }
}

/// One tensor description.
pub open spec fn tensor_at(data: Seq<u8>, pos: nat) -> Result<(TensorView, nat), GgufError> {
    match string_at(data, pos) {
        Ok((name, p)) => match uint32_at(data, p) {
            Ok((n_dims, q)) => match dims_at(data, q, (n_dims as usize) as nat, Seq::empty()) {
                Ok((shape, r)) => match uint32_at(data, r) {
                    Ok((t, s)) => match tensor_type(t) {
                        Some(dtype) => match uint64_at(data, s) {
                            Ok((offset, next)) => Ok(
                                (TensorView { name, shape, dtype, offset }, next),
                            ),
                            Err(e) => Err(e),
                        },
                        None => Err(GgufError::UnknownDtype(t)),
                    },
                    Err(e) => Err(e),
                },
                Err(e) => Err(e),
            },
            Err(e) => Err(e),
        },
        Err(e) => Err(e),
    }
}

/// `n` more tensor descriptions, behind those in `acc`.
pub open spec fn tensors_at(data: Seq<u8>, pos: nat, n: nat, acc: Seq<TensorView>) -> Result<
    (Seq<TensorView>, nat),
    GgufError,
>
    decreases n,
{
    if n == 0 {
        Ok((acc, pos))
    } else {
        match tensor_at(data, pos) {
            Ok((t, next)) => tensors_at(data, next, (n - 1) as nat, acc.push(t)),
            Err(e) => Err(e),
        }
    }
}

/// What a model file says.
#[verifier::ext_equal]
pub struct ModelView {
    pub version: u32,
    pub metadata: Map<Seq<char>, ValueView>,
    pub tensors: Seq<TensorView>,
    pub tensor_data_start: nat,
}

/// The alignment of the tensor data.
pub open spec fn alignment_of(metadata: Map<Seq<char>, ValueView>) -> nat {
    let key = "general.alignment"@;
    if metadata.contains_key(key) && value_as_u32(metadata[key]) is Some {
        value_as_u32(metadata[key]).unwrap() as nat
    } else {
        DEFAULT_ALIGNMENT as nat
    }
}

/// `pos` rounded up to a multiple of `alignment`.
pub open spec fn align_up(pos: nat, alignment: nat) -> nat {
    ((pos + alignment - 1) as nat / alignment) * alignment
}

/// The metadata and the tensor descriptions of a model file, and the position
/// behind them.
pub open spec fn tables_at(data: Seq<u8>) -> Result<
    ((Map<Seq<char>, ValueView>, Seq<TensorView>), nat),
    GgufError,
> {
    match uint64_at(data, 8) {
        Ok((n_tensors, p)) => match uint64_at(data, p) {
            Ok((n_metadata, q)) => match metadata_at(
                data,
                q,
                (n_metadata as usize) as nat,
                Map::empty(),
            ) {
                Ok((metadata, r)) => match tensors_at(
                    data,
                    r,
                    (n_tensors as usize) as nat,
                    Seq::empty(),
                ) {
                    Ok((tensors, end)) => Ok(((metadata, tensors), end)),
                    Err(e) => Err(e),
                },
                Err(e) => Err(e),
            },
            Err(e) => Err(e),
        },
        Err(e) => Err(e),
    }
}

/// The whole of a model file up to its tensor data, once magic and version are
/// known to be right.
pub open spec fn body_at(data: Seq<u8>, version: u32) -> Result<ModelView, GgufError> {
    match tables_at(data) {
        Ok(((metadata, tensors), end)) => if alignment_of(metadata) == 0 {
            Err(GgufError::ZeroAlignment)
        } else {
            Ok(
                ModelView {
                    version,
                    metadata,
                    tensors,
                    tensor_data_start: align_up(end, alignment_of(metadata)),
                },
            )
        },
        Err(e) => Err(e),
    }
}

/// A model file.
pub open spec fn model_of(data: Seq<u8>) -> Result<ModelView, GgufError> {
    match bytes_at(data, 0, 4) {
        Ok((m, _)) => if m[0] != 0x47 || m[1] != 0x47 || m[2] != 0x55 || m[3] != 0x46 {
            Err(GgufError::BadMagic(m[0], m[1], m[2], m[3]))
        } else {
            match uint32_at(data, 4) {
                Ok((version, _)) => if version != 3 {
                    Err(GgufError::UnsupportedVersion(version))
                } else {
                    body_at(data, 3)
                },
                Err(e) => Err(e),
            }
        },
        Err(e) => Err(e),
    }
}

/// `e` agrees with `d` on the first `n` bytes, as far as it goes.
pub open spec fn agrees_up_to(d: Seq<u8>, e: Seq<u8>, n: nat) -> bool {
    forall|i: int| 0 <= i < n && i < e.len() ==> #[trigger] e[i] == d[i]
}

/// What was read of `d` up to `next`, as `at_d`, is read of `e` as `at_e`: the same
/// where `e` reaches up to there, and an error where it does not.
spec fn cut_alike<T>(
    e: Seq<u8>,
    at_d: Result<(T, nat), GgufError>,
    at_e: Result<(T, nat), GgufError>,
) -> bool {
    at_d matches Ok((_, next)) ==> if next <= e.len() {
        at_e == at_d
    } else {
        at_e is Err
    }
}

/// The position behind what was read.
spec fn end_of<T>(r: Result<(T, nat), GgufError>) -> nat {
    match r {
        Ok((_, next)) => next,
        Err(_) => 0,
    }
}

/// Bytes are read up to their end.
proof fn lemma_bytes_cut(d: Seq<u8>, e: Seq<u8>, pos: nat, n: nat)
    requires
        agrees_up_to(d, e, end_of(bytes_at(d, pos, n))),
    ensures
        cut_alike(e, bytes_at(d, pos, n), bytes_at(e, pos, n)),
{
    if pos + n <= d.len() && pos + n <= e.len() {
        assert(d.subrange(pos as int, (pos + n) as int) =~= e.subrange(
            pos as int,
            (pos + n) as int,
        ));
    }
}

/// A string is read up to its end.
proof fn lemma_string_cut(d: Seq<u8>, e: Seq<u8>, pos: nat)
    requires
        agrees_up_to(d, e, end_of(string_at(d, pos))),
    ensures
        cut_alike(e, string_at(d, pos), string_at(e, pos)),
        string_at(d, pos) matches Ok((_, next)) ==> pos < next <= d.len(),
{
    if string_at(d, pos) is Ok {
        lemma_bytes_cut(d, e, pos, 8);
        let (len, p) = uint64_at(d, pos)->Ok_0;
        if p <= e.len() {
            lemma_bytes_cut(d, e, p, (len as usize) as nat);
        }
    }
}

/// A value is read up to its end.
proof fn lemma_value_cut(d: Seq<u8>, e: Seq<u8>, pos: nat, t: u32)
    requires
        agrees_up_to(d, e, end_of(value_at(d, pos, t))),
    ensures
        cut_alike(e, value_at(d, pos, t), value_at(e, pos, t)),
        value_at(d, pos, t) matches Ok((_, next)) ==> pos < next <= d.len(),
    decreases d.len() - pos, 0nat,
{
    if value_at(d, pos, t) is Ok {
        if scalar_size(t) is Some {
            lemma_bytes_cut(d, e, pos, scalar_size(t).unwrap());
        } else if t == 8 {
            lemma_string_cut(d, e, pos);
        } else {
            let (elem, p) = uint32_at(d, pos)->Ok_0;
            let (n, q) = uint64_at(d, p)->Ok_0;
            lemma_elements_end(d, q, elem, (n as usize) as nat, Seq::empty());
            lemma_bytes_cut(d, e, pos, 4);
            if p <= e.len() {
                lemma_bytes_cut(d, e, p, 8);
            }
            if q <= e.len() {
                lemma_elements_cut(d, e, q, elem, (n as usize) as nat, Seq::empty());
            }
        }
    }
}

/// Elements end behind their start.
proof fn lemma_elements_end(d: Seq<u8>, pos: nat, t: u32, n: nat, acc: Seq<ValueView>)
    requires
        pos <= d.len(),
    ensures
        elements_at(d, pos, t, n, acc) matches Ok((_, next)) ==> pos <= next <= d.len(),
    decreases d.len() - pos, 1nat,
{
    if n > 0 && value_at(d, pos, t) is Ok {
        let (v, next) = value_at(d, pos, t)->Ok_0;
        lemma_value_cut(d, d, pos, t);
        lemma_elements_end(d, next, t, (n - 1) as nat, acc.push(v));
    }
}

/// Elements are read up to the end of the last.
proof fn lemma_elements_cut(
    d: Seq<u8>,
    e: Seq<u8>,
    pos: nat,
    t: u32,
    n: nat,
    acc: Seq<ValueView>,
)
    requires
        pos <= d.len(),
        pos <= e.len(),
        agrees_up_to(d, e, end_of(elements_at(d, pos, t, n, acc))),
    ensures
        cut_alike(e, elements_at(d, pos, t, n, acc), elements_at(e, pos, t, n, acc)),
    decreases d.len() - pos, 1nat,
{
    if n > 0 && elements_at(d, pos, t, n, acc) is Ok {
        let (v, next) = value_at(d, pos, t)->Ok_0;
        lemma_value_cut(d, d, pos, t);
        lemma_elements_end(d, next, t, (n - 1) as nat, acc.push(v));
        lemma_value_cut(d, e, pos, t);
        if next <= e.len() {
            lemma_elements_cut(d, e, next, t, (n - 1) as nat, acc.push(v));
        }
    }
}

/// Metadata is read up to its end.
proof fn lemma_metadata_cut(
    d: Seq<u8>,
    e: Seq<u8>,
    pos: nat,
    n: nat,
    acc: Map<Seq<char>, ValueView>,
)
    requires
        pos <= d.len(),
        pos <= e.len() ==> agrees_up_to(d, e, end_of(metadata_at(d, pos, n, acc))),
    ensures
        pos <= e.len() ==> cut_alike(e, metadata_at(d, pos, n, acc), metadata_at(e, pos, n, acc)),
        metadata_at(d, pos, n, acc) matches Ok((_, next)) ==> pos <= next <= d.len(),
    decreases n,
{
    if n > 0 && metadata_at(d, pos, n, acc) is Ok {
        let (key, p) = string_at(d, pos)->Ok_0;
        let (t, q) = uint32_at(d, p)->Ok_0;
        let (v, next) = value_at(d, q, t)->Ok_0;
        lemma_value_cut(d, d, q, t);
        lemma_string_cut(d, d, pos);
        lemma_metadata_cut(d, e, next, (n - 1) as nat, acc.insert(key, v));
        if pos <= e.len() {
            lemma_string_cut(d, e, pos);
            lemma_bytes_cut(d, e, p, 4);
            lemma_value_cut(d, e, q, t);
        }
    }
}

/// Dimensions are read up to the end of the last.
proof fn lemma_dims_cut(d: Seq<u8>, e: Seq<u8>, pos: nat, n: nat, acc: Seq<u64>)
    requires
        pos <= d.len(),
        pos <= e.len() ==> agrees_up_to(d, e, end_of(dims_at(d, pos, n, acc))),
    ensures
        pos <= e.len() ==> cut_alike(e, dims_at(d, pos, n, acc), dims_at(e, pos, n, acc)),
        dims_at(d, pos, n, acc) matches Ok((_, next)) ==> pos <= next <= d.len(),
    decreases n,
{
    if n > 0 && dims_at(d, pos, n, acc) is Ok {
        let (dim, next) = uint64_at(d, pos)->Ok_0;
        lemma_dims_cut(d, e, next, (n - 1) as nat, acc.push(dim));
        if pos <= e.len() {
            lemma_bytes_cut(d, e, pos, 8);
        }
    }
}

/// A tensor description is read up to its end.
proof fn lemma_tensor_cut(d: Seq<u8>, e: Seq<u8>, pos: nat)
    requires
        agrees_up_to(d, e, end_of(tensor_at(d, pos))),
    ensures
        cut_alike(e, tensor_at(d, pos), tensor_at(e, pos)),
        tensor_at(d, pos) matches Ok((_, next)) ==> pos < next <= d.len(),
{
    if tensor_at(d, pos) is Ok {
        let (name, p) = string_at(d, pos)->Ok_0;
        let (n_dims, q) = uint32_at(d, p)->Ok_0;
        let n = (n_dims as usize) as nat;
        let (shape, r) = dims_at(d, q, n, Seq::empty())->Ok_0;
        let (t, s) = uint32_at(d, r)->Ok_0;
        lemma_string_cut(d, d, pos);
        lemma_dims_cut(d, d, q, n, Seq::empty());
        lemma_string_cut(d, e, pos);
        lemma_bytes_cut(d, e, p, 4);
        lemma_dims_cut(d, e, q, n, Seq::empty());
        lemma_bytes_cut(d, e, r, 4);
        lemma_bytes_cut(d, e, s, 8);
    }
}

/// Tensor descriptions are read up to the end of the last.
proof fn lemma_tensors_cut(d: Seq<u8>, e: Seq<u8>, pos: nat, n: nat, acc: Seq<TensorView>)
    requires
        pos <= d.len(),
        pos <= e.len() ==> agrees_up_to(d, e, end_of(tensors_at(d, pos, n, acc))),
    ensures
        pos <= e.len() ==> cut_alike(e, tensors_at(d, pos, n, acc), tensors_at(e, pos, n, acc)),
        tensors_at(d, pos, n, acc) matches Ok((_, next)) ==> pos <= next <= d.len(),
    decreases n,
{
    if n > 0 && tensors_at(d, pos, n, acc) is Ok {
        let (t, next) = tensor_at(d, pos)->Ok_0;
        lemma_tensor_cut(d, d, pos);
        lemma_tensors_cut(d, e, next, (n - 1) as nat, acc.push(t));
        if pos <= e.len() {
            lemma_tensor_cut(d, e, pos);
        }
    }
}

/// The tables are read up to their end.
proof fn lemma_tables_cut(d: Seq<u8>, e: Seq<u8>)
    requires
        agrees_up_to(d, e, end_of(tables_at(d))),
    ensures
        cut_alike(e, tables_at(d), tables_at(e)),
        tables_at(d) matches Ok((_, end)) ==> 24 <= end <= d.len(),
{
    if tables_at(d) is Ok {
        let (n_tensors, p) = uint64_at(d, 8)->Ok_0;
        let (n_metadata, q) = uint64_at(d, p)->Ok_0;
        let n = (n_metadata as usize) as nat;
        let (metadata, r) = metadata_at(d, q, n, Map::empty())->Ok_0;
        lemma_metadata_cut(d, d, q, n, Map::empty());
        lemma_tensors_cut(d, d, r, (n_tensors as usize) as nat, Seq::empty());
        lemma_bytes_cut(d, e, 8, 8);
        lemma_bytes_cut(d, e, p, 8);
        lemma_metadata_cut(d, e, q, n, Map::empty());
        lemma_tensors_cut(d, e, r, (n_tensors as usize) as nat, Seq::empty());
    }
}

/// A model file is read up to the end of its tensor descriptions, and no further:
/// cut off anywhere before, it is no model; and whatever follows them, it is the
/// same model.
pub proof fn law_model_ends_with_tables(data: Seq<u8>, other: Seq<u8>)
    requires
        model_of(data) is Ok,
    ensures
        tables_at(data) matches Ok((_, end)) && {
            &&& end <= data.len()
            &&& forall|q: int| 0 <= q < end ==> model_of(#[trigger] data.take(q)) is Err
            &&& model_of(data.take(end as int) + other) == model_of(data)
        },
{
    let end = end_of(tables_at(data));
    lemma_tables_cut(data, data);
    assert forall|q: int| 0 <= q < end implies model_of(#[trigger] data.take(q)) is Err by {
        lemma_tables_cut(data, data.take(q));
    }
    let e = data.take(end as int) + other;
    lemma_tables_cut(data, e);
    lemma_bytes_cut(data, e, 0, 4);
    lemma_bytes_cut(data, e, 4, 4);
}

/// A reading position in a byte sequence.
struct Cursor<'a> {
    data: &'a [u8],
    pos: usize,
}

/// A read of one piece that did `spec`, moving from `before` to `after`: on an
/// error the cursor stays where it was.
spec fn reads<T>(
    spec: Result<(T, nat), GgufError>,
    before: Cursor,
    after: Cursor,
    r: Result<T, GgufError>,
) -> bool {
    &&& after.data == before.data
    &&& match spec {
        Ok((v, next)) => {
            &&& r == Ok::<T, GgufError>(v)
            &&& after.pos == next
            &&& before.pos <= next <= before.data@.len()
        },
        Err(e) => {
            &&& r == Err::<T, GgufError>(e)
            &&& after.pos == before.pos
        },
    }
}

impl<'a> Cursor<'a> {
    spec fn inv(self) -> bool {
        self.pos <= self.data@.len()
    }

    fn new(data: &'a [u8]) -> (c: Self)
        ensures
            c.inv(),
            c.data == data,
            c.pos == 0,
    {
        Cursor { data, pos: 0 }
    }

    fn position(&self) -> (p: usize)
        ensures
            p == self.pos,
    {
        self.pos
    }

    fn read_bytes(&mut self, n: usize) -> (r: Result<&'a [u8], GgufError>)
        requires
            old(self).inv(),
        ensures
            r is Ok ==> final(self).inv(),
            final(self).data == old(self).data,
            match bytes_at(old(self).data@, old(self).pos as nat, n as nat) {
                Ok((b, next)) => {
                    &&& r matches Ok(s) && s@ == b
                    &&& final(self).pos == next
                },
                Err(e) => {
                    &&& r == Err::<&'a [u8], GgufError>(e)
                    &&& final(self).pos == old(self).pos
                },
            },
    {
        if n > self.data.len() - self.pos {
            return Err(
                GgufError::Truncated { need: n, at: self.pos, len: self.data.len() },
            );
        }
        let s = &self.data[self.pos..self.pos + n];
        self.pos = self.pos + n;
        Ok(s)
    }

    fn read_u8(&mut self) -> (r: Result<u8, GgufError>)
        requires
            old(self).inv(),
        ensures
            r is Ok ==> final(self).inv(),
            reads(uint8_at(old(self).data@, old(self).pos as nat), *old(self), *final(self), r),
    {
        match self.read_bytes(1) {
            Ok(b) => {
                assert(b@.drop_first() =~= Seq::empty());
                reveal_with_fuel(le_value, 2);
                Ok(b[0])
            },
            Err(e) => Err(e),
        }
    }

    fn read_u16(&mut self) -> (r: Result<u16, GgufError>)
        requires
            old(self).inv(),
        ensures
            r is Ok ==> final(self).inv(),
            reads(uint16_at(old(self).data@, old(self).pos as nat), *old(self), *final(self), r),
    {
        match self.read_bytes(2) {
            Ok(b) => {
                let v: u16 = b[0] as u16 + 0x100 * (b[1] as u16);
                proof {
                    lemma_le_value_2(b@);
                }
                Ok(v)
            },
            Err(e) => Err(e),
        }
    }

    fn read_u32(&mut self) -> (r: Result<u32, GgufError>)
        requires
            old(self).inv(),
        ensures
            r is Ok ==> final(self).inv(),
            reads(uint32_at(old(self).data@, old(self).pos as nat), *old(self), *final(self), r),
    {
        match self.read_bytes(4) {
            Ok(b) => {
                let v: u32 = b[0] as u32 + 0x100 * (b[1] as u32) + 0x1_0000 * (b[2] as u32)
                    + 0x100_0000 * (b[3] as u32);
                proof {
                    lemma_le_value_4(b@);
                }
                Ok(v)
            },
            Err(e) => Err(e),
        }
    }

    fn read_u64(&mut self) -> (r: Result<u64, GgufError>)
        requires
            old(self).inv(),
        ensures
            r is Ok ==> final(self).inv(),
            reads(uint64_at(old(self).data@, old(self).pos as nat), *old(self), *final(self), r),
    {
        match self.read_bytes(8) {
            Ok(b) => {
                let lo: u64 = b[0] as u64 + 0x100 * (b[1] as u64) + 0x1_0000 * (b[2] as u64)
                    + 0x100_0000 * (b[3] as u64);
                let hi: u64 = b[4] as u64 + 0x100 * (b[5] as u64) + 0x1_0000 * (b[6] as u64)
                    + 0x100_0000 * (b[7] as u64);
                proof {
                    lemma_le_value_8(b@);
                }
                Ok(lo + 0x1_0000_0000 * hi)
            },
            Err(e) => Err(e),
        }
    }

    fn read_i8(&mut self) -> (r: Result<i8, GgufError>)
        requires
            old(self).inv(),
        ensures
            r is Ok ==> final(self).inv(),
            final(self).data == old(self).data,
            match uint8_at(old(self).data@, old(self).pos as nat) {
                Ok((v, next)) => r == Ok::<i8, GgufError>(v as i8) && final(self).pos == next,
                Err(e) => {
                    &&& r == Err::<i8, GgufError>(e)
                    &&& final(self).pos == old(self).pos
                },
            },
    {
        let v = self.read_u8()?;
        Ok(v as i8)
    }

    fn read_i16(&mut self) -> (r: Result<i16, GgufError>)
        requires
            old(self).inv(),
        ensures
            r is Ok ==> final(self).inv(),
            final(self).data == old(self).data,
            match uint16_at(old(self).data@, old(self).pos as nat) {
                Ok((v, next)) => r == Ok::<i16, GgufError>(v as i16) && final(self).pos == next,
                Err(e) => {
                    &&& r == Err::<i16, GgufError>(e)
                    &&& final(self).pos == old(self).pos
                },
            },
    {
        let v = self.read_u16()?;
        Ok(v as i16)
    }

    fn read_i32(&mut self) -> (r: Result<i32, GgufError>)
        requires
            old(self).inv(),
        ensures
            r is Ok ==> final(self).inv(),
            final(self).data == old(self).data,
            match uint32_at(old(self).data@, old(self).pos as nat) {
                Ok((v, next)) => r == Ok::<i32, GgufError>(v as i32) && final(self).pos == next,
                Err(e) => {
                    &&& r == Err::<i32, GgufError>(e)
                    &&& final(self).pos == old(self).pos
                },
            },
    {
        let v = self.read_u32()?;
        Ok(v as i32)
    }

    fn read_i64(&mut self) -> (r: Result<i64, GgufError>)
        requires
            old(self).inv(),
        ensures
            r is Ok ==> final(self).inv(),
            final(self).data == old(self).data,
            match uint64_at(old(self).data@, old(self).pos as nat) {
                Ok((v, next)) => r == Ok::<i64, GgufError>(v as i64) && final(self).pos == next,
                Err(e) => {
                    &&& r == Err::<i64, GgufError>(e)
                    &&& final(self).pos == old(self).pos
                },
            },
    {
        let v = self.read_u64()?;
        Ok(v as i64)
    }

    fn read_bool(&mut self) -> (r: Result<bool, GgufError>)
        requires
            old(self).inv(),
        ensures
            r is Ok ==> final(self).inv(),
            final(self).data == old(self).data,
            match uint8_at(old(self).data@, old(self).pos as nat) {
                Ok((v, next)) => r == Ok::<bool, GgufError>(v != 0) && final(self).pos == next,
                Err(e) => {
                    &&& r == Err::<bool, GgufError>(e)
                    &&& final(self).pos == old(self).pos
                },
            },
    {
        let v = self.read_u8()?;
        Ok(v != 0)
    }

    fn read_string(&mut self) -> (r: Result<String, GgufError>)
        requires
            old(self).inv(),
        ensures
            r is Ok ==> final(self).inv(),
            final(self).data == old(self).data,
            match string_at(old(self).data@, old(self).pos as nat) {
                Ok((s, next)) => {
                    &&& r matches Ok(t) && t@ == s
                    &&& final(self).pos == next
                    &&& old(self).pos < next
                },
                Err(e) => {
                    &&& r == Err::<String, GgufError>(e)
                    &&& final(self).pos == string_stop(old(self).data@, old(self).pos as nat)
                },
            },
    {
        let len = self.read_u64()?;
        let bytes = self.read_bytes(len as usize)?;
        let valid = crate::text::utf8_prefix(bytes);
        proof {
            crate::text::lemma_longest_utf8(bytes@, valid as int);
            assert(bytes@.take(bytes@.len() as int) =~= bytes@);
        }
        if valid < bytes.len() {
            return Err(GgufError::BadUtf8 { valid_up_to: valid });
        }
        Ok(crate::text::utf8_lossy(bytes))
    }

    fn read_value(&mut self) -> (r: Result<Value, GgufError>)
        requires
            old(self).inv(),
        ensures
            r is Ok ==> final(self).inv(),
            final(self).data == old(self).data,
            match uint32_at(old(self).data@, old(self).pos as nat) {
                Ok((t, p)) => reads_value(
                    value_at(old(self).data@, p, t),
                    value_stop(old(self).data@, p, t),
                    *final(self),
                    r,
                ),
                Err(e) => {
                    &&& r == Err::<Value, GgufError>(e)
                    &&& final(self).pos == old(self).pos
                },
            },
    {
        let t = self.read_u32()?;
        self.read_value_typed(t)
    }

    fn read_value_typed(&mut self, t: u32) -> (r: Result<Value, GgufError>)
        requires
            old(self).inv(),
        ensures
            r is Ok ==> final(self).inv(),
            r is Ok ==> old(self).pos < final(self).pos,
            final(self).data == old(self).data,
            reads_value(
                value_at(old(self).data@, old(self).pos as nat, t),
                value_stop(old(self).data@, old(self).pos as nat, t),
                *final(self),
                r,
            ),
            t > 12 ==> r is Err && final(self).pos == old(self).pos,
        decreases old(self).data@.len() - old(self).pos,
    {
        let ghost data = self.data@;
        let r = match t {
            0 => Ok(Value::U8(self.read_u8()?)),
            1 => Ok(Value::I8(self.read_i8()?)),
            2 => Ok(Value::U16(self.read_u16()?)),
            3 => Ok(Value::I16(self.read_i16()?)),
            4 => Ok(Value::U32(self.read_u32()?)),
            5 => Ok(Value::I32(self.read_i32()?)),
            6 => Ok(Value::F32(self.read_u32()?)),
            7 => Ok(Value::Bool(self.read_bool()?)),
            8 => Ok(Value::String(self.read_string()?)),
            9 => {
                let elem = self.read_u32()?;
                let n = self.read_u64()? as usize;
                let ghost start = self.pos as nat;
                let mut arr: Vec<Value> = Vec::new();
                let mut i: usize = 0;
                while i < n
                    invariant
                        t == 9,
                        i <= n,
                        self.inv(),
                        self.data@ == data,
                        self.data == old(self).data,
                        old(self).pos < start <= self.pos,
                        elements_at(data, start, elem, n as nat, Seq::empty()) == elements_at(
                            data,
                            self.pos as nat,
                            elem,
                            (n - i) as nat,
                            Value::views(arr@),
                        ),
                        elements_stop(data, start, elem, n as nat) == elements_stop(
                            data,
                            self.pos as nat,
                            elem,
                            (n - i) as nat,
                        ),
                        value_stop(data, old(self).pos as nat, 9) == elements_stop(
                            data,
                            start,
                            elem,
                            n as nat,
                        ),
                        value_at(data, old(self).pos as nat, 9) == array_from(
                            elements_at(data, start, elem, n as nat, Seq::empty()),
                        ),
                    decreases n - i,
                {
                    let ghost seen = arr@;
                    let v = self.read_value_typed(elem)?;
                    arr.push(v);
                    assert(arr@.drop_last() =~= seen);
                    i += 1;
                }
                let ghost views = Value::views(arr@);
                let out = Value::Array(arr);
                assert(out@ == ValueView::Array(views));
                Ok(out)
            },
            10 => Ok(Value::U64(self.read_u64()?)),
            11 => Ok(Value::I64(self.read_i64()?)),
            12 => Ok(Value::F64(self.read_u64()?)),
            _ => Err(GgufError::UnknownValueType(t)),
        };
        r
    }
}

/// An array value, made of its elements.
pub open spec fn array_from(r: Result<(Seq<ValueView>, nat), GgufError>) -> Result<
    (ValueView, nat),
    GgufError,
> {
    match r {
        Ok((vs, next)) => Ok((ValueView::Array(vs), next)),
        Err(e) => Err(e),
    }
}

/// A read of a value that did `spec` and left the cursor at `after`: on an error,
/// at `stop`.
spec fn reads_value(
    spec: Result<(ValueView, nat), GgufError>,
    stop: nat,
    after: Cursor,
    r: Result<Value, GgufError>,
) -> bool {
    match spec {
        Ok((v, next)) => {
            &&& r matches Ok(x) && x@ == v
            &&& after.pos == next
        },
        Err(e) => {
            &&& r == Err::<Value, GgufError>(e)
            &&& after.pos == stop
        },
    }
}

proof fn lemma_le_value_2(b: Seq<u8>)
    requires
        b.len() == 2,
    ensures
        le_value(b) == b[0] + 0x100 * b[1],
{
    reveal_with_fuel(le_value, 3);
}

proof fn lemma_le_value_4(b: Seq<u8>)
    requires
        b.len() == 4,
    ensures
        le_value(b) == b[0] + 0x100 * b[1] + 0x1_0000 * b[2] + 0x100_0000 * b[3],
{
    let t = b.drop_first().drop_first();
    assert(le_value(b) == b[0] + 256 * le_value(b.drop_first()));
    assert(le_value(b.drop_first()) == b[1] + 256 * le_value(t));
    lemma_le_value_2(t);
}

proof fn lemma_le_value_8(b: Seq<u8>)
    requires
        b.len() == 8,
    ensures
        le_value(b) == b[0] + 0x100 * b[1] + 0x1_0000 * b[2] + 0x100_0000 * b[3] + 0x1_0000_0000 * (
        b[4] + 0x100 * b[5] + 0x1_0000 * b[6] + 0x100_0000 * b[7]),
{
    let t1 = b.drop_first();
    let t2 = t1.drop_first();
    let t3 = t2.drop_first();
    let t4 = t3.drop_first();
    assert(le_value(b) == b[0] + 256 * le_value(t1));
    assert(le_value(t1) == b[1] + 256 * le_value(t2));
    assert(le_value(t2) == b[2] + 256 * le_value(t3));
    assert(le_value(t3) == b[3] + 256 * le_value(t4));
    lemma_le_value_4(t4);
}

/// A model: the bytes of its file, and what they say up to the tensor data.
#[derive(Debug)]
pub struct Model<'a> {
    pub data: &'a [u8],
    pub version: u32,
    pub metadata: Metadata,
    pub tensors: Vec<TensorInfo>,
    /// Byte offset of the tensor data block within the file.
    pub tensor_data_start: u64,
}

/// What each of a sequence of tensor descriptions says.
pub open spec fn tensor_views(s: Seq<TensorInfo>) -> Seq<TensorView> {
    Seq::new(s.len(), |i: int| s[i]@)
}

impl<'a> Model<'a> {
    /// What the model file says.
    pub open spec fn view(&self) -> ModelView {
        ModelView {
            version: self.version,
            metadata: self.metadata@,
            tensors: tensor_views(self.tensors@),
            tensor_data_start: self.tensor_data_start as nat,
        }
    }
}

/// The tensor data starts at the first multiple of the alignment that is not
/// before the end of the tensor descriptions.
pub proof fn law_align_up(pos: nat, alignment: nat)
    requires
        alignment > 0,
    ensures
        align_up(pos, alignment) % alignment == 0,
        pos <= align_up(pos, alignment) < pos + alignment,
        forall|m: nat|
            #![trigger m % alignment]
            m % alignment == 0 && m >= pos ==> m >= align_up(pos, alignment),
{
    let q = (pos + alignment - 1) as nat / alignment;
    assert(align_up(pos, alignment) == q * alignment);
    assert(pos <= q * alignment < pos + alignment) by (nonlinear_arith)
        requires
            alignment > 0,
            q == (pos + alignment - 1) as nat / alignment,
    ;
    assert((q * alignment) % alignment == 0) by (nonlinear_arith)
        requires
            alignment > 0,
    ;
    assert forall|m: nat|
        #![trigger m % alignment]
        m % alignment == 0 && m >= pos implies m >= align_up(pos, alignment) by {
        let d = m / alignment;
        assert(m == d * alignment) by (nonlinear_arith)
            requires
                alignment > 0,
                m % alignment == 0,
                d == m / alignment,
        ;
        if m < q * alignment {
            assert(d < q && d * alignment + alignment <= q * alignment) by (nonlinear_arith)
                requires
                    d * alignment < q * alignment,
                    alignment > 0,
            ;
        }
    }
}

/// The first tensor of a given name.
pub open spec fn tensor_named(tensors: Seq<TensorView>, name: Seq<char>) -> Option<TensorView>
    decreases tensors.len(),
{
    if tensors.len() == 0 {
        None
    } else if tensors[0].name == name {
        Some(tensors[0])
    } else {
        tensor_named(tensors.drop_first(), name)
    }
}

impl ModelView {
    /// The bytes of tensor `t`, in a file of `len` bytes, are within it and can
    /// be counted.
    pub open spec fn holds(self, len: nat, t: TensorView) -> bool {
        &&& t.countable()
        &&& self.tensor_data_start + t.offset + t.bytes() <= len
    }

    /// The bytes of tensor `t`.
    pub open spec fn tensor_bytes(self, data: Seq<u8>, t: TensorView) -> Seq<u8> {
        let start = self.tensor_data_start + t.offset;
        data.subrange(start as int, (start + t.bytes()) as int)
    }

    /// The text of a metadata key, if it has one.
    pub open spec fn text(self, key: Seq<char>) -> Option<Seq<char>> {
        if self.metadata.contains_key(key) && self.metadata[key] is Text {
            Some(self.metadata[key]->Text_0)
        } else {
            None
        }
    }
}

impl<'a> Model<'a> {
    /// The bytes of a tensor, packed as they are in the file.
    pub fn tensor_bytes(&self, t: &TensorInfo) -> (bytes: &'a [u8])
        requires
            self@.holds(self.data@.len(), t@),
        ensures
            bytes@ == self@.tensor_bytes(self.data@, t@),
            bytes@.len() == t@.bytes(),
    {
        let ghost len = self.data.len();
        let start = self.tensor_data_start as usize + t.offset as usize;
        let end = start + t.byte_size() as usize;
        &self.data[start..end]
    }

    /// The architecture that the model names.
    pub fn arch(&self) -> (r: Option<&str>)
        ensures
            match r {
                Some(s) => self@.text("general.architecture"@) == Some(s@),
                None => self@.text("general.architecture"@) is None,
            },
    {
        match self.metadata.get("general.architecture") {
            Some(v) => v.as_str(),
            None => None,
        }
    }

    /// The first tensor of that name.
    pub fn tensor(&self, name: &str) -> (r: Option<&TensorInfo>)
        ensures
            match r {
                Some(t) => tensor_named(self@.tensors, name@) == Some(t@),
                None => tensor_named(self@.tensors, name@) is None,
            },
    {
        let wanted = name.to_owned();
        assert(self@.tensors.skip(0) =~= self@.tensors);
        for i in 0..self.tensors.len()
            invariant
                wanted@ == name@,
                tensor_named(self@.tensors, name@) == tensor_named(
                    self@.tensors.skip(i as int),
                    name@,
                ),
        {
            let ghost rest = self@.tensors.skip(i as int);
            assert(rest[0] == self.tensors[i as int]@);
            assert(rest.drop_first() =~= self@.tensors.skip(i + 1));
            if self.tensors[i].name == wanted {
                return Some(&self.tensors[i]);
            }
        }
        None
    }
}

/// Reads a model file.
pub fn parse(data: &[u8]) -> (r: Result<Model<'_>, GgufError>)
    requires
        data@.len() <= isize::MAX,
    ensures
        match model_of(data@) {
            Ok(m) => r matches Ok(model) && model@ == m && model.data == data,
            Err(e) => r matches Err(f) && f == e,
        },
{
    let mut c = Cursor::new(data);
    let magic = c.read_bytes(4)?;
    if magic[0] != 0x47 || magic[1] != 0x47 || magic[2] != 0x55 || magic[3] != 0x46 {
        return Err(GgufError::BadMagic(magic[0], magic[1], magic[2], magic[3]));
    }
    let version = c.read_u32()?;
    if version != 3 {
        return Err(GgufError::UnsupportedVersion(version));
    }
    let n_tensors = c.read_u64()? as usize;
    let n_metadata = c.read_u64()? as usize;

    let ghost metadata_start = c.pos as nat;
    let mut metadata = Metadata::new();
    let mut i: usize = 0;
    while i < n_metadata
        invariant
            i <= n_metadata,
            c.inv(),
            c.data == data,
            metadata_at(data@, metadata_start, n_metadata as nat, Map::empty()) == metadata_at(
                data@,
                c.pos as nat,
                (n_metadata - i) as nat,
                metadata@,
            ),
            metadata_at(data@, metadata_start, n_metadata as nat, Map::empty()) matches Err(e)
                ==> model_of(data@) == Err::<ModelView, GgufError>(e),
        decreases n_metadata - i,
    {
        let key = c.read_string()?;
        let value = c.read_value()?;
        metadata.insert(key, value);
        i += 1;
    }

    let ghost tensors_start = c.pos as nat;
    let mut tensors: Vec<TensorInfo> = Vec::new();
    assert(tensor_views(tensors@) =~= Seq::empty());
    let mut i: usize = 0;
    while i < n_tensors
        invariant
            i <= n_tensors,
            c.inv(),
            c.data == data,
            tensors_at(data@, tensors_start, n_tensors as nat, Seq::empty()) == tensors_at(
                data@,
                c.pos as nat,
                (n_tensors - i) as nat,
                tensor_views(tensors@),
            ),
            tensors_at(data@, tensors_start, n_tensors as nat, Seq::empty()) matches Err(e)
                ==> model_of(data@) == Err::<ModelView, GgufError>(e),
        decreases n_tensors - i,
    {
        let name = c.read_string()?;
        let n_dims = c.read_u32()? as usize;
        let ghost dims_start = c.pos as nat;
        let mut shape: Vec<u64> = Vec::new();
        let mut d: usize = 0;
        let ghost whole = dims_at(data@, dims_start, n_dims as nat, Seq::empty());
        while d < n_dims
            invariant
                d <= n_dims,
                c.inv(),
                c.data == data,
                whole == dims_at(data@, c.pos as nat, (n_dims - d) as nat, shape@),
                whole matches Err(e) ==> model_of(data@) == Err::<ModelView, GgufError>(e),
            decreases n_dims - d,
        {
            shape.push(c.read_u64()?);
            d += 1;
        }
        let dtype = TensorType::from_u32(c.read_u32()?)?;
        let offset = c.read_u64()?;
        let ghost seen = tensors@;
        let info = TensorInfo { name, shape, dtype, offset };
        tensors.push(info);
        assert(tensor_views(tensors@) =~= tensor_views(seen).push(info@));
        i += 1;
    }

    let alignment: u64 = match metadata.get("general.alignment") {
        Some(v) => match v.as_u32() {
            Some(a) => a as u64,
            None => DEFAULT_ALIGNMENT,
        },
        None => DEFAULT_ALIGNMENT,
    };
    if alignment == 0 {
        return Err(GgufError::ZeroAlignment);
    }
    let pos = c.position() as u64;
    proof {
        law_align_up(pos as nat, alignment as nat);
    }
    let tensor_data_start = (pos + (alignment - 1)) / alignment * alignment;
    Ok(Model { data, version, metadata, tensors, tensor_data_start })
}

impl<'a> Model<'a> {
    /// Whether the file holds all bytes of a tensor.
    pub fn holds_tensor(&self, t: &TensorInfo) -> (b: bool)
        ensures
            b == self@.holds(self.data@.len(), t@),
    {
        let mut n: u64 = 1;
        for i in 0..t.shape.len()
            invariant
                n == product_of(t.shape@, i as nat),
                forall|k: nat| k <= i ==> #[trigger] product_of(t.shape@, k) <= u64::MAX,
        {
            match n.checked_mul(t.shape[i]) {
                Some(m) => {
                    n = m;
                },
                None => {
                    assert(product_of(t@.shape, (i + 1) as nat) > u64::MAX);
                    return false;
                },
            }
        }
        assert(t@.countable());
        let blocks: u64 = n / t.dtype.block_elements() as u64;
        let len: u64 = self.data.len() as u64;
        match blocks.checked_mul(t.dtype.block_bytes() as u64) {
            Some(bytes) => match self.tensor_data_start.checked_add(t.offset) {
                Some(start) => match start.checked_add(bytes) {
                    Some(end) => end <= len,
                    None => false,
                },
                None => false,
            },
            None => false,
        }
    }
}

} // verus!
