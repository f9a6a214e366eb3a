//! Dequantization of tensor formats to plain numbers.
//!
//! A quantized format packs many low-precision values into a block that shares
//! one scale. Supported are plain 32-bit and 16-bit floats and `Q8_0`.

use vstd::arithmetic::power2::{lemma2_to64, lemma_pow2_adds, pow2};
use vstd::prelude::*;

use crate::arith::{bits_are, int_is, product_is, Arith};
use crate::buffer::repeated;
use crate::gguf::{tensor_named, Model, ModelView, TensorInfo, TensorType, TensorView};

verus! {

/// Why a tensor cannot be dequantized.
#[derive(Debug, Clone, Copy, PartialEq, Eq, Structural)]
pub enum QuantError {
    /// There is no dequantization for this format.
    Unsupported(TensorType),
}

/// The magnitude of a finite binary16 number, in units of its least positive one.
pub open spec fn half_magnitude(h: u16) -> nat {
    let e = (h as nat / 0x400) % 0x20;
    let m = h as nat % 0x400;
    if e == 0 {
        m
    } else {
        (0x400 + m) * pow2((e - 1) as nat)
    }
}

/// The magnitude of a finite binary32 number, in units of its least positive one.
pub open spec fn single_magnitude(s: u32) -> nat {
    let e = (s as nat / 0x80_0000) % 0x100;
    let m = s as nat % 0x80_0000;
    if e == 0 {
        m
    } else {
        (0x80_0000 + m) * pow2((e - 1) as nat)
    }
}

/// The binary32 bit pattern `s` stands for what the binary16 bit pattern `h`
/// stands for, with the same sign: the same finite number, infinity, or a quiet
/// NaN with the same payload.
pub open spec fn widened(h: u16, s: u32) -> bool {
    let h_exponent = (h as nat / 0x400) % 0x20;
    let s_exponent = (s as nat / 0x80_0000) % 0x100;
    let payload = h as nat % 0x400;
    &&& s as nat / 0x8000_0000 == h as nat / 0x8000
    &&& if h_exponent < 0x1f {
        s_exponent < 0xff && single_magnitude(s) == half_magnitude(h) * pow2(125)
    } else {
        &&& s_exponent == 0xff
        &&& s as nat % 0x80_0000 == payload * 0x2000 + (if 0 < payload < 0x200 {
            0x40_0000nat
        } else {
            0
        })
    }
}

/// The bit pattern of a sign, an exponent field and a mantissa field.
fn pack(sign: u32, exponent: u32, mantissa: u32) -> (s: u32)
    requires
        sign < 2,
        exponent < 0x100,
        mantissa < 0x80_0000,
    ensures
        s as nat / 0x8000_0000 == sign,
        (s as nat / 0x80_0000) % 0x100 == exponent,
        s as nat % 0x80_0000 == mantissa,
{
    sign * 0x8000_0000 + exponent * 0x80_0000 + mantissa
}

/// The binary32 bit pattern of a binary16 number.
pub fn widen_half(h: u16) -> (s: u32)
    ensures
        widened(h, s),
{
    let sign: u32 = (h / 0x8000) as u32;
    let exponent: u32 = ((h / 0x400) % 0x20) as u32;
    let mantissa: u32 = (h % 0x400) as u32;
    if exponent == 0x1f {
        if 0 < mantissa && mantissa < 0x200 {
            pack(sign, 0xff, mantissa * 0x2000 + 0x40_0000)
        } else {
            pack(sign, 0xff, mantissa * 0x2000)
        }
    } else if exponent > 0 {
        proof {
            lemma_widened(0x400 + mantissa as nat, (exponent - 1) as nat, (exponent + 111) as nat);
        }
        pack(sign, exponent + 112, mantissa * 0x2000)
    } else if mantissa == 0 {
        pack(sign, 0, 0)
    } else {
        let mut shifted: u32 = mantissa;
        let mut shift: u32 = 0;
        proof {
            lemma2_to64();
        }
        while shifted < 0x400
            invariant
                0 < mantissa < 0x400,
                mantissa <= shifted < 0x800,
                shifted == mantissa * pow2(shift as nat),
                shift <= 10,
                pow2(10) == 0x400,
            decreases 0x800 - shifted,
        {
            proof {
                vstd::arithmetic::power2::lemma_pow2_unfold((shift + 1) as nat);
                let p = pow2(shift as nat) as int;
                assert(mantissa * (2 * p) == 2 * (mantissa * p)) by (nonlinear_arith);
                if shift == 10 {
                    assert(mantissa * 0x400 >= 0x400);
                }
            }
            shifted = shifted * 2;
            shift = shift + 1;
        }
        proof {
            lemma_denormal(mantissa as nat, shifted as nat, shift as nat);
        }
        pack(sign, 113 - shift, (shifted - 0x400) * 0x2000)
    }
}

/// A significand of 11 bits, moved to the 24 bits of a binary32 number, with the
/// exponent field raised accordingly, stands for the same number.
proof fn lemma_widened(significand: nat, e: nat, f: nat)
    requires
        f == e + 112,
    ensures
        (significand * 0x2000) * pow2(f) == (significand * pow2(e)) * pow2(125),
{
    lemma2_to64();
    lemma_pow2_adds(13, f);
    lemma_pow2_adds(e, 125);
    let (a, b, c, d) = (significand as int, pow2(13) as int, pow2(f) as int, pow2(13 + f) as int);
    assert((a * b) * c == a * (b * c)) by (nonlinear_arith);
    let (x, y) = (pow2(e) as int, pow2(125) as int);
    assert((a * x) * y == a * (x * y)) by (nonlinear_arith);
}

/// A denormal significand, normalised, stands for the same number.
proof fn lemma_denormal(m: nat, shifted: nat, shift: nat)
    requires
        shifted == m * pow2(shift),
        shift <= 112,
    ensures
        (shifted * 0x2000) * pow2((112 - shift) as nat) == m * pow2(125),
{
    lemma2_to64();
    let rest = (112 - shift) as nat;
    lemma_pow2_adds(shift, 13);
    lemma_pow2_adds(shift + 13, rest);
    let (a, b, c, d) = (m as int, pow2(shift) as int, pow2(13) as int, pow2(rest) as int);
    assert(((a * b) * c) * d == a * ((b * c) * d)) by (nonlinear_arith);
}

/// A larger exponent field makes a larger number.
proof fn lemma_magnitude_grows(e: nat, m: nat, f: nat, n: nat)
    requires
        e < f,
        m < 0x80_0000,
    ensures
        (if e == 0 {
            m
        } else {
            (0x80_0000 + m) * pow2((e - 1) as nat)
        }) < (0x80_0000 + n) * pow2((f - 1) as nat),
{
    let top = pow2((f - 1) as nat);
    vstd::arithmetic::power2::lemma_pow2_pos((f - 1) as nat);
    assert((0x80_0000 + n) * top >= 0x80_0000 * top) by (nonlinear_arith);
    if e > 0 {
        let low = pow2((e - 1) as nat);
        vstd::arithmetic::power2::lemma_pow2_pos((e - 1) as nat);
        vstd::arithmetic::power2::lemma_pow2_unfold(e);
        if e < f - 1 {
            vstd::arithmetic::power2::lemma_pow2_strictly_increases(e, (f - 1) as nat);
        }
        assert(2 * low <= top);
        assert((0x80_0000 + m) * low < 0x100_0000 * low) by (nonlinear_arith)
            requires
                m < 0x80_0000,
                low > 0,
        ;
    }
}

/// A binary16 number has one binary32 bit pattern, and where it is finite, no other
/// number has the same.
pub proof fn law_widening_is_one_to_one(h: u16, s: u32, g: u16, t: u32)
    requires
        widened(h, s),
        widened(g, t),
    ensures
        h == g ==> s == t,
        s == t && (h as nat / 0x400) % 0x20 < 0x1f ==> half_magnitude(h) == half_magnitude(g) && h
            / 0x8000 == g / 0x8000,
{
    vstd::arithmetic::power2::lemma_pow2_pos(125);
    let (e, m) = ((s as nat / 0x80_0000) % 0x100, s as nat % 0x80_0000);
    let (f, n) = ((t as nat / 0x80_0000) % 0x100, t as nat % 0x80_0000);
    if h == g && (h as nat / 0x400) % 0x20 < 0x1f {
        if e < f {
            lemma_magnitude_grows(e, m, f, n);
        } else if f < e {
            lemma_magnitude_grows(f, n, e, m);
        } else if e > 0 {
            let p = pow2((e - 1) as nat);
            vstd::arithmetic::power2::lemma_pow2_pos((e - 1) as nat);
            assert(m == n) by (nonlinear_arith)
                requires
                    (0x80_0000 + m) * p == (0x80_0000 + n) * p,
                    p > 0,
            ;
        }
    }
    if s == t && (h as nat / 0x400) % 0x20 < 0x1f {
        let p = pow2(125);
        let (a, b) = (half_magnitude(h), half_magnitude(g));
        assert(a == b) by (nonlinear_arith)
            requires
                a * p == b * p,
                p > 0,
        ;
    }
}

/// The little-endian 16-bit number at `at`.
pub open spec fn le_u16(b: Seq<u8>, at: int) -> u16 {
    (b[at] + 0x100 * b[at + 1]) as u16
}

/// The little-endian 32-bit number at `at`.
pub open spec fn le_u32(b: Seq<u8>, at: int) -> u32 {
    (b[at] + 0x100 * b[at + 1] + 0x1_0000 * b[at + 2] + 0x100_0000 * b[at + 3]) as u32
}

/// `r` is the number that a binary16 bit pattern stands for.
pub open spec fn half_is<A: Arith>(h: u16, r: A::Num) -> bool {
    exists|s: u32| #[trigger] widened(h, s) && bits_are::<A>(s, r)
}

/// `r` is an outcome of element `i` of `Q8_0` blocks: the scale of its block
/// times its own signed byte. A block has 34 bytes: a binary16 scale and 32
/// signed bytes.
pub open spec fn q8_0_is<A: Arith>(src: Seq<u8>, i: int, r: A::Num) -> bool {
    exists|scale: A::Num, q: A::Num|
        {
            &&& half_is::<A>(le_u16(src, (i / 32) * 34), scale)
            &&& int_is::<A>(src[(i / 32) * 34 + 2 + i % 32] as i8, q)
            &&& #[trigger] product_is::<A>(scale, q, r)
        }
}

/// `r` is an outcome of element `i` of a tensor with the bytes `src`.
pub open spec fn element_is<A: Arith>(dtype: TensorType, src: Seq<u8>, i: int, r: A::Num) -> bool {
    match dtype {
        TensorType::F32 => bits_are::<A>(le_u32(src, 4 * i), r),
        TensorType::F16 => half_is::<A>(le_u16(src, 2 * i), r),
        TensorType::Q8_0 => q8_0_is::<A>(src, i, r),
        _ => false,
    }
}

/// There is a dequantization for this format.
pub open spec fn supported(dtype: TensorType) -> bool {
    dtype == TensorType::F32 || dtype == TensorType::F16 || dtype == TensorType::Q8_0
}

/// The elements `dst` are an outcome of dequantizing the bytes `src`.
pub open spec fn dequantized_is<A: Arith>(
    dtype: TensorType,
    src: Seq<u8>,
    dst: Seq<A::Num>,
) -> bool {
    forall|i: int| 0 <= i < dst.len() ==> element_is::<A>(dtype, src, i, #[trigger] dst[i])
}

/// The number that a binary16 bit pattern stands for.
fn half_number<A: Arith>(h: u16) -> (r: A::Num)
    ensures
        half_is::<A>(h, r),
{
    let s = widen_half(h);
    A::from_bits(s)
}

/// Reads a little-endian 16-bit number.
fn read_u16(b: &[u8], at: usize) -> (v: u16)
    requires
        at + 2 <= b@.len(),
    ensures
        v == le_u16(b@, at as int),
{
    assert(b.len() == b@.len());
    b[at] as u16 + 0x100 * (b[at + 1] as u16)
}

/// Reads a little-endian 32-bit number.
fn read_u32(b: &[u8], at: usize) -> (v: u32)
    requires
        at + 4 <= b@.len(),
    ensures
        v == le_u32(b@, at as int),
{
    assert(b.len() == b@.len());
    b[at] as u32 + 0x100 * (b[at + 1] as u32) + 0x1_0000 * (b[at + 2] as u32) + 0x100_0000 * (b[at
        + 3] as u32)
}

/// The lengths of bytes and elements fit together.
pub open spec fn lengths_fit(dtype: TensorType, bytes: nat, elements: nat) -> bool {
    match dtype {
        TensorType::F32 => bytes == elements * 4,
        TensorType::F16 => bytes == elements * 2,
        TensorType::Q8_0 => elements % 32 == 0 && bytes == elements / 32 * 34,
        _ => true,
    }
}

/// Dequantizes a tensor's bytes into a buffer. A format for which there is no
/// dequantization is refused, and the buffer stays.
pub fn dequantize_to_f32<A: Arith>(dtype: TensorType, src: &[u8], dst: &mut [A::Num]) -> (r: Result<
    (),
    QuantError,
>)
    requires
        lengths_fit(dtype, src@.len(), old(dst)@.len()),
    ensures
        final(dst)@.len() == old(dst)@.len(),
        supported(dtype) ==> r == Ok::<(), QuantError>(()) && dequantized_is::<A>(
            dtype,
            src@,
            final(dst)@,
        ),
        !supported(dtype) ==> r == Err::<(), QuantError>(QuantError::Unsupported(dtype))
            && final(dst)@ == old(dst)@,
{
    let n: usize = dst.len();
    let ghost len = src.len();
    match dtype {
        TensorType::F32 => {
            for i in 0..n
                invariant
                    dst@.len() == n,
                    src.len() == n * 4,
                    forall|k: int|
                        0 <= k < i ==> element_is::<A>(
                            TensorType::F32,
                            src@,
                            k,
                            #[trigger] dst@[k],
                        ),
            {
                let bits: u32 = read_u32(src, 4 * i);
                dst[i] = A::from_bits(bits);
            }
        },
        TensorType::F16 => {
            for i in 0..n
                invariant
                    dst@.len() == n,
                    src.len() == n * 2,
                    forall|k: int|
                        0 <= k < i ==> element_is::<A>(
                            TensorType::F16,
                            src@,
                            k,
                            #[trigger] dst@[k],
                        ),
            {
                let h: u16 = read_u16(src, 2 * i);
                dst[i] = half_number::<A>(h);
            }
        },
        TensorType::Q8_0 => dequantize_q8_0::<A>(src, n, dst),
        other => return Err(QuantError::Unsupported(other)),
    }
    Ok(())
}

/// Dequantizes `n` elements of `Q8_0` blocks into the beginning of a buffer.
pub fn dequantize_q8_0<A: Arith>(src: &[u8], n: usize, dst: &mut [A::Num])
    requires
        n % 32 == 0,
        src@.len() == n / 32 * 34,
        n <= old(dst)@.len(),
    ensures
        final(dst)@.len() == old(dst)@.len(),
        forall|i: int| 0 <= i < n ==> q8_0_is::<A>(src@, i, #[trigger] final(dst)@[i]),
        forall|i: int| n <= i < old(dst)@.len() ==> #[trigger] final(dst)@[i] == old(dst)@[i],
{
    let ghost before = dst@;
    let blocks: usize = n / 32;
    for block in 0..blocks
        invariant
            n == blocks * 32,
            src.len() == blocks * 34,
            n <= dst@.len(),
            dst.len() == before.len(),
            forall|i: int| 0 <= i < block * 32 ==> q8_0_is::<A>(src@, i, #[trigger] dst@[i]),
            forall|i: int| block * 32 <= i < before.len() ==> #[trigger] dst@[i] == before[i],
    {
        let at: usize = block * 34;
        let h: u16 = read_u16(src, at);
        let scale = half_number::<A>(h);
        for i in 0..32
            invariant
                block < blocks,
                n == blocks * 32,
                at == block * 34,
                h == le_u16(src@, at as int),
                half_is::<A>(h, scale),
                src.len() == blocks * 34,
                n <= dst@.len(),
                dst.len() == before.len(),
                forall|k: int|
                    0 <= k < block * 32 + i ==> q8_0_is::<A>(src@, k, #[trigger] dst@[k]),
                forall|k: int|
                    block * 32 + i <= k < before.len() ==> #[trigger] dst@[k] == before[k],
        {
            let q: i8 = src[at + 2 + i] as i8;
            let v = A::from_i8(q);
            let r = A::times(scale, v);
            dst[block * 32 + i] = r;
            proof {
                let k = block * 32 + i;
                assert(k / 32 == block && k % 32 == i);
                assert(int_is::<A>(q, v) && product_is::<A>(scale, v, r));
                assert(q8_0_is::<A>(src@, k, r));
            }
        }
    }
}

/// The bytes of whole blocks fit the elements that they hold, and are no fewer.
proof fn lemma_lengths_fit(dtype: TensorType, elements: nat)
    requires
        elements % dtype.elements() == 0,
    ensures
        lengths_fit(dtype, (elements / dtype.elements()) * dtype.bytes(), elements),
        supported(dtype) ==> elements <= (elements / dtype.elements()) * dtype.bytes(),
{
}

impl<'a> Model<'a> {
    /// Dequantizes a tensor. A format for which there is no dequantization is
    /// refused.
    pub fn dequantize<A: Arith>(&self, t: &TensorInfo) -> (r: Result<Vec<A::Num>, QuantError>)
        requires
            self@.holds(self.data@.len(), t@),
            supported(t.dtype) ==> t@.elements() % t.dtype.elements() == 0,
        ensures
            !supported(t.dtype) ==> r == Err::<Vec<A::Num>, QuantError>(
                QuantError::Unsupported(t.dtype),
            ),
            supported(t.dtype) ==> {
                &&& r is Ok
                &&& r->Ok_0@.len() == t@.elements()
                &&& dequantized_is::<A>(
                    t.dtype,
                    self@.tensor_bytes(self.data@, t@),
                    r->Ok_0@,
                )
            },
    {
        let bytes = self.tensor_bytes(t);
        let n: u64 = t.n_elements();
        proof {
            if supported(t.dtype) {
                lemma_lengths_fit(t.dtype, t@.elements());
            }
            assert(bytes.len() == t@.bytes());
        }
        let mut buf: Vec<A::Num> = repeated(A::from_i8(0), n as usize);
        match dequantize_to_f32::<A>(t.dtype, bytes, buf.as_mut_slice()) {
            Ok(()) => Ok(buf),
            Err(e) => Err(e),
        }
    }

    /// Dequantizes row `row` of a tensor, whose rows have as many elements as its
    /// first dimension says.
    pub fn dequantize_row<A: Arith>(&self, t: &TensorInfo, row: usize) -> (r: Result<
        Vec<A::Num>,
        QuantError,
    >)
        requires
            self@.holds(self.data@.len(), t@),
            t@.shape.len() > 0,
            t@.shape[0] % (t.dtype.elements() as u64) == 0,
            t@.shape[0] as usize == t@.shape[0],
            (row + 1) * t@.row_bytes() <= t@.bytes(),
        ensures
            !supported(t.dtype) ==> r == Err::<Vec<A::Num>, QuantError>(
                QuantError::Unsupported(t.dtype),
            ),
            supported(t.dtype) ==> {
                &&& r is Ok
                &&& r->Ok_0@.len() == t@.shape[0]
                &&& dequantized_is::<A>(
                    t.dtype,
                    self@.tensor_bytes(self.data@, t@).subrange(
                        row * t@.row_bytes(),
                        (row + 1) * t@.row_bytes(),
                    ),
                    r->Ok_0@,
                )
            },
    {
        let bytes = self.tensor_bytes(t);
        let n: usize = t.shape[0] as usize;
        let blocks: usize = n / t.dtype.block_elements();
        proof {
            let rb = t@.row_bytes() as int;
            lemma_lengths_fit(t.dtype, t@.shape[0] as nat);
            assert(bytes.len() == t@.bytes());
            assert((row + 1) * rb == row * rb + rb && 0 <= row * rb) by (nonlinear_arith)
                requires
                    0 <= rb,
                    0 <= row,
            ;
        }
        let row_bytes: usize = blocks * t.dtype.block_bytes();
        let from: usize = row * row_bytes;
        let part = vstd::slice::slice_subrange(bytes, from, from + row_bytes);
        let mut buf: Vec<A::Num> = repeated(A::from_i8(0), n);
        match dequantize_to_f32::<A>(t.dtype, part, buf.as_mut_slice()) {
            Ok(()) => Ok(buf),
            Err(e) => Err(e),
        }
    }
}

impl TensorView {
    /// How many bytes one row takes.
    pub open spec fn row_bytes(self) -> nat {
        (self.shape[0] as nat / self.dtype.elements()) * self.dtype.bytes()
    }
}

/// Why a tensor cannot be loaded.
#[derive(Debug, Clone, Copy, PartialEq, Eq, Structural)]
pub enum TensorError {
    /// The model has no tensor of this name.
    Missing,
    /// The file does not hold all bytes of the tensor, or they end within a
    /// block.
    Unreadable,
    /// The tensor cannot be dequantized.
    Quant(QuantError),
}

/// What keeps the tensor of a name from being loaded, if anything, from a model
/// file of `len` bytes.
pub open spec fn tensor_error(model: ModelView, len: nat, name: Seq<char>) -> Option<TensorError> {
    match tensor_named(model.tensors, name) {
        None => Some(TensorError::Missing),
        Some(t) => if !model.holds(len, t) || supported(t.dtype) && t.elements()
            % t.dtype.elements() != 0 {
            Some(TensorError::Unreadable)
        } else if !supported(t.dtype) {
            Some(TensorError::Quant(QuantError::Unsupported(t.dtype)))
        } else {
            None
        },
    }
}

/// `numbers` is an outcome of dequantizing the tensor of a name.
pub open spec fn tensor_is<A: Arith>(
    model: ModelView,
    data: Seq<u8>,
    name: Seq<char>,
    numbers: Seq<A::Num>,
) -> bool {
    let t = tensor_named(model.tensors, name)->0;
    &&& numbers.len() == t.elements()
    &&& dequantized_is::<A>(t.dtype, model.tensor_bytes(data, t), numbers)
}

impl<'a> Model<'a> {
    /// Finds a tensor by its name and dequantizes it.
    pub fn load_tensor<A: Arith>(&self, name: &str) -> (r: Result<Vec<A::Num>, TensorError>)
        ensures
            match tensor_error(self@, self.data@.len(), name@) {
                Some(e) => r == Err::<Vec<A::Num>, TensorError>(e),
                None => r is Ok && tensor_is::<A>(self@, self.data@, name@, r->Ok_0@),
            },
    {
        let t = match self.tensor(name) {
            Some(t) => t,
            None => return Err(TensorError::Missing),
        };
        if !self.holds_tensor(t) {
            return Err(TensorError::Unreadable);
        }
        match t.dtype {
            TensorType::F32 | TensorType::F16 | TensorType::Q8_0 => {
                if t.n_elements() % t.dtype.block_elements() as u64 != 0 {
                    return Err(TensorError::Unreadable);
                }
            },
            _ => {},
        }
        match self.dequantize::<A>(t) {
            Ok(numbers) => Ok(numbers),
            Err(e) => Err(TensorError::Quant(e)),
        }
    }
}

} // verus!
