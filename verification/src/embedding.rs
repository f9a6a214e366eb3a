//! Looking token embeddings up in a model.

use vstd::prelude::*;

use crate::arith::Arith;
use crate::gguf::{tensor_named, Model, ModelView, TensorInfo, TensorView};
use crate::quant::{dequantized_is, supported, QuantError};

verus! {

/// Why a token has no embedding.
#[derive(Debug, Clone, Copy, PartialEq, Eq, Structural)]
pub enum EmbedError {
    /// The model has no embedding table.
    NoTable,
    /// The table does not have two dimensions.
    Shape,
    /// There is no token with this id.
    OutOfRange { id: usize, vocab: usize },
    /// The file does not hold all bytes of the table, or its rows end within a
    /// block.
    Unreadable,
    /// The table cannot be dequantized.
    Quant(QuantError),
}

/// The embedding table of a model.
pub open spec fn table_of(model: ModelView) -> Option<TensorView> {
    tensor_named(model.tensors, "token_embd.weight"@)
}

/// The rows of a table can be read, row `id` among them.
pub open spec fn row_readable(model: ModelView, len: nat, t: TensorView, id: int) -> bool {
    &&& model.holds(len, t)
    &&& t.shape[0] % (t.dtype.elements() as u64) == 0
    &&& t.shape[0] as usize == t.shape[0]
    &&& (id + 1) * t.row_bytes() <= t.bytes()
}

/// What keeps a token from having an embedding, if anything, in a model file of
/// `len` bytes.
pub open spec fn embed_error(model: ModelView, len: nat, id: usize) -> Option<EmbedError> {
    match table_of(model) {
        None => Some(EmbedError::NoTable),
        Some(t) => if t.shape.len() != 2 {
            Some(EmbedError::Shape)
        } else if id >= t.shape[1] as usize {
            Some(EmbedError::OutOfRange { id, vocab: t.shape[1] as usize })
        } else if !row_readable(model, len, t, id as int) {
            Some(EmbedError::Unreadable)
        } else if !supported(t.dtype) {
            Some(EmbedError::Quant(QuantError::Unsupported(t.dtype)))
        } else {
            None
        },
    }
}

/// The embedding table of a model, with its two dimensions: the length of an
/// embedding, and the number of tokens.
pub fn embedding_table<'m>(model: &'m Model<'_>) -> (r: Result<
    (&'m TensorInfo, usize, usize),
    EmbedError,
>)
    ensures
        match table_of(model@) {
            None => r == Err::<(&'m TensorInfo, usize, usize), EmbedError>(EmbedError::NoTable),
            Some(t) => if t.shape.len() != 2 {
                r == Err::<(&'m TensorInfo, usize, usize), EmbedError>(EmbedError::Shape)
            } else {
                &&& r is Ok
                &&& r->Ok_0.0@ == t
                &&& r->Ok_0.1 == t.shape[0] as usize
                &&& r->Ok_0.2 == t.shape[1] as usize
            },
        },
{
    match model.tensor("token_embd.weight") {
        None => Err(EmbedError::NoTable),
        Some(t) => if t.shape.len() != 2 {
            Err(EmbedError::Shape)
        } else {
            Ok((t, t.shape[0] as usize, t.shape[1] as usize))
        },
    }
}

/// The embedding of a token.
pub fn embed<A: Arith>(model: &Model<'_>, id: usize) -> (r: Result<Vec<A::Num>, EmbedError>)
    ensures
        match embed_error(model@, model.data@.len(), id) {
            Some(e) => r == Err::<Vec<A::Num>, EmbedError>(e),
            None => {
                let t = table_of(model@)->0;
                &&& r is Ok
                &&& r->Ok_0@.len() == t.shape[0]
                &&& dequantized_is::<A>(
                    t.dtype,
                    model@.tensor_bytes(model.data@, t).subrange(
                        id * t.row_bytes(),
                        (id + 1) * t.row_bytes(),
                    ),
                    r->Ok_0@,
                )
            },
        },
{
    let (t, hidden, vocab) = embedding_table(model)?;
    if id >= vocab {
        return Err(EmbedError::OutOfRange { id, vocab });
    }
    if !model.holds_tensor(t) || t.shape[0] % t.dtype.block_elements() as u64 != 0 || hidden as u64
        != t.shape[0] {
        return Err(EmbedError::Unreadable);
    }
    assert(id < usize::MAX);
    let bytes: &[u8] = model.tensor_bytes(t);
    let blocks: usize = hidden / t.dtype.block_elements();
    match blocks.checked_mul(t.dtype.block_bytes()) {
        Some(row_bytes) => match row_bytes.checked_mul(id + 1) {
            Some(end) => {
                assert(row_bytes * (id + 1) == (id + 1) * row_bytes) by (nonlinear_arith);
                if end > bytes.len() {
                    return Err(EmbedError::Unreadable);
                }
            },
            None => {
                assert(row_bytes * (id + 1) == (id + 1) * row_bytes) by (nonlinear_arith);
                assert(bytes.len() <= usize::MAX);
                return Err(EmbedError::Unreadable);
            },
        },
        None => {
            proof {
                let rb = t@.row_bytes() as int;
                assert((id + 1) * rb >= rb) by (nonlinear_arith)
                    requires
                        id >= 0,
                        rb >= 0,
                ;
                assert(bytes.len() <= usize::MAX);
            }
            return Err(EmbedError::Unreadable);
        },
    }
    match model.dequantize_row::<A>(t, id) {
        Ok(row) => Ok(row),
        Err(e) => Err(EmbedError::Quant(e)),
    }
}

} // verus!
