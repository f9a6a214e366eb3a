//! Annapura: ML systems and accelerator co-design, from the model file to a toy
//! accelerator.
//!
//! - Model files: [`gguf`] reads them, [`metadata`] and [`inspect`] look at what
//!   they say, [`quant`] turns tensors into numbers, [`embedding`] and
//!   [`tokenizer`] know their tokens, [`text`] cuts byte streams into text.
//! - Kernels: [`arith`] is the arithmetic that they are written over, [`matmul`],
//!   [`nn`], [`attention`] and [`transformer`] are the layers of a Llama model,
//!   [`generate`] decides on the next token, [`stats`] compares results.
//! - Accelerator: [`accelerator`] is the machine, [`compiler`] lowers operations
//!   to its programs, [`simulate`] runs them, [`perf_model`] and [`roofline`]
//!   predict how long they take.
//! - Without rounding: [`exact`] says what kernels and programs compute where the
//!   arithmetic is exact, [`field`] what they promise over the real numbers.
//! - Written out: [`plain`] gives the results of the kernels as expressions over
//!   their inputs, [`steps`] and [`programs`] what instructions and programs leave in
//!   the machine, [`forward`] how a token goes through a model, and [`format`] which
//!   bytes of a model file hold what.

pub mod accelerator;
pub mod arith;
pub mod attention;
pub mod buffer;
pub mod compiler;
pub mod embedding;
pub mod exact;
pub mod field;
pub mod format;
pub mod forward;
pub mod generate;
pub mod gguf;
pub mod inspect;
pub mod matmul;
pub mod metadata;
pub mod nn;
pub mod perf_model;
pub mod plain;
pub mod programs;
pub mod quant;
pub mod roofline;
pub mod simulate;
pub mod stats;
pub mod steps;
pub mod text;
pub mod tokenizer;
pub mod transformer;

pub use matmul::{matmul_blocked, matmul_ikj, matmul_naive};
