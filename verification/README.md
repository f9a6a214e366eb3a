# annapura

ML systems and accelerator co-design in verified Rust: the stack between a
transformer model file and the silicon that runs it, with every piece built by
hand and proved with Verus.

## What is proved

The kernels are written over the trait `arith::Arith`, which stands for the scalar
arithmetic. Nothing is assumed of it. The contracts say which operations are
applied to which operands in which order, so they hold for `f32` with all its
rounding; for an arithmetic whose operations have one outcome each they fix the
results completely.

| Module | What its contracts state |
|---|---|
| `gguf`, `metadata` | the GGUF v3 grammar: a file is parsed exactly to the model it spells, or to the first error in it; nothing behind the tensor table is read |
| `quant` | every element of an F32, F16 or Q8_0 tensor; 16-bit floats widen without loss |
| `tokenizer`, `text`, `generate` | the bytes of a token, the text of a byte stream, when generation stops |
| `matmul`, `nn`, `attention`, `transformer` | the kernels of a Llama block, up to the whole forward pass of a token |
| `accelerator` | what each instruction does to the machine, and which faults it has |
| `compiler`, `simulate`, `exact` | compiled programs run without faults and leave in SRAM what the CPU kernels compute |
| `field` | over the real numbers: rotations keep lengths and add up, softmax and attention patterns are positive and sum to one, normalised vectors have unit mean square, predicted time is inverse to the clock |
| `perf_model`, `roofline` | how long programs and models are predicted to take |
| `stats`, `inspect`, `embedding` | statistics, histograms, embedding lookup |

Public proof functions whose names begin with `law_` state what holds across
functions: that the matmul kernels agree, that a compiled matrix-vector product
agrees with the CPU, that a cache gives back what was stored in it, and so on.

Two functions of the standard library are called behind wrappers whose contracts
are trusted: `core::str::from_utf8` and `String::from_utf8_lossy`, both in `text`.

## Layout

- `src/`: the library
- `tests/`: its tests, on `f32` and `f64`
- `app/`: the command line: `inspect`, `embed`, `forward`, `generate`, `roofline`
  and `run_on_sim`. It maps model files into memory and prints.
