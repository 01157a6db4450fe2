//! QLoRA: frozen 4-bit quantized base weights (NF4, block-wise, with double
//! quantization) and trainable low-rank adapters (LoRA), with weight files, a
//! tokenizer and a small Llama model around them.
//!
//! ```text
//! Y = X · dequant(W_q)^T + (alpha / r) · (X · A^T) · B^T
//! ```
//!
//! with `X: (m, k)`, `W_q: (n, k)` quantized, `A: (r, k)`, `B: (n, r)`.
//!
//! Numbers are IEEE-754 bit patterns: a `u32` is a binary32 value, and every
//! rounding is part of what is proved. The functions whose results the
//! standard leaves open (exponentials, logarithms, powers, sines) and the GPU
//! are handed in by the caller.
use vstd::prelude::*;

pub mod bindings;
pub mod bindings_laws;
pub mod bytes;
pub mod double;
pub mod error;
pub mod float_laws;
pub mod gpu;
pub mod gpu_laws;
pub mod ieee;
pub mod io;
pub mod lora;
pub mod lora_laws;
pub mod model;
pub mod motion_laws;
pub mod natural;
pub mod optim;
pub mod optim_laws;
pub mod qlora;
pub mod quant;
pub mod quant_laws;
pub mod scan;
pub mod single;
pub mod text;
pub mod tokenizer;
pub mod widths;

pub use error::QloraError;
pub use lora::LoraAdapter;
pub use optim::{Adam8bit, AdamConfig, AdamStats};
pub use qlora::{QloraGrads, QloraLinear};
pub use quant::{QuantConfig, QuantizedTensor};

verus! {

} // verus!
