//! Llama decoder with QLoRA adapters: embedding gather, blocks of RMSNorm,
//! grouped-query attention with RoPE, SwiGLU MLP and residuals, a final norm
//! and a tied head.
//!
//! Any of the seven per-layer projections can carry a LoRA adapter (standard:
//! Q and V). Only adapter matrices get gradients; the base weights stay
//! frozen. Weights are row-major `(out, in)`; RoPE uses `rotate_half` with
//! `inv_freq[i] = theta^(-2i/d)`; the attention scale is `1/sqrt(head_dim)`.
use vstd::prelude::*;

pub mod attention;
pub mod attention_grad;
pub mod attention_laws;
pub mod block;
pub mod block_grad;
pub mod causal;
pub mod config;
pub mod grad_laws;
pub mod init;
pub mod laws;
pub mod llama;
pub mod load_laws;
pub mod loss;
pub mod loss_laws;
pub mod norm;
pub mod pass_laws;
pub mod rope;
pub mod run;
pub mod train;
pub mod train_laws;
pub mod weights;

pub use block::Tables;
pub use block_grad::AdapterGrad;
pub use config::{AdapterConfig, LlamaConfig, LoadError, ProjKind};
pub use llama::LlamaModel;
pub use loss::softmax_cross_entropy;
pub use rope::rope_tables;
pub use weights::{LayerWeights, Proj};

verus! {

} // verus!
