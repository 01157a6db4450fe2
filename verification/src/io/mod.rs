//! Weight interchange: NumPy `.npy` and `.npz`, and `.safetensors`.
//!
//! Array data is held as binary32 bit patterns.
use vstd::prelude::*;

pub mod error;
pub mod header_laws;
pub mod npy;
pub mod npy_laws;
pub mod npz;
pub mod npz_laws;
pub mod safetensors;
pub mod value_laws;
pub mod zip_laws;

pub use error::IoError;
pub use npy::write_npy_bytes as write_npy;
pub use npz::{read_npy, read_npz, write_npz, NamedArray};
pub use safetensors::read_safetensors;

verus! {

} // verus!
