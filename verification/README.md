# qlora

QLoRA in Verus: 4-bit NF4 quantization with double quantization, LoRA
adapters, fused linear layers with their gradients, a paged 8-bit Adam, the
`.npy`, `.npz` and `.safetensors` formats, a byte-level BPE tokenizer and a
small Llama decoder. Every function in `src/` is verified, except six short
wrappers whose contracts are trusted: four in `src/text.rs` around `std`'s text
conversions and two in `src/tokenizer/words.rs` around `fancy_regex`. Two more
contracts of `std` functions are trusted in `src/text.rs`, those of `String::push` and
`char::from_u32`.

Numbers are IEEE-754 bit patterns (`u32` for binary32): `src/ieee.rs` says what
rounding is, `src/single.rs` implements the operations, and the contracts of
everything else are exact to the last bit. The elementary functions that the
standard leaves open (`exp`, `ln`, `powf`, `cos`, `sin`) are handed in, and so
are the GPU kernels; contracts then speak of whatever came back.

| Place | What it holds |
|---|---|
| `src/quant.rs`, `src/lora.rs`, `src/qlora.rs`, `src/optim.rs` | quantization, adapters, layers, optimizer |
| `src/io/` | weight files |
| `src/tokenizer/` | JSON and BPE |
| `src/model/` | the decoder: loading, forward, backward, loss |
| `src/gpu.rs`, `src/gpu_laws.rs`, `src/bindings.rs` | kernel planning, flat-list interface |
| `src/ieee.rs`, `src/single.rs`, `src/double.rs`, `src/widths.rs`, `src/natural.rs` | arithmetic |
| `src/bytes.rs`, `src/scan.rs`, `src/text.rs` | bytes and text |
| `app/` | WGPU, PyO3, native elementary functions, examples |
