//! Weight tensor descriptions of the CPU reference bank.

use vstd::prelude::*;

verus! {

/// Tensor quantization formats understood by the CPU bank.
#[derive(Debug, Clone, Copy, PartialEq, Eq, Structural)]
pub enum TensorType {
    /// 32-bit float (embedding / norms / head).
    F32,
    /// 16-bit float.
    F16,
    /// Q8_0: 32-element blocks (`[f16 d][int8 qs x32]`).
    Q8,
    /// Q4_K: 256-element super-blocks (144 bytes).
    Q4K,
    /// Q6_K: 256-element super-blocks (210 bytes).
    Q6K,
}

/// A 2-D weight matrix stored GGUF-style: `dims[0] = ne0` (contiguous,
/// block-quantized reduction dim = input), `dims[1] = ne1` (output).
#[derive(Debug, Clone, Copy)]
pub struct Tensor<'a> {
    /// Quantization format of the weight data.
    pub ty: TensorType,
    /// Raw quantized weight bytes: `ne1` columns of `ne0` elements each.
    pub data: &'a [u8],
    /// Number of input (reduction) elements per column.
    pub ne0: usize,
    /// Number of output columns.
    pub ne1: usize,
    /// Number of rotary dims (head_dim/2 for Qwen3), used by the caller.
    pub n_rot: usize,
}

} // verus!
