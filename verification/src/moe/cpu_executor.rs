//! Configuration of CPU execution of overflow experts.

use vstd::prelude::*;

verus! {

/// Configuration for CPU MoE execution.
#[derive(Debug, Clone, Copy, PartialEq, Eq, Structural)]
pub struct CpuMoeConfig {
    pub layer: usize,
    pub hidden_dim: usize,
    pub intermediate_dim: usize,
}

} // verus!
