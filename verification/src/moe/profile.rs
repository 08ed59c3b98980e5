//! MoE execution backends and the GPU description of a bandwidth profile.

use vstd::prelude::*;

verus! {

/// MoE execution backend mode.
#[derive(Debug, Clone, Copy, PartialEq, Eq, Structural)]
pub enum MoeBackend {
    /// Stream all missing experts over PCIe to GPU slot cache; compute GEMM on GPU.
    Offload,
    /// Compute all missing experts on host CPU; stream activations and results.
    Cpu,
    /// Balanced hybrid: stream `fetch_fraction * misses` to GPU; overflow misses compute on CPU concurrently.
    Hybrid,
}

impl MoeBackend {
    /// The backend's name as it is displayed and serialized.
    pub open spec fn name(self) -> Seq<char> {
        match self {
            MoeBackend::Offload => "offload"@,
            MoeBackend::Cpu => "cpu"@,
            MoeBackend::Hybrid => "hybrid"@,
        }
    }

    /// The backend's name: `offload`, `cpu` or `hybrid`.
    pub fn as_str(self) -> (s: &'static str)
        ensures
            s@ == self.name(),
    {
        match self {
            MoeBackend::Offload => "offload",
            MoeBackend::Cpu => "cpu",
            MoeBackend::Hybrid => "hybrid",
        }
    }
}

/// Metadata describing the GPU device used for profiling.
#[derive(Debug, Clone, PartialEq, Eq)]
pub struct GpuProfileInfo {
    /// Device product name (e.g. "NVIDIA GeForce RTX 3060 Laptop GPU").
    pub name: String,
    /// Major and minor compute capability (e.g. "8.6").
    pub compute_capability: String,
    /// Total VRAM bytes reported by the driver.
    pub total_memory_bytes: usize,
}

} // verus!
