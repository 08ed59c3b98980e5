//! MoE expert streaming: execution backends, host expert bank, slot cache,
//! VRAM budget planning.

pub mod budget_planner;
pub mod cpu_executor;
pub mod expert_bank;
pub mod profile;
pub mod slot_cache;

pub use budget_planner::{MoeBudgetPlan, PrefillDoubleBuffer, plan_moe_vram_budget};
pub use cpu_executor::CpuMoeConfig;
pub use expert_bank::{ExpertTensorDesc, HostExpertBank};
pub use profile::{GpuProfileInfo, MoeBackend};
pub use slot_cache::{ExpertSlotCache, LayerCacheStats, RewrittenRouting, balanced_fetch};
