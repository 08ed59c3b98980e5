//! MoE VRAM budget planner and prefill double buffer.
//!
//! Budget policy:
//! 1. Reserve the static weights, the KV cache and the activations first.
//! 2. Reserve a double buffer of two expert slices for prefill streaming when it
//!    fits, else a single slice.
//! 3. Spend the rest on resident GPU expert slots: as many per layer as fit,
//!    at most one per expert.
//! 4. The total allocated never exceeds the budget.

use vstd::prelude::*;
use crate::error::EngineError;
use crate::text::{decimal, push_decimal, push_str};

verus! {

/// Breakdown and allocation result produced by the MoE budget planner.
#[derive(Debug, Clone, PartialEq, Eq)]
pub struct MoeBudgetPlan {
    /// Total VRAM budget available (bytes).
    pub total_vram_budget_bytes: usize,
    /// Base non-expert weights (bytes).
    pub static_weights_bytes: usize,
    /// KV cache memory reserved (bytes).
    pub kv_reserved_bytes: usize,
    /// Activation workspace memory (bytes).
    pub activations_bytes: usize,
    /// Prefill streaming double buffer size (bytes).
    pub prefill_double_buffer_bytes: usize,
    /// Memory allocated to resident GPU expert slots (bytes).
    pub expert_slots_bytes: usize,
    /// Number of GPU expert slots allocated per layer.
    pub n_slots_per_layer: usize,
    /// Whether prefill overlap is feasible under this budget.
    pub prefill_overlap_feasible: bool,
    /// Total VRAM allocated across all stages.
    pub total_allocated_bytes: usize,
}

impl MoeBudgetPlan {
    /// Returns remaining unallocated VRAM headroom in bytes.
    pub fn free_headroom_bytes(&self) -> (h: usize)
        ensures
            h == if self.total_allocated_bytes <= self.total_vram_budget_bytes {
                self.total_vram_budget_bytes - self.total_allocated_bytes
            } else {
                0
            },
    {
        self.total_vram_budget_bytes.saturating_sub(self.total_allocated_bytes)
    }
}

/// The message reported when the base requirements overflow.
pub open spec fn overflow_message() -> Seq<char> {
    "Integer overflow in base VRAM calculation"@
}

/// The message reported when the base requirements exceed the budget.
pub open spec fn exceeds_message(base: nat, budget: nat) -> Seq<char> {
    "Base VRAM requirements ("@ + decimal(base) + " bytes) exceed total budget ("@ + decimal(budget)
        + " bytes)"@
}

/// The message reported when even the single prefill buffer does not fit
/// after the base requirements: the budget invariant would be violated.
pub open spec fn violation_message(allocated: nat, budget: nat) -> Seq<char> {
    "Budget invariant violated: allocated "@ + decimal(allocated) + " > budget "@ + decimal(budget)
}

/// The plan for a budget whose base requirements `base` fit into it.
pub open spec fn planned(
    total: usize,
    static_weights: usize,
    kv: usize,
    activations: usize,
    n_layers: usize,
    n_experts_per_layer: usize,
    slice: usize,
) -> MoeBudgetPlan {
    let base = static_weights + kv + activations;
    let remaining = total - base;
    let feasible = remaining >= 2 * slice;
    let prefill = if feasible { 2 * slice } else { slice as int };
    let cost = n_layers * slice;
    let for_slots = remaining - prefill;
    let n_slots = if cost == 0 {
        0
    } else if for_slots / cost < n_experts_per_layer {
        for_slots / cost
    } else {
        n_experts_per_layer as int
    };
    MoeBudgetPlan {
        total_vram_budget_bytes: total,
        static_weights_bytes: static_weights,
        kv_reserved_bytes: kv,
        activations_bytes: activations,
        prefill_double_buffer_bytes: prefill as usize,
        expert_slots_bytes: (n_slots * cost) as usize,
        n_slots_per_layer: n_slots as usize,
        prefill_overlap_feasible: feasible,
        total_allocated_bytes: (base + prefill + n_slots * cost) as usize,
    }
}

/// The prefill buffer: whenever what remains after the base requirements
/// holds two expert slices, the plan overlaps prefill with a double buffer of
/// two slices; otherwise it falls back to a single slice.
pub proof fn lemma_prefill_double_buffer_when_it_fits(
    total: usize,
    static_weights: usize,
    kv: usize,
    activations: usize,
    n_layers: usize,
    n_experts_per_layer: usize,
    slice: usize,
)
    requires
        static_weights + kv + activations <= total,
        2 * slice <= usize::MAX,
    ensures
        ({
            let p = planned(total, static_weights, kv, activations, n_layers, n_experts_per_layer, slice);
            let remaining = total - (static_weights + kv + activations);
            &&& remaining >= 2 * slice ==> p.prefill_overlap_feasible && p.prefill_double_buffer_bytes
                == 2 * slice
            &&& remaining < 2 * slice ==> !p.prefill_overlap_feasible && p.prefill_double_buffer_bytes
                == slice
        }),
{
}

/// Computes the optimal MoE VRAM allocation plan.
///
/// Fails when the base requirements (static weights, KV cache, activations)
/// overflow or exceed the budget, and when not even a single prefill buffer
/// fits after them (the plan would break the budget invariant).
pub fn plan_moe_vram_budget(
    total_vram_budget_bytes: usize,
    static_weights_bytes: usize,
    kv_reserved_bytes: usize,
    activations_bytes: usize,
    n_layers: usize,
    n_experts_per_layer: usize,
    expert_slice_size_bytes: usize,
) -> (r: Result<MoeBudgetPlan, EngineError>)
    requires
        2 * expert_slice_size_bytes <= usize::MAX,
        n_layers * expert_slice_size_bytes <= usize::MAX,
        static_weights_bytes + kv_reserved_bytes + activations_bytes > total_vram_budget_bytes
            || static_weights_bytes + kv_reserved_bytes + activations_bytes + expert_slice_size_bytes
            <= usize::MAX,
    ensures
        ({
            let base = static_weights_bytes + kv_reserved_bytes + activations_bytes;
            &&& base > usize::MAX ==> (r matches Err(EngineError::Validation(m)) && m@ == overflow_message())
            &&& base <= usize::MAX && base > total_vram_budget_bytes ==> (r matches Err(
                EngineError::Validation(m),
            ) && m@ == exceeds_message(base as nat, total_vram_budget_bytes as nat))
            &&& base <= total_vram_budget_bytes < base + expert_slice_size_bytes ==> (r matches Err(
                EngineError::Validation(m),
            ) && m@ == violation_message(
                (base + expert_slice_size_bytes) as nat,
                total_vram_budget_bytes as nat,
            ))
            &&& base + expert_slice_size_bytes <= total_vram_budget_bytes ==> r == Ok::<
                MoeBudgetPlan,
                EngineError,
            >(
                planned(
                    total_vram_budget_bytes,
                    static_weights_bytes,
                    kv_reserved_bytes,
                    activations_bytes,
                    n_layers,
                    n_experts_per_layer,
                    expert_slice_size_bytes,
                ),
            )
        }),
        r matches Ok(plan) ==> {
            &&& plan.total_allocated_bytes <= total_vram_budget_bytes
            &&& plan.kv_reserved_bytes == kv_reserved_bytes
            &&& plan.static_weights_bytes == static_weights_bytes
            &&& plan.n_slots_per_layer <= n_experts_per_layer
            &&& plan.expert_slots_bytes == plan.n_slots_per_layer * (n_layers * expert_slice_size_bytes)
            &&& (plan.n_slots_per_layer == n_experts_per_layer || n_layers * expert_slice_size_bytes
                == 0 || plan.total_allocated_bytes + n_layers * expert_slice_size_bytes
                > total_vram_budget_bytes)
        },
{
    let fixed_base_bytes = match static_weights_bytes.checked_add(kv_reserved_bytes) {
        Some(s) => match s.checked_add(activations_bytes) {
            Some(t) => t,
            None => {
                return Err(
                    EngineError::Validation(
                        String::from_str("Integer overflow in base VRAM calculation"),
                    ),
                );
            },
        },
        None => {
            return Err(
                EngineError::Validation(
                    String::from_str("Integer overflow in base VRAM calculation"),
                ),
            );
        },
    };

    if fixed_base_bytes > total_vram_budget_bytes {
        let mut msg = String::from_str("Base VRAM requirements (");
        push_decimal(&mut msg, fixed_base_bytes);
        push_str(&mut msg, " bytes) exceed total budget (");
        push_decimal(&mut msg, total_vram_budget_bytes);
        push_str(&mut msg, " bytes)");
        return Err(EngineError::Validation(msg));
    }

    let remaining_for_moe = total_vram_budget_bytes - fixed_base_bytes;

    // Prefill double buffer requires 2 expert blocks
    let double_buffer_bytes = 2 * expert_slice_size_bytes;
    let prefill_overlap_feasible = remaining_for_moe >= double_buffer_bytes;

    let prefill_bytes = if prefill_overlap_feasible {
        double_buffer_bytes
    } else {
        expert_slice_size_bytes  // single buffer fallback

    };

    let remaining_for_slots = remaining_for_moe.saturating_sub(prefill_bytes);

    // Single slot across all layers costs: n_layers * expert_slice_size_bytes
    let layer_slot_cost_bytes = n_layers * expert_slice_size_bytes;

    let n_slots_per_layer = if layer_slot_cost_bytes == 0 {
        0
    } else {
        let slots = remaining_for_slots / layer_slot_cost_bytes;
        if slots < n_experts_per_layer {
            slots
        } else {
            n_experts_per_layer
        }
    };
    proof {
        if layer_slot_cost_bytes > 0 {
            let q = remaining_for_slots as int / layer_slot_cost_bytes as int;
            assert(q * layer_slot_cost_bytes <= remaining_for_slots
                && remaining_for_slots < q * layer_slot_cost_bytes + layer_slot_cost_bytes)
                by (nonlinear_arith)
                requires
                    q == remaining_for_slots as int / layer_slot_cost_bytes as int,
                    layer_slot_cost_bytes > 0,
            ;
            assert(n_slots_per_layer * layer_slot_cost_bytes <= q * layer_slot_cost_bytes)
                by (nonlinear_arith)
                requires
                    n_slots_per_layer <= q,
                    layer_slot_cost_bytes > 0,
            ;
        }
    }

    let expert_slots_bytes = n_slots_per_layer * layer_slot_cost_bytes;
    let total_allocated_bytes = fixed_base_bytes + prefill_bytes + expert_slots_bytes;
    if total_allocated_bytes > total_vram_budget_bytes {
        let mut msg = String::from_str("Budget invariant violated: allocated ");
        push_decimal(&mut msg, total_allocated_bytes);
        push_str(&mut msg, " > budget ");
        push_decimal(&mut msg, total_vram_budget_bytes);
        return Err(EngineError::Validation(msg));
    }

    Ok(
        MoeBudgetPlan {
            total_vram_budget_bytes,
            static_weights_bytes,
            kv_reserved_bytes,
            activations_bytes,
            prefill_double_buffer_bytes: prefill_bytes,
            expert_slots_bytes,
            n_slots_per_layer,
            prefill_overlap_feasible,
            total_allocated_bytes,
        },
    )
}

/// Ping-pong double buffer for overlapping host-to-device streaming and compute.
#[derive(Debug)]
pub struct PrefillDoubleBuffer<T> {
    buf_a: T,
    buf_b: T,
    active_is_a: bool,
}

impl<T> PrefillDoubleBuffer<T> {
    /// The buffer currently receiving transfers.
    pub closed spec fn transfer(&self) -> T {
        if self.active_is_a {
            self.buf_b
        } else {
            self.buf_a
        }
    }

    /// The buffer currently read by compute.
    pub closed spec fn compute(&self) -> T {
        if self.active_is_a {
            self.buf_a
        } else {
            self.buf_b
        }
    }

    /// Wraps two allocated buffers into a ping-pong double buffer; `buf_a`
    /// starts as the compute source and `buf_b` as the transfer target.
    pub fn new(buf_a: T, buf_b: T) -> (d: Self)
        ensures
            d.compute() == buf_a,
            d.transfer() == buf_b,
    {
        PrefillDoubleBuffer { buf_a, buf_b, active_is_a: true }
    }

    /// Returns references to (transfer_target, compute_source).
    pub fn ping_pong_pair(&self) -> (p: (&T, &T))
        ensures
            *p.0 == self.transfer(),
            *p.1 == self.compute(),
    {
        if self.active_is_a {
            (&self.buf_b, &self.buf_a)
        } else {
            (&self.buf_a, &self.buf_b)
        }
    }

    /// Returns mutable references to (transfer_target, compute_source).
    pub fn ping_pong_pair_mut(&mut self) -> (p: (&mut T, &mut T))
        ensures
            *p.0 == old(self).transfer(),
            *p.1 == old(self).compute(),
            final(self).transfer() == *final(p.0),
            final(self).compute() == *final(p.1),
    {
        if self.active_is_a {
            (&mut self.buf_b, &mut self.buf_a)
        } else {
            (&mut self.buf_a, &mut self.buf_b)
        }
    }

    /// Swaps the active buffer roles.
    pub fn swap(&mut self)
        ensures
            final(self).transfer() == old(self).compute(),
            final(self).compute() == old(self).transfer(),
    {
        self.active_is_a = !self.active_is_a;
    }
}

/// Two swaps give back the original roles.
pub proof fn lemma_double_swap_restores<T>(
    d0: PrefillDoubleBuffer<T>,
    d1: PrefillDoubleBuffer<T>,
    d2: PrefillDoubleBuffer<T>,
)
    requires
        d1.transfer() == d0.compute(),
        d1.compute() == d0.transfer(),
        d2.transfer() == d1.compute(),
        d2.compute() == d1.transfer(),
    ensures
        d2.transfer() == d0.transfer(),
        d2.compute() == d0.compute(),
{
}

} // verus!
