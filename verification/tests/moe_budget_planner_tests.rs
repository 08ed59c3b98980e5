use engine_core::moe::{plan_moe_vram_budget, PrefillDoubleBuffer};
use engine_core::EngineError;

#[test]
fn test_plan_moe_vram_budget_sweeps_and_invariants() {
    const N_LAYERS: usize = 24;
    const N_EXPERTS_PER_LAYER: usize = 64;
    const EXPERT_SLICE_BYTES: usize = 2 * 1024 * 1024; // 2 MB per expert

    let base_weights = 1024 * 1024 * 1024; // 1.0 GB base non-expert
    let kv_reserved = 512 * 1024 * 1024; // 512 MB KV reserve
    let activations = 64 * 1024 * 1024; // 64 MB activations

    // Test across various budget envelopes: 2.0 GB, 4.0 GB, 6.0 GB, 16.0 GB
    for budget_gb in [2.0f64, 4.0, 6.0, 16.0] {
        let budget_bytes = (budget_gb * 1024.0 * 1024.0 * 1024.0) as usize;
        let plan = plan_moe_vram_budget(
            budget_bytes,
            base_weights,
            kv_reserved,
            activations,
            N_LAYERS,
            N_EXPERTS_PER_LAYER,
            EXPERT_SLICE_BYTES,
        )
        .expect("plan budget");

        assert!(
            plan.total_allocated_bytes <= budget_bytes,
            "allocated {} exceeded budget {}",
            plan.total_allocated_bytes,
            budget_bytes
        );
        assert_eq!(plan.kv_reserved_bytes, kv_reserved);
        assert_eq!(plan.static_weights_bytes, base_weights);
        assert!(plan.n_slots_per_layer <= N_EXPERTS_PER_LAYER);
        assert!(plan.free_headroom_bytes() <= budget_bytes);
        let utilization_pct = if plan.total_vram_budget_bytes == 0 {
            0.0
        } else {
            (plan.total_allocated_bytes as f64 / plan.total_vram_budget_bytes as f64) * 100.0
        };
        assert!(utilization_pct <= 100.0);
    }
}

#[test]
fn test_plan_moe_vram_budget_exceeds_budget_error() {
    let budget_bytes = 1024 * 1024 * 1024; // 1 GB
    let base_weights = 800 * 1024 * 1024; // 800 MB
    let kv_reserved = 400 * 1024 * 1024; // 400 MB (Total 1.2 GB > 1.0 GB)
    let activations = 64 * 1024 * 1024;

    let res = plan_moe_vram_budget(
        budget_bytes,
        base_weights,
        kv_reserved,
        activations,
        12,
        8,
        1024 * 1024,
    );
    assert!(res.is_err(), "Must fail when base requirements exceed total budget");
}

#[test]
fn test_prefill_double_buffer_ping_pong_swapping() {
    let mut double_buf = PrefillDoubleBuffer::new("BUFFER_A", "BUFFER_B");

    // Initial state: A is compute, B is transfer
    let (transfer, compute) = double_buf.ping_pong_pair();
    assert_eq!(*transfer, "BUFFER_B");
    assert_eq!(*compute, "BUFFER_A");

    // Swap 1
    double_buf.swap();
    let (transfer, compute) = double_buf.ping_pong_pair();
    assert_eq!(*transfer, "BUFFER_A");
    assert_eq!(*compute, "BUFFER_B");

    // Swap 2
    double_buf.swap();
    let (transfer, compute) = double_buf.ping_pong_pair();
    assert_eq!(*transfer, "BUFFER_B");
    assert_eq!(*compute, "BUFFER_A");
}

#[test]
fn plan_exact_values() {
    // Base 100, budget 1000, slice 10, 4 layers, 8 experts.
    // Remaining 900 >= 20: double buffer of 20; 880 left; one slot per layer costs 40;
    // 880 / 40 = 22 slots, capped at 8 experts.
    let plan = plan_moe_vram_budget(1000, 60, 30, 10, 4, 8, 10).unwrap();
    assert!(plan.prefill_overlap_feasible);
    assert_eq!(plan.prefill_double_buffer_bytes, 20);
    assert_eq!(plan.n_slots_per_layer, 8);
    assert_eq!(plan.expert_slots_bytes, 320);
    assert_eq!(plan.total_allocated_bytes, 440);
    assert_eq!(plan.free_headroom_bytes(), 560);

    // Budget 215: remaining 115; double buffer 20; 95 left -> 2 slots of 40.
    let plan = plan_moe_vram_budget(215, 60, 30, 10, 4, 8, 10).unwrap();
    assert_eq!(plan.n_slots_per_layer, 2);
    assert_eq!(plan.total_allocated_bytes, 200);

    // Budget 115: remaining 15 < 20: single buffer of 10; 5 left, no slot.
    let plan = plan_moe_vram_budget(115, 60, 30, 10, 4, 8, 10).unwrap();
    assert!(!plan.prefill_overlap_feasible);
    assert_eq!(plan.prefill_double_buffer_bytes, 10);
    assert_eq!(plan.n_slots_per_layer, 0);
    assert_eq!(plan.total_allocated_bytes, 110);
}

#[test]
fn plan_error_messages() {
    match plan_moe_vram_budget(100, 60, 30, 20, 1, 1, 1) {
        Err(EngineError::Validation(m)) => {
            assert_eq!(m, "Base VRAM requirements (110 bytes) exceed total budget (100 bytes)")
        }
        other => panic!("unexpected {:?}", other),
    }
    match plan_moe_vram_budget(100, usize::MAX, 1, 0, 1, 1, 1) {
        Err(EngineError::Validation(m)) => assert_eq!(m, "Integer overflow in base VRAM calculation"),
        other => panic!("unexpected {:?}", other),
    }
}

#[test]
fn plan_refuses_a_budget_without_room_for_the_prefill_buffer() {
    // The base (50) fits, but not even a single 60-byte prefill buffer does.
    match plan_moe_vram_budget(100, 50, 0, 0, 1, 1, 60) {
        Err(EngineError::Validation(m)) => {
            assert_eq!(m, "Budget invariant violated: allocated 110 > budget 100")
        }
        other => panic!("unexpected {:?}", other),
    }
    let plan = plan_moe_vram_budget(110, 50, 0, 0, 1, 1, 60).unwrap();
    assert_eq!(plan.total_allocated_bytes, 110);
}

#[test]
fn double_buffer_mut_pair_writes_through() {
    let mut d = PrefillDoubleBuffer::new(vec![1u8], vec![2u8]);
    {
        let (transfer, compute) = d.ping_pong_pair_mut();
        transfer.push(20);
        compute.push(10);
    }
    let (transfer, compute) = d.ping_pong_pair();
    assert_eq!(transfer, &vec![2u8, 20]);
    assert_eq!(compute, &vec![1u8, 10]);
}
