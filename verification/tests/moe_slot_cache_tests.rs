use engine_core::moe::{balanced_fetch, ExpertSlotCache, LayerCacheStats};

#[test]
fn test_balanced_fetch_tracks_fraction_and_regression_cases() {
    const Q: u32 = 1 << 16;

    // Regression cases:
    // With fetch fraction 0.415, 3 misses -> 1.24 expected.
    // Plain ceil would fetch 2, making PCIe 1.6x slower than balance; balanced fetch keeps it at 1.
    let frac_0415 = (0.415 * Q as f64).round() as u32;
    assert_eq!(balanced_fetch(3, frac_0415), 1, "balanced_fetch(3, 0.415) must return 1");
    assert_eq!(balanced_fetch(4, frac_0415), 2, "balanced_fetch(4, 0.415) must return 2");

    // General property assertions across test matrix
    for frac in [0.1, 0.25, 0.415, 0.5, 0.75, 1.0] {
        let q = (frac * Q as f64).round() as u32;
        for m in 0..=64 {
            let f = balanced_fetch(m, q);
            assert!(f <= m, "fetched {f} cannot exceed total misses {m}");
            let expected_float = frac * m as f64;
            assert!(
                (f as f64 - expected_float).abs() <= 1.01,
                "fetched {f} deviated more than 1 from float expected {expected_float}"
            );
        }
    }
}

#[test]
fn test_lru_slot_cache_routing_rewrite_and_eviction() {
    const N_LAYERS: usize = 2;
    const N_EXPERTS: usize = 16;
    const N_SLOTS: usize = 4; // 4 GPU slots per layer

    let mut cache = ExpertSlotCache::new(N_LAYERS, N_EXPERTS, N_SLOTS);

    // Step 1: Initial cold requests on layer 0: experts [0, 1, 2, 3] with 100% fetch
    let r1 = cache.step_layer_q16(0, &[0, 1, 2, 3], 1 << 16, 100);
    assert_eq!(r1.slot_ids, vec![0, 1, 2, 3]);
    assert_eq!(r1.fetched_experts, vec![0, 1, 2, 3]);
    assert_eq!(r1.fetch_target_slots, vec![0, 1, 2, 3]);
    assert!(r1.cpu_experts.is_empty());

    // Verify stats for Step 1
    let stats1 = cache.stats(0).unwrap();
    assert_eq!(stats1.active_requests, 4);
    assert_eq!(stats1.resident_hits, 0);
    assert_eq!(stats1.pcie_fetched, 4);
    assert_eq!(stats1.cpu_overflow, 0);

    // Step 2: Requests [0, 1, 4, 5] at step 200 with fetch_fraction = 0.5
    // - Experts 0 and 1 are resident in slots 0 and 1 (hits)
    // - Experts 4 and 5 are misses (2 misses)
    // - balanced_fetch(2, 0.5) = 1 -> exactly 1 fetch allowed, 1 overflow to CPU
    // - Slot 2 (expert 2, last used step 100) is evicted for expert 4
    let r2 = cache.step_layer_q16(0, &[0, 1, 4, 5], 1 << 15, 200);
    assert_eq!(r2.slot_ids, vec![0, 1, 2, -1]);
    assert_eq!(r2.fetched_experts, vec![4]);
    assert_eq!(r2.fetch_target_slots, vec![2]);
    assert_eq!(r2.cpu_experts, vec![5]);

    // Step 3: Verify stats for Step 2
    let stats2 = cache.stats(0).unwrap();
    assert_eq!(stats2.active_requests, 8);
    assert_eq!(stats2.resident_hits, 2);
    assert_eq!(stats2.pcie_fetched, 5);
    assert_eq!(stats2.cpu_overflow, 1);
    let pre_cap_miss_rate =
        (stats2.pcie_fetched + stats2.cpu_overflow) as f64 / stats2.active_requests as f64;
    assert!((pre_cap_miss_rate - (6.0 / 8.0)).abs() < 1e-6);

    // Step 4: Reset clears bindings
    cache.reset();
    let stats_reset = cache.stats(0).unwrap();
    assert_eq!(stats_reset.active_requests, 0);
}

#[test]
fn balanced_fetch_exact_values() {
    let half = 1u32 << 15;
    assert_eq!(balanced_fetch(0, half), 0);
    assert_eq!(balanced_fetch(1, half), 0);
    assert_eq!(balanced_fetch(3, half), 1);
    assert_eq!(balanced_fetch(5, 1 << 16), 5);
    assert_eq!(balanced_fetch(5, 0), 0);
}

#[test]
fn slot_cache_other_layers_untouched_and_out_of_range_stats() {
    let mut cache = ExpertSlotCache::new(2, 8, 2);
    assert_eq!(cache.n_slots_per_layer(), 2);
    cache.step_layer_q16(1, &[3, 3, 5], 1 << 16, 1);
    assert_eq!(cache.stats(0).unwrap().active_requests, 0);
    let s1 = cache.stats(1).unwrap();
    assert_eq!(s1.active_requests, 3);
    assert_eq!(s1.resident_hits + s1.pcie_fetched + s1.cpu_overflow, 3);
    assert!(cache.stats(2).is_none());
}

#[test]
fn slot_cache_lru_evicts_oldest() {
    let mut cache = ExpertSlotCache::new(1, 8, 2);
    let r = cache.step_layer_q16(0, &[1], 1 << 16, 1);
    assert_eq!(r.slot_ids, vec![0]);
    let r = cache.step_layer_q16(0, &[2], 1 << 16, 2);
    assert_eq!(r.slot_ids, vec![1]);
    // Touch expert 1 again so that expert 2 becomes least recently used.
    let r = cache.step_layer_q16(0, &[1], 1 << 16, 3);
    assert_eq!(r.slot_ids, vec![0]);
    assert!(r.fetched_experts.is_empty());
    let r = cache.step_layer_q16(0, &[3], 1 << 16, 4);
    assert_eq!(r.slot_ids, vec![1]);
    assert_eq!(r.fetched_experts, vec![3]);
    assert_eq!(r.fetch_target_slots, vec![1]);
}

#[test]
fn reset_cache_answers_like_a_fresh_one() {
    let steps: [(usize, &[usize], u32, u64); 4] = [
        (0, &[0, 1, 2], 1 << 16, 1),
        (1, &[5, 6, 7, 5], 1 << 15, 2),
        (0, &[2, 3, 4, 0], 1 << 16, 3),
        (0, &[7, 1], 1 << 14, 4),
    ];
    let mut used = ExpertSlotCache::new(2, 8, 2);
    for (layer, req, frac, step) in steps {
        used.step_layer_q16(layer, req, frac, step);
    }
    used.reset();
    let mut fresh = ExpertSlotCache::new(2, 8, 2);
    for layer in 0..2 {
        assert_eq!(used.stats(layer), fresh.stats(layer));
        assert_eq!(used.stats(layer), Some(&LayerCacheStats::default()));
    }
    assert_eq!(used.n_slots_per_layer(), fresh.n_slots_per_layer());
    for (layer, req, frac, step) in steps {
        assert_eq!(used.step_layer_q16(layer, req, frac, step), fresh.step_layer_q16(layer, req, frac, step));
        assert_eq!(used.stats(layer), fresh.stats(layer));
    }
}

#[test]
fn count_misses_reports_non_resident_requests() {
    let mut cache = ExpertSlotCache::new(1, 8, 2);
    assert_eq!(cache.n_experts_per_layer(), 8);
    assert_eq!(cache.count_misses(0, &[1, 2, 1]), 3);
    cache.step_layer_q16(0, &[1], 1 << 16, 1);
    assert_eq!(cache.count_misses(0, &[1, 2, 1]), 1);
    assert_eq!(cache.count_misses(0, &[]), 0);
}

#[test]
fn later_fetch_in_a_step_can_evict_an_earlier_one() {
    let mut cache = ExpertSlotCache::new(1, 8, 2);
    let r = cache.step_layer_q16(0, &[0, 1, 2], 1 << 16, 1);
    assert_eq!(r.slot_ids, vec![0, 1, 0]);
    assert_eq!(r.fetch_target_slots, vec![0, 1, 0]);
}
