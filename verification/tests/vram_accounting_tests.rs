use engine_core::forward_driver::VramFootprint;
use engine_core::layer_double_buffer::LayerTensorSizes;
use engine_core::vram_accounting::{compute_static_vram_map, ModelDims, VramStageBreakdown};
use engine_core::EngineError;

#[test]
fn static_map_exact_values() {
    let d = ModelDims {
        hidden_size: 256,
        head_dim: 64,
        n_head: 4,
        n_head_kv: 2,
        intermediate_size: 512,
        n_layer: 3,
    };
    let b = compute_static_vram_map(&d, 10, 1000, true);
    // q: 65536 -> 36864; k: 32768 -> 18432; o: 36864; gate, up: 131072 -> 73728 each;
    // norms: 1024 + 256 + 256 + 1024.
    let layer = 36864 + 18432 + 36864 + 73728 + 73728 + 1024 + 256 + 256 + 1024;
    assert_eq!(b.pingpong_bytes, 2 * layer);
    assert_eq!(b.kv_pool_bytes, 3 * 10 * (2 * 128) * 4);
    let h = 256 * 4;
    let q = 256 * 4;
    let kv = 128 * 4;
    let hd = 64 * 4;
    let ff = 512 * 4;
    assert_eq!(b.activations_bytes, 6 * h + 2 * q + 2 * kv + 2 * hd + 4 * ff + 4);
    assert_eq!(b.logits_bytes, 4000);
    let all_layers = compute_static_vram_map(&d, 10, 1000, false);
    assert_eq!(all_layers.pingpong_bytes, 3 * layer);
}

#[test]
fn breakdown_from_footprint_and_budget() {
    let f = VramFootprint { pingpong_bytes: 1, kv_pool_bytes: 2, activations_bytes: 3, logits_bytes: 4 };
    let b = VramStageBreakdown::from(f);
    assert_eq!(b.total_bytes(), 10);
    assert!(b.assert_within_budget(10).is_ok());
    match b.assert_within_budget(9) {
        Err(EngineError::InvalidSize { expected, actual }) => assert_eq!((expected, actual), (9, 10)),
        other => panic!("unexpected {:?}", other),
    }
}

#[test]
fn layer_tensor_sizes_total() {
    let s = LayerTensorSizes {
        wq_bytes: 1,
        wk_bytes: 2,
        wv_bytes: 3,
        wo_bytes: 4,
        wgate_bytes: 5,
        wup_bytes: 6,
        wdown_bytes: 7,
    };
    assert_eq!(s.total_bytes(), 28);
}
