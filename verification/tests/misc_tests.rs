use engine_core::dequant::get_scale_min;
use engine_core::forward_cpu::{Tensor, TensorType};
use engine_core::moe::MoeBackend;
use engine_core::streaming_forward_driver::{extract_host_weights, plan_token_position, PinnedLayerWeights};
use engine_core::version;

#[test]
fn scale_min_unpacking() {
    let scales: [u8; 12] = [0xC1, 0x42, 0x83, 0x04, 0x45, 0xC6, 0x07, 0x88, 0x9A, 0xBC, 0xDE, 0xF0];
    // Sub-blocks 0..4: low six bits of bytes j and j + 4.
    assert_eq!(get_scale_min(0, &scales), (0x01, 0x05));
    assert_eq!(get_scale_min(1, &scales), (0x02, 0x06));
    assert_eq!(get_scale_min(3, &scales), (0x04, 0x08));
    // Sub-block 4: scale = (0x9A & 0xF) | ((0xC1 >> 6) << 4) = 0x0A | 0x30;
    // min = (0x9A >> 4) | ((0x45 >> 6) << 4) = 0x09 | 0x10.
    assert_eq!(get_scale_min(4, &scales), (0x3A, 0x19));
    // Sub-block 7: scale = (0xF0 & 0xF) | ((0x04 >> 6) << 4) = 0x00;
    // min = (0xF0 >> 4) | ((0x88 >> 6) << 4) = 0x0F | 0x20.
    assert_eq!(get_scale_min(7, &scales), (0x00, 0x2F));
}

#[test]
fn backend_names() {
    assert_eq!(MoeBackend::Offload.as_str(), "offload");
    assert_eq!(MoeBackend::Cpu.as_str(), "cpu");
    assert_eq!(MoeBackend::Hybrid.as_str(), "hybrid");
}

#[test]
fn host_weights_are_the_tensor_bytes() {
    let bytes: Vec<Vec<u8>> = (0..7u8).map(|i| vec![i; (i + 1) as usize]).collect();
    let t = |i: usize| Tensor { ty: TensorType::Q4K, data: &bytes[i], ne0: 256, ne1: 1, n_rot: 0 };
    let p = PinnedLayerWeights { wq: t(0), wk: t(1), wv: t(2), wo: t(3), wgate: t(4), wup: t(5), wdown: t(6) };
    let w = extract_host_weights(&p);
    assert_eq!(w.wq_data, &bytes[0][..]);
    assert_eq!(w.wv_data, &bytes[2][..]);
    assert_eq!(w.wdown_data, &bytes[6][..]);
}

#[test]
fn version_string() {
    assert_eq!(version(), "0.1.0");
}

#[test]
fn token_position_must_fit_the_block() {
    assert_eq!(plan_token_position(0, 4).unwrap(), 1);
    assert_eq!(plan_token_position(3, 4).unwrap(), 4);
    match plan_token_position(4, 4) {
        Err(engine_core::EngineError::InvalidSize { expected, actual }) => {
            assert_eq!((expected, actual), (4, 5))
        }
        other => panic!("unexpected {:?}", other),
    }
}
