use engine_core::forward_driver::{
    parse_decode_path, plan_prefill_chunks, plan_speculative_step, DecodePath, SpeculativePlan, VramFootprint,
    MAX_SPEC_K, VRAM_BUDGET_BYTES,
};
use engine_core::EngineError;

#[test]
fn parses_default_and_rejects_unknown_path() {
    assert_eq!(parse_decode_path(None).unwrap(), DecodePath::F32);
    assert_eq!(parse_decode_path(Some("f32")).unwrap(), DecodePath::F32);
    assert_eq!(parse_decode_path(Some("q8")).unwrap(), DecodePath::Q8);
    let error = parse_decode_path(Some("bogus")).unwrap_err();
    assert!(error.contains("TITAN_FORWARD_DECODE_PATH"));
    assert!(error.contains("f32"));
    assert!(error.contains("q8"));
}

#[test]
fn decode_path_error_quotes_the_value() {
    let error = parse_decode_path(Some("Q8")).unwrap_err();
    assert_eq!(
        error,
        "invalid TITAN_FORWARD_DECODE_PATH=\"Q8\"; expected \"f32\" or \"q8\""
    );
    let error = parse_decode_path(Some("")).unwrap_err();
    assert_eq!(error, "invalid TITAN_FORWARD_DECODE_PATH=\"\"; expected \"f32\" or \"q8\"");
}

#[test]
fn decode_path_names() {
    assert_eq!(DecodePath::F32.as_str(), "f32");
    assert_eq!(DecodePath::Q8.as_str(), "q8");
    for path in [DecodePath::F32, DecodePath::Q8] {
        assert_eq!(parse_decode_path(Some(path.as_str())).unwrap(), path);
    }
}

#[test]
fn vram_footprint_total_and_budget() {
    let f = VramFootprint {
        pingpong_bytes: 100,
        kv_pool_bytes: 20,
        activations_bytes: 3,
        logits_bytes: 4,
    };
    assert_eq!(f.total(), 127);
    assert!(f.assert_within_budget(127).is_ok());
    match f.assert_within_budget(126) {
        Err(EngineError::InvalidSize { expected, actual }) => {
            assert_eq!(expected, 126);
            assert_eq!(actual, 127);
        }
        other => panic!("unexpected {:?}", other),
    }
    assert_eq!(VRAM_BUDGET_BYTES, 5 * 1024 * 1024 * 1024 + 200 * 1024 * 1024);
}

#[test]
fn speculative_step_plan() {
    assert_eq!(plan_speculative_step(0, 0, 100), SpeculativePlan::SingleDecode);
    assert_eq!(plan_speculative_step(3, 10, 100), SpeculativePlan::Batch { k: 4 });
    // The batch must fit in the remaining positions.
    assert_eq!(plan_speculative_step(3, 96, 100), SpeculativePlan::Batch { k: 4 });
    assert_eq!(plan_speculative_step(3, 97, 100), SpeculativePlan::SingleDecode);
    // At most MAX_SPEC_K positions.
    assert_eq!(
        plan_speculative_step(MAX_SPEC_K - 1, 0, 100),
        SpeculativePlan::Batch { k: MAX_SPEC_K }
    );
    assert_eq!(plan_speculative_step(MAX_SPEC_K, 0, 100), SpeculativePlan::SingleDecode);
}

#[test]
fn prefill_chunk_plans() {
    let p = plan_prefill_chunks(0, 10, 0, 0, 4).unwrap();
    assert_eq!((p.start, p.chunk_lens.len()), (0, 0));
    let p = plan_prefill_chunks(10, 16, 0, 0, 4).unwrap();
    assert_eq!(p.start, 0);
    assert_eq!(p.chunk_lens, vec![4, 4, 2]);
    // A cached prefix is reused when the sequence stands at its end.
    let p = plan_prefill_chunks(10, 16, 6, 6, 4).unwrap();
    assert_eq!(p.start, 6);
    assert_eq!(p.chunk_lens, vec![4]);
    let p = plan_prefill_chunks(10, 16, 6, 5, 4).unwrap();
    assert_eq!(p.start, 0);
    // The chunk size is clamped to 1..=512.
    assert_eq!(plan_prefill_chunks(3, 16, 0, 0, 0).unwrap().chunk_lens, vec![1, 1, 1]);
    assert_eq!(plan_prefill_chunks(600, 1024, 0, 0, 10_000).unwrap().chunk_lens, vec![512, 88]);
    match plan_prefill_chunks(17, 16, 0, 0, 4) {
        Err(EngineError::InvalidSize { expected, actual }) => assert_eq!((expected, actual), (16, 17)),
        other => panic!("unexpected {:?}", other),
    }
}
