use engine_core::pipeline::{pipeline_outcome, pipeline_slot, PipelineStats};
use engine_core::EngineError;

#[test]
fn pipeline_runs_all_fitting_layers() {
    assert_eq!(pipeline_outcome(&[10, 20, 30], 30).unwrap(), PipelineStats { layers: 3 });
    assert_eq!(pipeline_outcome(&[], 0).unwrap(), PipelineStats { layers: 0 });
}

#[test]
fn pipeline_stops_at_first_oversized_layer() {
    match pipeline_outcome(&[10, 40, 50], 30) {
        Err(EngineError::InvalidLayerSize { expected, actual }) => assert_eq!((expected, actual), (30, 40)),
        other => panic!("unexpected {:?}", other),
    }
}

#[test]
fn pipeline_slots_alternate() {
    assert_eq!((0..5).map(pipeline_slot).collect::<Vec<_>>(), vec![0, 1, 0, 1, 0]);
}
