use differential_reasoner::lifecycle::{
    input_step, stage_step, InputEvent, InputState, Stage, StageEvent,
};
use differential_reasoner::materializations::Reasoner;

#[test]
fn input_stream_transitions() {
    input_transitions();
}

fn input_transitions() {
    assert_eq!(input_step(InputState::Open, InputEvent::Insert), Some(InputState::BatchPending));
    assert_eq!(
        input_step(InputState::BatchPending, InputEvent::Insert),
        Some(InputState::BatchPending)
    );
    assert_eq!(
        input_step(InputState::BatchPending, InputEvent::Flush),
        Some(InputState::Advancing)
    );
    assert_eq!(input_step(InputState::Advancing, InputEvent::CaughtUp), Some(InputState::Open));
    assert_eq!(input_step(InputState::Advancing, InputEvent::Close), Some(InputState::Closed));
    assert_eq!(input_step(InputState::Advancing, InputEvent::Insert), None);
    assert_eq!(input_step(InputState::Open, InputEvent::Flush), None);
    for e in [InputEvent::Insert, InputEvent::Flush, InputEvent::CaughtUp, InputEvent::Close] {
        assert_eq!(input_step(InputState::Closed, e), None);
    }
}

#[test]
fn lifecycle_transitions() {
    assert_eq!(stage_step(Stage::Building, StageEvent::TboxDone), Some(Stage::TboxSealed));
    assert_eq!(stage_step(Stage::Building, StageEvent::Batch), None);
    assert_eq!(stage_step(Stage::TboxSealed, StageEvent::Batch), Some(Stage::Streaming));
    assert_eq!(stage_step(Stage::Streaming, StageEvent::Batch), Some(Stage::Streaming));
    assert_eq!(stage_step(Stage::Streaming, StageEvent::AboxDone), Some(Stage::Drained));
    assert_eq!(stage_step(Stage::Drained, StageEvent::Batch), None);
}

#[test]
fn drained_reasoner_takes_no_batches() {
    let mut r = Reasoner::new(false, vec![(100, 0, 101)]);
    assert!(!r.close());
    assert!(r.insert(&vec![(1, 4, 100)]));
    assert!(r.close());
    assert!(!r.insert(&vec![(2, 4, 100)]));
    assert!(!r.retract(&vec![(1, 4, 100)]));
    let mut out = r.abox_output();
    out.sort();
    assert_eq!(out, vec![(1, 4, 100), (1, 4, 101)]);
}
