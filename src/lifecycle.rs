use vstd::prelude::*;

verus! {

/// The state of an A-Box input stream.
#[derive(Clone, Copy, Debug, PartialEq, Eq, Structural)]
pub enum InputState {
    /// Ready for a batch.
    Open,
    /// A batch is being filled.
    BatchPending,
    /// The batch was flushed; the output has not caught up with it yet.
    Advancing,
    /// No more input.
    Closed,
}

/// What happens to an A-Box input stream.
#[derive(Clone, Copy, Debug, PartialEq, Eq, Structural)]
pub enum InputEvent {
    /// A triple is inserted.
    Insert,
    /// The pending batch is flushed.
    Flush,
    /// The output frontier caught up with the input time.
    CaughtUp,
    /// The stream is closed.
    Close,
}

/// The state after `e` in state `s`, or `None` where `e` is refused there.
pub open spec fn input_next(s: InputState, e: InputEvent) -> Option<InputState> {
    match (s, e) {
        (InputState::Open, InputEvent::Insert) => Some(InputState::BatchPending),
        (InputState::BatchPending, InputEvent::Insert) => Some(InputState::BatchPending),
        (InputState::BatchPending, InputEvent::Flush) => Some(InputState::Advancing),
        (InputState::Advancing, InputEvent::CaughtUp) => Some(InputState::Open),
        (InputState::Advancing, InputEvent::Close) => Some(InputState::Closed),
        _ => None,
    }
}

/// Executable form of [`input_next`].
pub fn input_step(s: InputState, e: InputEvent) -> (r: Option<InputState>)
    ensures
        r == input_next(s, e),
{
    match (s, e) {
        (InputState::Open, InputEvent::Insert) => Some(InputState::BatchPending),
        (InputState::BatchPending, InputEvent::Insert) => Some(InputState::BatchPending),
        (InputState::BatchPending, InputEvent::Flush) => Some(InputState::Advancing),
        (InputState::Advancing, InputEvent::CaughtUp) => Some(InputState::Open),
        (InputState::Advancing, InputEvent::Close) => Some(InputState::Closed),
        _ => None,
    }
}

/// Only an open stream, or one with a pending batch, takes inserts; a
/// closed stream takes nothing.
pub proof fn law_inserts_only_while_open(s: InputState, e: InputEvent)
    ensures
        input_next(s, InputEvent::Insert).is_some() <==> (s == InputState::Open || s == InputState::BatchPending),
        s == InputState::Closed ==> input_next(s, e).is_none(),
{
}

/// The stage of a materialization.
#[derive(Clone, Copy, Debug, PartialEq, Eq, Structural)]
pub enum Stage {
    /// The schema is still coming in.
    Building,
    /// The schema is closed and its output complete.
    TboxSealed,
    /// Data batches are coming in.
    Streaming,
    /// The data input is closed and its output complete.
    Drained,
}

/// What moves a materialization from one stage to the next.
#[derive(Clone, Copy, Debug, PartialEq, Eq, Structural)]
pub enum StageEvent {
    /// The schema input was closed and its output caught up.
    TboxDone,
    /// A data batch came in.
    Batch,
    /// The data input was closed and its output caught up.
    AboxDone,
}

/// The stage after `e` in stage `s`, or `None` where `e` is refused there.
pub open spec fn stage_next(s: Stage, e: StageEvent) -> Option<Stage> {
    match (s, e) {
        (Stage::Building, StageEvent::TboxDone) => Some(Stage::TboxSealed),
        (Stage::TboxSealed, StageEvent::Batch) => Some(Stage::Streaming),
        (Stage::Streaming, StageEvent::Batch) => Some(Stage::Streaming),
        (Stage::Streaming, StageEvent::AboxDone) => Some(Stage::Drained),
        _ => None,
    }
}

/// Executable form of [`stage_next`].
pub fn stage_step(s: Stage, e: StageEvent) -> (r: Option<Stage>)
    ensures
        r == stage_next(s, e),
{
    match (s, e) {
        (Stage::Building, StageEvent::TboxDone) => Some(Stage::TboxSealed),
        (Stage::TboxSealed, StageEvent::Batch) => Some(Stage::Streaming),
        (Stage::Streaming, StageEvent::Batch) => Some(Stage::Streaming),
        (Stage::Streaming, StageEvent::AboxDone) => Some(Stage::Drained),
        _ => None,
    }
}

/// Data comes in only once the schema is sealed and until the data input is
/// drained.
pub proof fn law_batches_only_after_seal(s: Stage)
    ensures
        stage_next(s, StageEvent::Batch).is_some() <==> (s == Stage::TboxSealed || s == Stage::Streaming),
{
}

} // verus!
