// The pedal's state machine, where the audio side reaches it: the audio
// thread only ever sees the state it publishes, so the machine itself is
// the one the UI thread owns.
pub use crate::state_machine::{LoopState, LoopStateMachine};
