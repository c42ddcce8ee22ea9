use vstd::prelude::*;

verus! {

/// What can go wrong in selecting an audio sink.
#[derive(Clone, Debug, PartialEq, Eq)]
pub enum AudioError {
    CommandExecutionError(String),
    FailedToSetAudioSink(String),
}

} // verus!
