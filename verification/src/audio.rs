pub mod audio_config;
pub mod audio_error;
pub mod pipe_wire_audio_manager;

use vstd::prelude::*;
use crate::audio::pipe_wire_audio_manager::PipeWireAudioManager;

verus! {

/// The audio manager of this desktop: PipeWire, through `pactl`.
pub fn get_audio_manager(dry_run: bool) -> (m: PipeWireAudioManager)
    ensures
        m.dry_run == dry_run,
{
    PipeWireAudioManager { dry_run }
}

} // verus!
