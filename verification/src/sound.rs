//! The sound bank: which clip plays a sound the game asks for.

use vstd::prelude::*;
use crate::state::SoundTrigger;

verus! {

/// A clip of the sound bank.
#[derive(Debug, Clone, Copy, PartialEq, Eq, Structural)]
pub enum SoundClip {
    Wall,
    Tick,
    Pop,
    Win,
    Fanfare,
    Loss,
    Click,
    Error,
}

/// The clip for `trigger`; the grand fanfare falls back to the win clip
/// when the fanfare clip is not available.
pub open spec fn clip_of(trigger: SoundTrigger, fanfare_available: bool) -> SoundClip {
    match trigger {
        SoundTrigger::WallPlace => SoundClip::Wall,
        SoundTrigger::BiomassTick => SoundClip::Tick,
        SoundTrigger::IsolationPop => SoundClip::Pop,
        SoundTrigger::WinFanfare => SoundClip::Win,
        SoundTrigger::GrandFanfare => if fanfare_available {
            SoundClip::Fanfare
        } else {
            SoundClip::Win
        },
        SoundTrigger::LossAlert => SoundClip::Loss,
        SoundTrigger::ButtonClick => SoundClip::Click,
        SoundTrigger::InvalidMove => SoundClip::Error,
    }
}

/// The clip that plays `trigger`.
pub fn clip_for(trigger: SoundTrigger, fanfare_available: bool) -> (clip: SoundClip)
    ensures
        clip == clip_of(trigger, fanfare_available),
{
    match trigger {
        SoundTrigger::WallPlace => SoundClip::Wall,
        SoundTrigger::BiomassTick => SoundClip::Tick,
        SoundTrigger::IsolationPop => SoundClip::Pop,
        SoundTrigger::WinFanfare => SoundClip::Win,
        SoundTrigger::GrandFanfare => if fanfare_available {
            SoundClip::Fanfare
        } else {
            SoundClip::Win
        },
        SoundTrigger::LossAlert => SoundClip::Loss,
        SoundTrigger::ButtonClick => SoundClip::Click,
        SoundTrigger::InvalidMove => SoundClip::Error,
    }
}

} // verus!
