use biomass::sound::{clip_for, SoundClip};
use biomass::state::SoundTrigger;

#[test]
fn each_trigger_has_its_clip() {
    assert_eq!(clip_for(SoundTrigger::WallPlace, true), SoundClip::Wall);
    assert_eq!(clip_for(SoundTrigger::BiomassTick, true), SoundClip::Tick);
    assert_eq!(clip_for(SoundTrigger::IsolationPop, true), SoundClip::Pop);
    assert_eq!(clip_for(SoundTrigger::WinFanfare, true), SoundClip::Win);
    assert_eq!(clip_for(SoundTrigger::LossAlert, false), SoundClip::Loss);
    assert_eq!(clip_for(SoundTrigger::ButtonClick, false), SoundClip::Click);
    assert_eq!(clip_for(SoundTrigger::InvalidMove, false), SoundClip::Error);
}

#[test]
fn grand_fanfare_falls_back_to_the_win_clip() {
    assert_eq!(clip_for(SoundTrigger::GrandFanfare, true), SoundClip::Fanfare);
    assert_eq!(clip_for(SoundTrigger::GrandFanfare, false), SoundClip::Win);
}
