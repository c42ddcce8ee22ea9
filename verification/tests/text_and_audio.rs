use hypr_profiles::audio::audio_error::AudioError;
use hypr_profiles::audio::get_audio_manager;
use hypr_profiles::audio::pipe_wire_audio_manager::{
    find_sink_in_listing, sink_names, sink_retries_exhausted, SinkAction, SinkEvent, SinkOutcome,
    SinkRetry, SinkStage,
};
use hypr_profiles::cli::{Cli, Command};
use hypr_profiles::dispatcher::{follow_up_steps, FollowUp};
use hypr_profiles::notifications::notifications_manager::NotificationsManager;
use hypr_profiles::profile::profile::Profile;
use hypr_profiles::audio::audio_config::AudioConfig;
use hypr_profiles::text::{chars_of, parse_u32, string_from_str, u32_to_decimal};

const LISTING: &str = "48\talsa_output.pci-0000_00_1f.3.analog-stereo\tPipeWire\ts32le 2ch 48000Hz\tSUSPENDED\n\
52\tbluez_output.AA_BB.1\tPipeWire\ts16le 2ch 48000Hz\tRUNNING\n\
lonely\n\
\n";

fn parse(s: &str) -> Option<u32> {
    parse_u32(chars_of(s).as_slice())
}

#[test]
fn parse_u32_matches_std() {
    for s in ["0", "42", "+7", "007", "4294967295", "4294967296", "", "+", "-1", "12a", " 1", "1 ", "99999999999999"] {
        assert_eq!(parse(s), s.parse::<u32>().ok(), "{s}");
    }
}

#[test]
fn decimal_matches_display() {
    for n in [0u32, 7, 10, 1920, 4294967295] {
        assert_eq!(u32_to_decimal(n), n.to_string());
    }
    assert_eq!(string_from_str("héllo"), "héllo");
}

#[test]
fn sink_names_takes_second_words() {
    assert_eq!(
        sink_names(LISTING),
        vec![
            "alsa_output.pci-0000_00_1f.3.analog-stereo".to_string(),
            "bluez_output.AA_BB.1".to_string()
        ]
    );
    assert_eq!(sink_names("  a   b  c\r\nx\u{3000}y"), vec!["b".to_string(), "y".to_string()]);
    assert!(sink_names("").is_empty());
}

#[test]
fn find_sink_uses_the_first_prefix_match() {
    assert_eq!(find_sink_in_listing(LISTING, "bluez"), Some("bluez_output.AA_BB.1".to_string()));
    assert_eq!(
        find_sink_in_listing(LISTING, "alsa_output"),
        Some("alsa_output.pci-0000_00_1f.3.analog-stereo".to_string())
    );
    assert_eq!(find_sink_in_listing(LISTING, ""), Some("alsa_output.pci-0000_00_1f.3.analog-stereo".to_string()));
    assert_eq!(find_sink_in_listing(LISTING, "usb"), None);
    assert_eq!(find_sink_in_listing(LISTING, "PipeWire"), None);
}

#[test]
fn sink_retry_succeeds_on_the_way() {
    let (s, a) = SinkRetry::start();
    assert_eq!(a, SinkAction::FindSink);
    let (s, a) = s.next(SinkEvent::Found);
    assert_eq!(a, SinkAction::SetDefault);
    let (s, a) = s.next(SinkEvent::DefaultSet);
    assert_eq!(a, SinkAction::SetVolume);
    let (s, a) = s.next(SinkEvent::VolumeSet);
    assert_eq!(a, SinkAction::Succeed);
    assert_eq!(s.stage, SinkStage::Done(SinkOutcome::Selected));
}

#[test]
fn sink_retry_fails_on_errors() {
    let (s, _) = SinkRetry::start();
    assert_eq!(s.next(SinkEvent::FindFailed).1, SinkAction::FailWithLastError);
    let (s, _) = SinkRetry::start();
    let (s, _) = s.next(SinkEvent::Found);
    let (s, _) = s.next(SinkEvent::DefaultSet);
    assert_eq!(s.next(SinkEvent::VolumeFailed).1, SinkAction::FailWithLastError);
}

#[test]
fn sink_retry_gives_up_after_ten_attempts() {
    let (mut s, mut a) = SinkRetry::start();
    let mut finds = 0;
    loop {
        match a {
            SinkAction::FindSink => {
                finds += 1;
                let r = if finds % 2 == 0 { s.next(SinkEvent::NotFound) } else { s.next(SinkEvent::Found) };
                s = r.0;
                a = r.1;
            }
            SinkAction::SetDefault => {
                let r = s.next(SinkEvent::DefaultFailed);
                s = r.0;
                a = r.1;
            }
            SinkAction::Wait => {
                let r = s.next(SinkEvent::Waited);
                s = r.0;
                a = r.1;
            }
            other => {
                assert_eq!(other, SinkAction::GiveUp);
                break;
            }
        }
    }
    assert_eq!(finds, 10);
    assert_eq!(s.attempt, 9);
}

#[test]
fn sink_retry_ignores_an_unexpected_event() {
    let (s, _) = SinkRetry::start();
    let (t, a) = s.next(SinkEvent::Waited);
    assert_eq!(t, s);
    assert_eq!(a, SinkAction::FindSink);
}

#[test]
fn exhausted_message_names_the_prefix() {
    assert_eq!(
        sink_retries_exhausted("bluez"),
        AudioError::FailedToSetAudioSink("Failed to set sink with prefix 'bluez' after 10 attempts".to_string())
    );
}

fn profile(id: Option<&str>, audio: bool) -> Profile {
    Profile {
        id: id.map(|s| s.to_string()),
        name: "p".to_string(),
        monitors: Vec::new(),
        workspaces: Vec::new(),
        move_all_windows_to_monitor: None,
        focus_monitor_name: None,
        focus_workspace_id: None,
        audio_sink: if audio { Some(AudioConfig { sink_name: "x".to_string(), volume: 50 }) } else { None },
        persistent_workspace_ids: None,
        workspaces_fallback_monitor_name: None,
    }
}

#[test]
fn follow_up_after_monitors() {
    assert_eq!(
        follow_up_steps(&profile(Some("a"), true), true),
        vec![FollowUp::Notify, FollowUp::RememberProfile, FollowUp::SetAudioSink]
    );
    assert_eq!(follow_up_steps(&profile(None, false), true), vec![FollowUp::Notify]);
    assert_eq!(follow_up_steps(&profile(Some("a"), true), false), vec![FollowUp::SetAudioSink]);
    assert!(follow_up_steps(&profile(Some("a"), false), false).is_empty());
}

#[test]
fn managers_and_command_line() {
    assert!(get_audio_manager(true).dry_run);
    assert_eq!(NotificationsManager::new(), NotificationsManager);
    let cli = Cli { dry_run: false, command: Some(Command::Apply { profile_id: "a".to_string() }) };
    assert_eq!(cli.command, Some(Command::Apply { profile_id: "a".to_string() }));
}

#[test]
fn decimal_parses_back() {
    for n in [0u32, 9, 10, 65535, 4294967295] {
        assert_eq!(parse(&u32_to_decimal(n)), Some(n));
    }
}
