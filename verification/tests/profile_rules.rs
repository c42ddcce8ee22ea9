use hypr_profiles::display::mode::Mode;
use hypr_profiles::display::monitor::Monitor;
use hypr_profiles::display::size::Size;
use hypr_profiles::error::DataModuleError;
use hypr_profiles::float_value::F64Value;
use hypr_profiles::profile::config::Config;
use hypr_profiles::profile::monitor_config::MonitorConfig;
use hypr_profiles::profile::profile::Profile;
use hypr_profiles::profile::profiles_manager::ProfilesManager;
use hypr_profiles::profile::validation_error::ValidationError;

fn f64v(x: f64) -> F64Value {
    F64Value { bits: x.to_bits(), text: x.to_string() }
}

fn display(name: &str, modes: Vec<(u32, u32, Vec<f32>)>) -> Monitor {
    Monitor {
        id: 0,
        name: name.to_string(),
        model: String::new(),
        description: String::new(),
        scale: f64v(1.0),
        transformation: 0,
        resolution: Size { width: 1920, height: 1080 },
        refresh_rate: f64v(60.0),
        is_enabled: true,
        mirror_of_name: None,
        current_position: Size { width: 0, height: 0 },
        modes: modes
            .into_iter()
            .map(|(w, h, r)| Mode {
                resolution: Size { width: w, height: h },
                refresh_rate: r.into_iter().map(|x| x.to_bits()).collect(),
            })
            .collect(),
    }
}

fn config(name: &str) -> MonitorConfig {
    MonitorConfig {
        name: name.to_string(),
        scale: f64v(1.0),
        transformation: 0,
        resolution: Size { width: 1920, height: 1080 },
        refresh_rate: f64v(60.0),
        is_enabled: true,
        mirror_of_name: None,
        current_position: Size { width: 0, height: 0 },
    }
}

fn profile(id: Option<&str>, monitors: Vec<MonitorConfig>) -> Profile {
    Profile {
        id: id.map(|s| s.to_string()),
        name: "p".to_string(),
        monitors,
        workspaces: Vec::new(),
        move_all_windows_to_monitor: None,
        focus_monitor_name: None,
        focus_workspace_id: None,
        audio_sink: None,
        persistent_workspace_ids: None,
        workspaces_fallback_monitor_name: None,
    }
}

/// The pairs of rates that the caller computes: within 0.01 of each other.
fn close_pairs(p: &Profile, displays: &[Monitor]) -> Vec<(u64, u32)> {
    let mut pairs = Vec::new();
    for mc in &p.monitors {
        for d in displays {
            for m in &d.modes {
                for r in &m.refresh_rate {
                    let diff = (f32::from_bits(*r) as f64 - f64::from_bits(mc.refresh_rate.bits)).abs();
                    if diff < 0.01 {
                        pairs.push((mc.refresh_rate.bits, *r));
                    }
                }
            }
        }
    }
    pairs
}

fn displays() -> Vec<Monitor> {
    vec![
        display("DP-1", vec![(2560, 1440, vec![144.0, 60.0]), (1920, 1080, vec![60.0, 59.94])]),
        display("HDMI-A-1", vec![(1920, 1080, vec![60.0])]),
    ]
}

fn problem_of(p: &Profile) -> Option<ValidationError> {
    let ds = displays();
    ProfilesManager::validate_profile(p, &ds, &close_pairs(p, &ds))
}

#[test]
fn valid_profile_has_no_problem() {
    let mut b = config("HDMI-A-1");
    b.mirror_of_name = Some("DP-1".to_string());
    let p = profile(None, vec![config("DP-1"), b]);
    assert_eq!(problem_of(&p), None);
    assert_eq!(problem_of(&profile(None, Vec::new())), None);
}

#[test]
fn missing_monitor_is_reported() {
    let p = profile(None, vec![config("DP-1"), config("DP-9")]);
    assert_eq!(problem_of(&p), Some(ValidationError::MonitorNotFound("DP-9".to_string())));
}

#[test]
fn scale_bounds_are_checked() {
    let mut c = config("DP-1");
    c.scale = f64v(0.05);
    assert_eq!(
        problem_of(&profile(None, vec![c])),
        Some(ValidationError::InvalidScaleValue(
            "DP-1".to_string(),
            "0.05".to_string(),
            "Scale must be between 0.1 and 20.0".to_string()
        ))
    );
    let mut c = config("DP-1");
    c.scale = f64v(20.5);
    assert!(matches!(problem_of(&profile(None, vec![c])), Some(ValidationError::InvalidScaleValue(..))));
    for ok in [0.1, 20.0, f64::NAN] {
        let mut c = config("DP-1");
        c.scale = f64v(ok);
        assert_eq!(problem_of(&profile(None, vec![c])), None);
    }
}

#[test]
fn transformation_is_checked() {
    let mut c = config("DP-1");
    c.transformation = 8;
    assert_eq!(
        problem_of(&profile(None, vec![c])),
        Some(ValidationError::InvalidTransformationValue(
            "DP-1".to_string(),
            "8".to_string(),
            "Transformation must be between 0 and 7".to_string()
        ))
    );
}

#[test]
fn resolution_is_checked() {
    let mut c = config("HDMI-A-1");
    c.resolution = Size { width: 2560, height: 1440 };
    assert_eq!(
        problem_of(&profile(None, vec![c])),
        Some(ValidationError::ResolutionNotSupported(
            "HDMI-A-1".to_string(),
            "2560x1440".to_string(),
            "Resolution not available for this monitor".to_string()
        ))
    );
}

#[test]
fn refresh_rate_is_checked_at_the_resolution() {
    let mut c = config("DP-1");
    c.refresh_rate = f64v(144.0);
    assert_eq!(
        problem_of(&profile(None, vec![c])),
        Some(ValidationError::RefreshRateNotSupported(
            "DP-1".to_string(),
            "144".to_string(),
            "Refresh rate not available for this resolution".to_string()
        ))
    );
    let mut c = config("DP-1");
    c.refresh_rate = f64v(59.945);
    assert_eq!(problem_of(&profile(None, vec![c])), None);
}

#[test]
fn mirror_source_is_checked() {
    let mut c = config("DP-1");
    c.mirror_of_name = Some("DP-1".to_string());
    assert_eq!(
        problem_of(&profile(None, vec![c])),
        Some(ValidationError::InvalidMirrorSourceName(
            "DP-1".to_string(),
            "DP-1".to_string(),
            "Monitor cannot mirror itself".to_string()
        ))
    );
    let mut c = config("DP-1");
    c.mirror_of_name = Some("HDMI-A-1".to_string());
    assert_eq!(
        problem_of(&profile(None, vec![c])),
        Some(ValidationError::InvalidMirrorSourceName(
            "DP-1".to_string(),
            "HDMI-A-1".to_string(),
            "Mirror source monitor not found in profile".to_string()
        ))
    );
}

#[test]
fn first_failing_monitor_wins() {
    let mut a = config("DP-1");
    a.transformation = 9;
    let p = profile(None, vec![config("X"), a]);
    assert_eq!(problem_of(&p), Some(ValidationError::MonitorNotFound("X".to_string())));
}

fn manager(ids: &[&str], current: Option<&str>) -> ProfilesManager {
    let profiles = ids.iter().map(|i| profile(Some(i), Vec::new())).collect();
    ProfilesManager::new(Config { current_profile_id: current.map(|s| s.to_string()), profiles })
}

#[test]
fn empty_config_has_nothing() {
    let c = Config::empty();
    assert!(c.profiles.is_empty());
    assert_eq!(c.current_profile_id, None);
}

#[test]
fn assign_profile_id_keeps_a_fresh_user_id() {
    let m = manager(&["a", "b"], None);
    assert_eq!(m.assign_profile_id(&profile(Some("c"), Vec::new())), Ok("c".to_string()));
    assert_eq!(
        m.assign_profile_id(&profile(Some("b"), Vec::new())),
        Err(DataModuleError::ConfigIsNotSupported(ValidationError::DuplicateProfileId(
            "b".to_string()
        )))
    );
}

#[test]
fn assign_profile_id_generates_a_v4_uuid() {
    let m = manager(&[], None);
    let id = m.assign_profile_id(&profile(None, Vec::new())).unwrap();
    let chars: Vec<char> = id.chars().collect();
    assert_eq!(chars.len(), 36);
    for i in [8, 13, 18, 23] {
        assert_eq!(chars[i], '-');
    }
    assert_eq!(chars[14], '4');
    assert!("89ab".contains(chars[19]));
    assert!(chars.iter().all(|c| *c == '-' || c.is_ascii_hexdigit() && !c.is_ascii_uppercase()));
    let other = m.assign_profile_id(&profile(None, Vec::new())).unwrap();
    assert_ne!(id, other);
}

#[test]
fn add_profile_stores_a_fitting_profile() {
    let mut m = manager(&["a"], Some("a"));
    let ds = displays();
    let p = profile(None, vec![config("DP-1")]);
    let pairs = close_pairs(&p, &ds);
    assert_eq!(m.add_profile(p, "new".to_string(), &ds, &pairs), Ok("new".to_string()));
    assert_eq!(m.config.profiles.len(), 2);
    assert_eq!(m.config.profiles[1].id, Some("new".to_string()));
    assert_eq!(m.config.current_profile_id, Some("a".to_string()));
    let found = m.get_profile_by_id("new".to_string()).unwrap();
    assert_eq!(found.monitors[0].name, "DP-1");
}

#[test]
fn add_profile_refuses_a_misfit() {
    let mut m = manager(&["a"], None);
    let ds = displays();
    let p = profile(None, vec![config("nowhere")]);
    assert_eq!(
        m.add_profile(p, "x".to_string(), &ds, &Vec::new()),
        Err(DataModuleError::ConfigIsNotSupported(ValidationError::MonitorNotFound(
            "nowhere".to_string()
        )))
    );
    assert_eq!(m.config.profiles.len(), 1);
}

#[test]
fn current_profile_follows_set_current() {
    assert_eq!(manager(&["a"], None).get_current_profile(), Err(DataModuleError::CurrentProfileNotSet));
    let mut m = manager(&["a", "b"], None);
    assert_eq!(m.set_current_profile_id("b".to_string()), Ok(()));
    assert_eq!(m.config.current_profile_id, Some("b".to_string()));
    assert_eq!(m.get_current_profile().unwrap().id, Some("b".to_string()));
    let mut m = manager(&["a"], Some("a"));
    assert_eq!(m.set_current_profile_id("zzz".to_string()), Err(DataModuleError::ProfileNotFound));
    assert_eq!(m.config.current_profile_id, Some("a".to_string()));
}

#[test]
fn profile_by_id_finds_the_first() {
    let mut m = manager(&["a", "b"], None);
    let mut dup = profile(Some("b"), Vec::new());
    dup.name = "second b".to_string();
    m.config.profiles.push(dup);
    assert_eq!(m.get_profile_by_id("b".to_string()).unwrap().name, "p");
    assert_eq!(manager(&["a"], None).get_profile_by_id("q".to_string()), Err(DataModuleError::ProfileNotFound));
}

#[test]
fn next_profile_wraps_around() {
    assert_eq!(manager(&["a"], Some("a")).get_next_profile(), Err(DataModuleError::NotEnoughProfiles));
    assert_eq!(manager(&["a", "b"], None).get_next_profile(), Err(DataModuleError::CurrentProfileNotSet));
    assert_eq!(manager(&["a", "b"], Some("c")).get_next_profile(), Err(DataModuleError::ProfileNotFound));
    assert_eq!(manager(&["a", "b", "c"], Some("a")).get_next_profile().unwrap().id, Some("b".to_string()));
    assert_eq!(manager(&["a", "b", "c"], Some("c")).get_next_profile().unwrap().id, Some("a".to_string()));
}

#[test]
fn next_profile_walks_every_profile() {
    let ids = ["a", "b", "c", "d"];
    let mut current = "a".to_string();
    let mut seen = Vec::new();
    for _ in 0..ids.len() {
        let next = manager(&ids, Some(&current)).get_next_profile().unwrap();
        current = next.id.unwrap();
        seen.push(current.clone());
    }
    assert_eq!(seen, vec!["b", "c", "d", "a"]);
}

#[test]
fn fresh_ids_stay_distinct() {
    let mut m = manager(&["a", "b"], None);
    let ds = displays();
    let p = profile(Some("c"), Vec::new());
    let id = m.assign_profile_id(&p).unwrap();
    m.add_profile(p, id, &ds, &Vec::new()).unwrap();
    let q = profile(None, Vec::new());
    let id = m.assign_profile_id(&q).unwrap();
    m.add_profile(q, id.clone(), &ds, &Vec::new()).unwrap();
    let ids: Vec<String> = m.config.profiles.iter().map(|p| p.id.clone().unwrap()).collect();
    for i in 0..ids.len() {
        for j in 0..i {
            assert_ne!(ids[i], ids[j]);
        }
    }
    assert_eq!(m.get_profile_by_id(id.clone()).unwrap().id, Some(id));
}

#[test]
fn add_profile_refuses_a_taken_own_id() {
    let mut m = manager(&["a"], None);
    let ds = displays();
    let p = profile(Some("a"), vec![config("DP-1")]);
    let pairs = close_pairs(&p, &ds);
    assert_eq!(
        m.add_profile(p, "unused".to_string(), &ds, &pairs),
        Err(DataModuleError::ConfigIsNotSupported(ValidationError::DuplicateProfileId("a".to_string())))
    );
    assert_eq!(m.config.profiles.len(), 1);
    let q = profile(Some("a"), vec![config("nowhere")]);
    assert_eq!(
        m.add_profile(q, "unused".to_string(), &ds, &Vec::new()),
        Err(DataModuleError::ConfigIsNotSupported(ValidationError::DuplicateProfileId("a".to_string())))
    );
}

#[test]
fn add_profile_keeps_its_own_id() {
    let mut m = manager(&["a"], None);
    let ds = displays();
    let p = profile(Some("mine"), vec![config("DP-1")]);
    let pairs = close_pairs(&p, &ds);
    assert_eq!(m.add_profile(p, "unused".to_string(), &ds, &pairs), Ok("mine".to_string()));
    assert_eq!(m.config.profiles[1].id, Some("mine".to_string()));
}
