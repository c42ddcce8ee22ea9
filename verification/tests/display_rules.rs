use hypr_profiles::display::hyprland_display_manager::{
    after_monitor_step, after_workspace_step, managed_workspace_ids, monitor_steps,
    workspace_steps, HyprlandMonitor, MonitorStep, StepOutcome, WorkspaceStep,
};
use hypr_profiles::display::mode::{
    entries_are_sortable, group_modes, sort_rates_desc, split_mode_string, ModeEntry,
};
use hypr_profiles::display::monitor::Monitor;
use hypr_profiles::display::size::Size;
use hypr_profiles::display::transformation::Transformation;
use hypr_profiles::display::get_display_manager;
use hypr_profiles::float_bits::{f32_bits_is_nan, f32_bits_le, f64_bits_is_nan, f64_bits_lt};
use hypr_profiles::float_value::F64Value;
use hypr_profiles::profile::monitor_config::MonitorConfig;
use hypr_profiles::profile::profile::Profile;
use hypr_profiles::profile::workspace_config::WorkspaceConfig;

fn f64v(x: f64) -> F64Value {
    F64Value { bits: x.to_bits(), text: x.to_string() }
}

fn entry(w: u32, h: u32, rate: f32) -> ModeEntry {
    ModeEntry { width: w, height: h, rate: rate.to_bits() }
}

fn rates(v: &[u32]) -> Vec<f32> {
    v.iter().map(|b| f32::from_bits(*b)).collect()
}

fn monitor_config(name: &str, enabled: bool) -> MonitorConfig {
    MonitorConfig {
        name: name.to_string(),
        scale: f64v(1.5),
        transformation: 0,
        resolution: Size { width: 1920, height: 1080 },
        refresh_rate: f64v(59.95),
        is_enabled: enabled,
        mirror_of_name: None,
        current_position: Size { width: 1920, height: 0 },
    }
}

fn empty_profile() -> Profile {
    Profile {
        id: None,
        name: "desk".to_string(),
        monitors: Vec::new(),
        workspaces: Vec::new(),
        move_all_windows_to_monitor: None,
        focus_monitor_name: None,
        focus_workspace_id: None,
        audio_sink: None,
        persistent_workspace_ids: None,
        workspaces_fallback_monitor_name: None,
    }
}

#[test]
fn transformation_codes_round_trip() {
    let all = [
        Transformation::Normal,
        Transformation::Rotate90,
        Transformation::Rotate180,
        Transformation::Rotate270,
        Transformation::Flip,
        Transformation::FlipRotate90,
        Transformation::FlipRotate180,
        Transformation::FlipRotate270,
    ];
    for (i, t) in all.iter().enumerate() {
        assert_eq!(t.code() as usize, i);
        assert_eq!(Transformation::from_code(t.code()), Some(*t));
    }
    assert_eq!(Transformation::from_code(8), None);
    assert_eq!(Transformation::from_code(255), None);
    assert_eq!(Transformation::from_code_or_normal(3), Transformation::Rotate270);
    assert_eq!(Transformation::from_code_or_normal(9), Transformation::Normal);
}

#[test]
fn split_mode_string_reads_hyprland_modes() {
    let p = split_mode_string("1920x1080@60.00Hz").unwrap();
    assert_eq!((p.width, p.height, p.refresh_rate.as_str()), (1920, 1080, "60.00"));
    let p = split_mode_string("2560x1440@143.91HzHz").unwrap();
    assert_eq!((p.width, p.height, p.refresh_rate.as_str()), (2560, 1440, "143.91"));
    let p = split_mode_string("+800x600@75").unwrap();
    assert_eq!((p.width, p.height, p.refresh_rate.as_str()), (800, 600, "75"));
    let p = split_mode_string("800x600@").unwrap();
    assert_eq!(p.refresh_rate.as_str(), "");
}

#[test]
fn split_mode_string_rejects_other_shapes() {
    assert!(split_mode_string("1920x1080").is_none());
    assert!(split_mode_string("1920x1080@60@60").is_none());
    assert!(split_mode_string("19x20x30@60Hz").is_none());
    assert!(split_mode_string("axb@60Hz").is_none());
    assert!(split_mode_string("x1080@60Hz").is_none());
    assert!(split_mode_string("-1x1080@60Hz").is_none());
    assert!(split_mode_string("4294967296x1080@60Hz").is_none());
    assert!(split_mode_string(" 1920x1080@60Hz").is_none());
    assert!(split_mode_string("").is_none());
}

#[test]
fn group_modes_orders_resolutions_and_rates() {
    let entries = vec![
        entry(1920, 1080, 60.0),
        entry(1280, 720, 60.0),
        entry(1920, 1080, 144.0),
        entry(2560, 1440, 59.95),
        entry(1920, 1200, 60.0),
        entry(1920, 1080, 120.0),
    ];
    let modes = group_modes(&entries);
    let res: Vec<(u32, u32)> = modes.iter().map(|m| (m.resolution.width, m.resolution.height)).collect();
    assert_eq!(res, vec![(2560, 1440), (1920, 1200), (1920, 1080), (1280, 720)]);
    assert_eq!(rates(&modes[2].refresh_rate), vec![144.0, 120.0, 60.0]);
    assert_eq!(rates(&modes[0].refresh_rate), vec![59.95]);
}

#[test]
fn group_modes_does_not_depend_on_entry_order() {
    let entries = vec![
        entry(1920, 1080, 60.0),
        entry(1280, 720, 60.0),
        entry(1920, 1080, 144.0),
        entry(2560, 1440, 59.95),
        entry(1280, 720, 50.0),
        entry(1920, 1080, 120.0),
    ];
    let mut reversed = entries.clone();
    reversed.reverse();
    let a = group_modes(&entries);
    let b = group_modes(&reversed);
    assert_eq!(a.len(), b.len());
    for (x, y) in a.iter().zip(b.iter()) {
        assert_eq!(x.resolution.width, y.resolution.width);
        assert_eq!(x.resolution.height, y.resolution.height);
        assert_eq!(x.refresh_rate, y.refresh_rate);
    }
    assert_eq!(rates(&b[2].refresh_rate), vec![60.0, 50.0]);
}

#[test]
fn group_modes_empty() {
    assert!(group_modes(&Vec::new()).is_empty());
}

#[test]
fn sort_rates_is_stable_for_equal_rates() {
    let input = vec![0.0f32.to_bits(), 60.0f32.to_bits(), (-0.0f32).to_bits(), 30.0f32.to_bits()];
    let sorted = sort_rates_desc(&input);
    assert_eq!(sorted, vec![60.0f32.to_bits(), 30.0f32.to_bits(), 0.0f32.to_bits(), (-0.0f32).to_bits()]);
    let input = vec![(-0.0f32).to_bits(), 0.0f32.to_bits(), (-1.0f32).to_bits()];
    let sorted = sort_rates_desc(&input);
    assert_eq!(sorted, vec![(-0.0f32).to_bits(), 0.0f32.to_bits(), (-1.0f32).to_bits()]);
}

#[test]
fn nan_rates_are_sortable_only_alone() {
    assert!(entries_are_sortable(&vec![entry(800, 600, f32::NAN), entry(1024, 768, 60.0)]));
    assert!(!entries_are_sortable(&vec![entry(800, 600, f32::NAN), entry(800, 600, 60.0)]));
    assert!(entries_are_sortable(&vec![entry(800, 600, 60.0), entry(800, 600, 60.0)]));
}

#[test]
fn float_bit_comparisons_follow_ieee() {
    assert!(f32_bits_le(1.0f32.to_bits(), 2.0f32.to_bits()));
    assert!(!f32_bits_le(2.0f32.to_bits(), 1.0f32.to_bits()));
    assert!(f32_bits_le((-2.0f32).to_bits(), (-1.0f32).to_bits()));
    assert!(!f32_bits_le((-1.0f32).to_bits(), (-2.0f32).to_bits()));
    assert!(f32_bits_le((-0.0f32).to_bits(), 0.0f32.to_bits()));
    assert!(f32_bits_le(0.0f32.to_bits(), (-0.0f32).to_bits()));
    assert!(f32_bits_le(f32::MAX.to_bits(), f32::INFINITY.to_bits()));
    assert!(!f32_bits_le(f32::INFINITY.to_bits(), f32::MAX.to_bits()));
    assert!(f32_bits_is_nan(f32::NAN.to_bits()));
    assert!(!f32_bits_is_nan(f32::NEG_INFINITY.to_bits()));
    assert!(f64_bits_lt(0.09f64.to_bits(), 0.1f64.to_bits()));
    assert!(!f64_bits_lt(0.1f64.to_bits(), 0.1f64.to_bits()));
    assert!(f64_bits_lt((-5.0f64).to_bits(), 0.0f64.to_bits()));
    assert!(!f64_bits_lt((-0.0f64).to_bits(), 0.0f64.to_bits()));
    assert!(f64_bits_is_nan(f64::NAN.to_bits()));
    assert!(!f64_bits_is_nan(f64::INFINITY.to_bits()));
}

#[test]
fn monitor_from_hyprland_reads_fields() {
    let h = HyprlandMonitor {
        id: 3,
        name: "DP-1".to_string(),
        model: "M".to_string(),
        description: "D".to_string(),
        width: 1920,
        height: 1080,
        refresh_rate: f64v(60.0),
        x: -1920,
        y: 0,
        scale: f64v(1.0),
        transform: 1,
        disabled: true,
        mirror_of: "none".to_string(),
    };
    let m = Monitor::from_hyprland(h, &vec![entry(1920, 1080, 60.0), entry(1280, 720, 60.0)]);
    assert_eq!(m.id, 3);
    assert_eq!(m.mirror_of_name, None);
    assert!(!m.is_enabled);
    assert_eq!(m.current_position, Size { width: (-1920i32) as u32, height: 0 });
    assert_eq!(m.modes.len(), 2);
    assert_eq!(m.modes[0].resolution, Size { width: 1920, height: 1080 });
    let h2 = HyprlandMonitor {
        id: 4,
        name: "HDMI-A-1".to_string(),
        model: String::new(),
        description: String::new(),
        width: 1920,
        height: 1080,
        refresh_rate: f64v(60.0),
        x: 0,
        y: 0,
        scale: f64v(1.0),
        transform: 0,
        disabled: false,
        mirror_of: "DP-1".to_string(),
    };
    let m2 = Monitor::from_hyprland(h2, &Vec::new());
    assert_eq!(m2.mirror_of_name, Some("DP-1".to_string()));
    assert!(m2.is_enabled);
}

#[test]
fn monitor_steps_disable_then_configure() {
    let mut p = empty_profile();
    p.monitors.push(monitor_config("DP-1", true));
    p.monitors.push(monitor_config("eDP-1", false));
    let steps = monitor_steps(&p);
    assert_eq!(steps.len(), 4);
    match &steps[0] {
        MonitorStep::Disable { index, config } => {
            assert_eq!(*index, 1);
            assert_eq!(config, "eDP-1,disable");
        }
        _ => panic!("expected a disable step"),
    }
    assert!(matches!(steps[1], MonitorStep::Pause));
    match &steps[2] {
        MonitorStep::Configure { index, config } => {
            assert_eq!(*index, 0);
            assert_eq!(config, "DP-1,1920x1080@59.95,1920x0,1.5");
        }
        _ => panic!("expected a configure step"),
    }
    assert!(matches!(steps[3], MonitorStep::Pause));
}

#[test]
fn workspace_steps_use_last_mapping_then_fallback() {
    let mut p = empty_profile();
    p.workspaces.push(WorkspaceConfig { id: 1, monitor_name: "A".to_string() });
    p.workspaces.push(WorkspaceConfig { id: 1, monitor_name: "B".to_string() });
    p.workspaces.push(WorkspaceConfig { id: 2, monitor_name: "C".to_string() });
    p.focus_workspace_id = Some(2);
    let steps = workspace_steps(&p, &vec![1, 2, 3]);
    let moves: Vec<(u32, String)> = steps
        .iter()
        .filter_map(|s| match s {
            WorkspaceStep::Move { workspace, monitor } => Some((*workspace, monitor.clone())),
            _ => None,
        })
        .collect();
    assert_eq!(moves, vec![(1, "B".to_string()), (2, "C".to_string())]);
    assert_eq!(steps.len(), 2 + 3 + 1);
    assert!(matches!(steps[5], WorkspaceStep::Focus { workspace: 2 }));
    p.workspaces_fallback_monitor_name = Some("F".to_string());
    p.focus_workspace_id = None;
    let steps = workspace_steps(&p, &vec![3]);
    match &steps[0] {
        WorkspaceStep::Move { workspace, monitor } => {
            assert_eq!(*workspace, 3);
            assert_eq!(monitor, "F");
        }
        _ => panic!("expected a move"),
    }
    match &steps[3] {
        WorkspaceStep::Activate { workspace, monitor } => {
            assert_eq!(*workspace, 2);
            assert_eq!(monitor, "C");
        }
        _ => panic!("expected an activation"),
    }
    assert_eq!(steps.len(), 4);
}

#[test]
fn managed_workspace_ids_prefers_persistent() {
    let mut p = empty_profile();
    assert_eq!(managed_workspace_ids(&p, &vec![1, -99, 3]), vec![1, (-99i32) as u32, 3]);
    p.persistent_workspace_ids = Some(vec![7, 8]);
    assert_eq!(managed_workspace_ids(&p, &vec![1, 2]), vec![7, 8]);
}

#[test]
fn display_manager_keeps_dry_run() {
    assert!(get_display_manager(true).dry_run);
    assert!(!get_display_manager(false).dry_run);
}

#[test]
fn mode_string_round_trip() {
    for (w, h, rate) in [(1920u32, 1080u32, "60.00Hz"), (0, 4294967295, "59.94"), (7, 7, "HzHz")] {
        let s = format!("{}x{}@{}", w, h, rate);
        let p = split_mode_string(&s).unwrap();
        assert_eq!((p.width, p.height), (w, h));
        assert_eq!(p.refresh_rate, rate.trim_end_matches("Hz"));
    }
}

#[test]
fn failed_monitor_calls_end_the_application() {
    let d = MonitorStep::Disable { index: 0, config: "A,disable".to_string() };
    let c = MonitorStep::Configure { index: 0, config: "A,1x1@60,0x0,1".to_string() };
    assert_eq!(after_monitor_step(&d, false), StepOutcome::Abort);
    assert_eq!(after_monitor_step(&c, false), StepOutcome::Abort);
    assert_eq!(after_monitor_step(&c, true), StepOutcome::Continue);
    assert_eq!(after_monitor_step(&MonitorStep::Pause, false), StepOutcome::Continue);
    let w = WorkspaceStep::Move { workspace: 1, monitor: "A".to_string() };
    assert_eq!(after_workspace_step(&w, false), StepOutcome::Continue);
    assert_eq!(after_workspace_step(&WorkspaceStep::Focus { workspace: 2 }, false), StepOutcome::Continue);
}
