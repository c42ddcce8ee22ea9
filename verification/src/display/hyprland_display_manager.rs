use vstd::prelude::*;
use crate::display::mode::{entries_sortable, group_modes, groups_modes, ModeEntry};
use crate::display::monitor::Monitor;
use crate::display::size::Size;
use crate::float_value::F64Value;
use crate::profile::monitor_config::MonitorConfig;
use crate::profile::profile::Profile;
use crate::profile::workspace_config::WorkspaceConfig;
use crate::text::{decimal, string_from_str, u32_to_decimal};

verus! {

/// Drives Hyprland through `hyprctl`; with `dry_run` it only prints what it
/// would run.
pub struct HyprlandManager {
    pub dry_run: bool,
}

/// A monitor as `hyprctl monitors all -j` describes it (the offered modes
/// are read separately, see `Monitor::from_hyprland`).
pub struct HyprlandMonitor {
    pub id: u32,
    pub name: String,
    pub model: String,
    pub description: String,
    pub width: u32,
    pub height: u32,
    pub refresh_rate: F64Value,
    pub x: i32,
    pub y: i32,
    pub scale: F64Value,
    pub transform: u8,
    pub disabled: bool,
    pub mirror_of: String,
}

impl Monitor {
    /// A monitor from Hyprland's description of it and its offered modes:
    /// `mirror_of` reads `"none"` for a monitor that mirrors nothing, the
    /// position is taken as unsigned (as `as u32` does), and the modes are
    /// grouped by resolution (see `group_modes`).
    pub fn from_hyprland(h: HyprlandMonitor, mode_entries: &Vec<ModeEntry>) -> (m: Monitor)
        requires
            entries_sortable(mode_entries@),
        ensures
            m.id == h.id,
            m.name == h.name,
            m.model == h.model,
            m.description == h.description,
            m.scale == h.scale,
            m.transformation == h.transform,
            m.resolution == (Size { width: h.width, height: h.height }),
            m.refresh_rate == h.refresh_rate,
            m.is_enabled == !h.disabled,
            m.mirror_of_name == (if h.mirror_of@ == "none"@ {
                None
            } else {
                Some(h.mirror_of)
            }),
            m.current_position == (Size { width: h.x as u32, height: h.y as u32 }),
            groups_modes(m.modes@, mode_entries@),
    {
        let none = string_from_str("none");
        let mirror_of_name = if h.mirror_of == none {
            None
        } else {
            Some(h.mirror_of)
        };
        Monitor {
            id: h.id,
            name: h.name,
            model: h.model,
            description: h.description,
            scale: h.scale,
            transformation: h.transform,
            resolution: Size { width: h.width, height: h.height },
            refresh_rate: h.refresh_rate,
            is_enabled: !h.disabled,
            mirror_of_name,
            current_position: Size { width: h.x as u32, height: h.y as u32 },
            modes: group_modes(mode_entries),
        }
    }
}

/// One `hyprctl keyword monitor` call of applying a profile, or a pause.
pub enum MonitorStep {
    /// Switch off the profile's monitor at `index`; a failure ends the application.
    Disable { index: usize, config: String },
    /// Set up the profile's monitor at `index`; a failure ends the application.
    Configure { index: usize, config: String },
    /// Wait half a second for Hyprland to settle.
    Pause,
}

/// A `MonitorStep` with its text seen as characters.
pub enum MonitorStepView {
    Disable(int, Seq<char>),
    Configure(int, Seq<char>),
    Pause,
}

impl View for MonitorStep {
    type V = MonitorStepView;

    open spec fn view(&self) -> MonitorStepView {
        match self {
            MonitorStep::Disable { index, config } => MonitorStepView::Disable(*index as int, config@),
            MonitorStep::Configure { index, config } => MonitorStepView::Configure(
                *index as int,
                config@,
            ),
            MonitorStep::Pause => MonitorStepView::Pause,
        }
    }
}

/// The steps seen as characters.
pub open spec fn monitor_step_views(steps: Seq<MonitorStep>) -> Seq<MonitorStepView> {
    steps.map_values(|s: MonitorStep| s@)
}

/// The monitor rule that switches a monitor off: `<name>,disable`.
pub open spec fn disable_config(mc: MonitorConfig) -> Seq<char> {
    mc.name@ + ",disable"@
}

/// The monitor rule that sets a monitor up:
/// `<name>,<w>x<h>@<rate>,<x>x<y>,<scale>`.
pub open spec fn enable_config(mc: MonitorConfig) -> Seq<char> {
    mc.name@ + seq![','] + decimal(mc.resolution.width as nat) + seq!['x'] + decimal(
        mc.resolution.height as nat,
    ) + seq!['@'] + mc.refresh_rate.text@ + seq![','] + decimal(
        mc.current_position.width as nat,
    ) + seq!['x'] + decimal(mc.current_position.height as nat) + seq![','] + mc.scale.text@
}

/// A disabling step for each monitor that the profile switches off, in order.
pub open spec fn disable_steps(ms: Seq<MonitorConfig>) -> Seq<MonitorStepView>
    decreases ms.len(),
{
    if ms.len() == 0 {
        Seq::empty()
    } else if !ms.last().is_enabled {
        disable_steps(ms.drop_last()).push(
            MonitorStepView::Disable(ms.len() - 1, disable_config(ms.last())),
        )
    } else {
        disable_steps(ms.drop_last())
    }
}

/// A set-up step for each monitor that the profile switches on, in order.
pub open spec fn configure_steps(ms: Seq<MonitorConfig>) -> Seq<MonitorStepView>
    decreases ms.len(),
{
    if ms.len() == 0 {
        Seq::empty()
    } else if ms.last().is_enabled {
        configure_steps(ms.drop_last()).push(
            MonitorStepView::Configure(ms.len() - 1, enable_config(ms.last())),
        )
    } else {
        configure_steps(ms.drop_last())
    }
}

/// How a profile's monitors are applied: first the monitors it switches
/// off, a pause, then the monitors it switches on, and a pause.
pub open spec fn monitor_plan(ms: Seq<MonitorConfig>) -> Seq<MonitorStepView> {
    disable_steps(ms) + seq![MonitorStepView::Pause] + configure_steps(ms) + seq![
        MonitorStepView::Pause,
    ]
}

/// The monitor index a step names; a pause names none.
pub open spec fn step_index(s: MonitorStepView) -> int {
    match s {
        MonitorStepView::Disable(i, _) => i,
        MonitorStepView::Configure(i, _) => i,
        MonitorStepView::Pause => -1,
    }
}

/// Whether a step sets a monitor up.
pub open spec fn is_configure() -> spec_fn(MonitorStepView) -> bool {
    |s: MonitorStepView| s is Configure
}

/// Whether a step switches a monitor off.
pub open spec fn is_disable() -> spec_fn(MonitorStepView) -> bool {
    |s: MonitorStepView| s is Disable
}

/// Whether a monitor of a profile is switched on.
pub open spec fn is_enabled_monitor() -> spec_fn(MonitorConfig) -> bool {
    |m: MonitorConfig| m.is_enabled
}

/// Whether a monitor of a profile is switched off.
pub open spec fn is_disabled_monitor() -> spec_fn(MonitorConfig) -> bool {
    |m: MonitorConfig| !m.is_enabled
}

proof fn lemma_configure_steps(ms: Seq<MonitorConfig>)
    ensures
        forall|k: int| 0 <= k < configure_steps(ms).len() ==> ({
            let st = #[trigger] configure_steps(ms)[k];
            &&& st is Configure
            &&& 0 <= step_index(st) < ms.len()
            &&& ms[step_index(st)].is_enabled
            &&& st == MonitorStepView::Configure(step_index(st), enable_config(ms[step_index(st)]))
        }),
        forall|i: int| 0 <= i < ms.len() && (#[trigger] ms[i]).is_enabled ==> configure_steps(ms).contains(
            MonitorStepView::Configure(i, enable_config(ms[i])),
        ),
        forall|a: int, b: int| 0 <= a < b < configure_steps(ms).len() ==> step_index(
            #[trigger] configure_steps(ms)[a],
        ) < step_index(#[trigger] configure_steps(ms)[b]),
        configure_steps(ms).filter(is_configure()) == configure_steps(ms),
        configure_steps(ms).len() == ms.filter(is_enabled_monitor()).len(),
    decreases ms.len(),
{
    if ms.len() > 0 {
        let init = ms.drop_last();
        lemma_configure_steps(init);
        let prev = configure_steps(init);
        let cur = configure_steps(ms);
        assert(ms == init.push(ms.last()));
        init.lemma_filter_push(ms.last(), is_enabled_monitor());
        assert(ms.filter(is_enabled_monitor()) == if ms.last().is_enabled {
            init.filter(is_enabled_monitor()).push(ms.last())
        } else {
            init.filter(is_enabled_monitor())
        });
        assert forall|k: int| 0 <= k < prev.len() implies step_index(#[trigger] prev[k]) < ms.len() - 1 by {}
        assert forall|k: int| 0 <= k < cur.len() implies ({
            let st = #[trigger] cur[k];
            &&& st is Configure
            &&& 0 <= step_index(st) < ms.len()
            &&& ms[step_index(st)].is_enabled
            &&& st == MonitorStepView::Configure(step_index(st), enable_config(ms[step_index(st)]))
        }) by {
            if k < prev.len() {
                assert(cur[k] == prev[k]);
                assert(init[step_index(prev[k])] == ms[step_index(prev[k])]);
            }
        }
        assert forall|i: int| 0 <= i < ms.len() && (#[trigger] ms[i]).is_enabled implies cur.contains(
            MonitorStepView::Configure(i, enable_config(ms[i])),
        ) by {
            if i < ms.len() - 1 {
                assert(init[i] == ms[i]);
                let q = choose|q: int| 0 <= q < prev.len() && prev[q] == MonitorStepView::Configure(
                    i,
                    enable_config(init[i]),
                );
                assert(cur[q] == prev[q]);
            } else {
                assert(cur[cur.len() - 1] == MonitorStepView::Configure(i, enable_config(ms[i])));
            }
        }
        assert forall|a: int, b: int| 0 <= a < b < cur.len() implies step_index(#[trigger] cur[a])
            < step_index(#[trigger] cur[b]) by {
            assert(cur[a] == prev[a]);
            if b < prev.len() {
                assert(cur[b] == prev[b]);
            }
        }
        if ms.last().is_enabled {
            prev.lemma_filter_push(MonitorStepView::Configure(ms.len() - 1, enable_config(ms.last())), is_configure());
        }
    }
}

proof fn lemma_disable_steps(ms: Seq<MonitorConfig>)
    ensures
        forall|k: int| 0 <= k < disable_steps(ms).len() ==> ({
            let st = #[trigger] disable_steps(ms)[k];
            &&& st is Disable
            &&& 0 <= step_index(st) < ms.len()
            &&& !ms[step_index(st)].is_enabled
            &&& st == MonitorStepView::Disable(step_index(st), disable_config(ms[step_index(st)]))
        }),
        forall|i: int| 0 <= i < ms.len() && !(#[trigger] ms[i]).is_enabled ==> disable_steps(ms).contains(
            MonitorStepView::Disable(i, disable_config(ms[i])),
        ),
        forall|a: int, b: int| 0 <= a < b < disable_steps(ms).len() ==> step_index(
            #[trigger] disable_steps(ms)[a],
        ) < step_index(#[trigger] disable_steps(ms)[b]),
        disable_steps(ms).filter(is_configure()).len() == 0,
        disable_steps(ms).len() == ms.filter(is_disabled_monitor()).len(),
    decreases ms.len(),
{
    if ms.len() > 0 {
        let init = ms.drop_last();
        lemma_disable_steps(init);
        let prev = disable_steps(init);
        let cur = disable_steps(ms);
        assert(ms == init.push(ms.last()));
        init.lemma_filter_push(ms.last(), is_disabled_monitor());
        assert(ms.filter(is_disabled_monitor()) == if !ms.last().is_enabled {
            init.filter(is_disabled_monitor()).push(ms.last())
        } else {
            init.filter(is_disabled_monitor())
        });
        assert forall|k: int| 0 <= k < prev.len() implies step_index(#[trigger] prev[k]) < ms.len() - 1 by {}
        assert forall|k: int| 0 <= k < cur.len() implies ({
            let st = #[trigger] cur[k];
            &&& st is Disable
            &&& 0 <= step_index(st) < ms.len()
            &&& !ms[step_index(st)].is_enabled
            &&& st == MonitorStepView::Disable(step_index(st), disable_config(ms[step_index(st)]))
        }) by {
            if k < prev.len() {
                assert(cur[k] == prev[k]);
                assert(init[step_index(prev[k])] == ms[step_index(prev[k])]);
            }
        }
        assert forall|i: int| 0 <= i < ms.len() && !(#[trigger] ms[i]).is_enabled implies cur.contains(
            MonitorStepView::Disable(i, disable_config(ms[i])),
        ) by {
            if i < ms.len() - 1 {
                assert(init[i] == ms[i]);
                let q = choose|q: int| 0 <= q < prev.len() && prev[q] == MonitorStepView::Disable(
                    i,
                    disable_config(init[i]),
                );
                assert(cur[q] == prev[q]);
            } else {
                assert(cur[cur.len() - 1] == MonitorStepView::Disable(i, disable_config(ms[i])));
            }
        }
        assert forall|a: int, b: int| 0 <= a < b < cur.len() implies step_index(#[trigger] cur[a])
            < step_index(#[trigger] cur[b]) by {
            assert(cur[a] == prev[a]);
            if b < prev.len() {
                assert(cur[b] == prev[b]);
            }
        }
        if !ms.last().is_enabled {
            prev.lemma_filter_push(MonitorStepView::Disable(ms.len() - 1, disable_config(ms.last())), is_configure());
        }
    }
}

/// How a profile's monitors are applied, over every profile: each monitor it
/// switches on is set up by exactly one step, with its own index and rule,
/// and each monitor it switches off is switched off by exactly one step;
/// there are as many set-up steps as monitors switched on and as many
/// switch-off steps as monitors switched off; every switch-off comes before
/// every set-up with a pause between them; and the plan ends with a pause.
pub proof fn law_monitor_plan(ms: Seq<MonitorConfig>)
    ensures
        forall|i: int, c: Seq<char>| #[trigger] monitor_plan(ms).contains(MonitorStepView::Configure(i, c))
            <==> (0 <= i < ms.len() && ms[i].is_enabled && c == enable_config(ms[i])),
        forall|i: int, c: Seq<char>| #[trigger] monitor_plan(ms).contains(MonitorStepView::Disable(i, c))
            <==> (0 <= i < ms.len() && !ms[i].is_enabled && c == disable_config(ms[i])),
        forall|a: int, b: int|
            0 <= a < b < monitor_plan(ms).len() && (#[trigger] monitor_plan(ms)[a]) is Configure
                && (#[trigger] monitor_plan(ms)[b]) is Configure ==> step_index(monitor_plan(ms)[a])
                < step_index(monitor_plan(ms)[b]),
        forall|a: int, b: int|
            0 <= a < b < monitor_plan(ms).len() && (#[trigger] monitor_plan(ms)[a]) is Disable
                && (#[trigger] monitor_plan(ms)[b]) is Disable ==> step_index(monitor_plan(ms)[a])
                < step_index(monitor_plan(ms)[b]),
        monitor_plan(ms).filter(is_configure()).len() == ms.filter(is_enabled_monitor()).len(),
        forall|a: int, b: int|
            0 <= a < monitor_plan(ms).len() && 0 <= b < monitor_plan(ms).len() && (#[trigger] monitor_plan(ms)[a]) is Disable
                && (#[trigger] monitor_plan(ms)[b]) is Configure ==> exists|q: int|
                a < q < b && #[trigger] monitor_plan(ms)[q] == MonitorStepView::Pause,
        monitor_plan(ms).len() > 0 && monitor_plan(ms).last() == MonitorStepView::Pause,
{
    lemma_configure_steps(ms);
    lemma_disable_steps(ms);
    let ds = disable_steps(ms);
    let cs = configure_steps(ms);
    let plan = monitor_plan(ms);
    let pause = seq![MonitorStepView::Pause];
    let n = ds.len() as int;
    let m = cs.len() as int;
    assert(plan == ds + pause + cs + pause);
    assert(plan.len() == n + m + 2);
    assert forall|k: int| 0 <= k < plan.len() implies (#[trigger] plan[k]) == (if k < n {
        ds[k]
    } else if k == n {
        MonitorStepView::Pause
    } else if k < n + 1 + m {
        cs[k - n - 1]
    } else {
        MonitorStepView::Pause
    }) by {}
    assert forall|i: int, c: Seq<char>| #[trigger] plan.contains(MonitorStepView::Configure(i, c))
        <==> (0 <= i < ms.len() && ms[i].is_enabled && c == enable_config(ms[i])) by {
        let st = MonitorStepView::Configure(i, c);
        if plan.contains(st) {
            let q = choose|q: int| 0 <= q < plan.len() && plan[q] == st;
            if q < n {
                assert(ds[q] is Disable);
            } else {
                assert(cs[q - n - 1] == st);
            }
        }
        if 0 <= i < ms.len() && ms[i].is_enabled && c == enable_config(ms[i]) {
            assert(ms[i].is_enabled);
            let q = choose|q: int| 0 <= q < m && cs[q] == st;
            assert(plan[n + 1 + q] == st);
        }
    }
    assert forall|i: int, c: Seq<char>| #[trigger] plan.contains(MonitorStepView::Disable(i, c))
        <==> (0 <= i < ms.len() && !ms[i].is_enabled && c == disable_config(ms[i])) by {
        let st = MonitorStepView::Disable(i, c);
        if plan.contains(st) {
            let q = choose|q: int| 0 <= q < plan.len() && plan[q] == st;
            if q < n {
                assert(ds[q] == st);
            } else {
                assert(cs[q - n - 1] is Configure);
            }
        }
        if 0 <= i < ms.len() && !ms[i].is_enabled && c == disable_config(ms[i]) {
            assert(!ms[i].is_enabled);
            let q = choose|q: int| 0 <= q < n && ds[q] == st;
            assert(plan[q] == st);
        }
    }
    assert forall|a: int, b: int|
        0 <= a < b < plan.len() && (#[trigger] plan[a]) is Configure && (#[trigger] plan[b]) is Configure
        implies step_index(plan[a]) < step_index(plan[b]) by {
        if a < n {
            assert(ds[a] is Disable);
        }
        if b < n {
            assert(ds[b] is Disable);
        }
        assert(plan[a] == cs[a - n - 1] && plan[b] == cs[b - n - 1]);
    }
    assert forall|a: int, b: int|
        0 <= a < b < plan.len() && (#[trigger] plan[a]) is Disable && (#[trigger] plan[b]) is Disable
        implies step_index(plan[a]) < step_index(plan[b]) by {
        if n < a && a < n + 1 + m {
            assert(cs[a - n - 1] is Configure);
        }
        if n < b && b < n + 1 + m {
            assert(cs[b - n - 1] is Configure);
        }
        assert(plan[a] == ds[a] && plan[b] == ds[b]);
    }
    assert forall|a: int, b: int|
        0 <= a < plan.len() && 0 <= b < plan.len() && (#[trigger] plan[a]) is Disable
            && (#[trigger] plan[b]) is Configure implies exists|q: int|
        a < q < b && #[trigger] plan[q] == MonitorStepView::Pause by {
        if n < a && a < n + 1 + m {
            assert(cs[a - n - 1] is Configure);
        }
        if b < n {
            assert(ds[b] is Disable);
        }
        assert(plan[n] == MonitorStepView::Pause);
    }
    Seq::<MonitorStepView>::filter_distributes_over_add(ds + pause + cs, pause, is_configure());
    Seq::<MonitorStepView>::filter_distributes_over_add(ds + pause, cs, is_configure());
    Seq::<MonitorStepView>::filter_distributes_over_add(ds, pause, is_configure());
    Seq::<MonitorStepView>::empty().lemma_filter_push(MonitorStepView::Pause, is_configure());
    assert(pause == Seq::<MonitorStepView>::empty().push(MonitorStepView::Pause));
    assert(Seq::<MonitorStepView>::empty().filter(is_configure()) == Seq::<MonitorStepView>::empty()) by {
        reveal(Seq::filter);
    }
    assert(plan.filter(is_configure()) == ds.filter(is_configure()) + pause.filter(is_configure())
        + cs.filter(is_configure()) + pause.filter(is_configure()));
}

proof fn lemma_views_push(steps: Seq<MonitorStep>, s: MonitorStep)
    ensures
        monitor_step_views(steps.push(s)) == monitor_step_views(steps).push(s@),
{
    assert(monitor_step_views(steps.push(s)) =~= monitor_step_views(steps).push(s@));
}

fn disable_config_string(mc: &MonitorConfig) -> (s: String)
    ensures
        s@ == disable_config(*mc),
{
    let mut s = mc.name.clone();
    s.append(",disable");
    s
}

fn enable_config_string(mc: &MonitorConfig) -> (s: String)
    ensures
        s@ == enable_config(*mc),
{
    let mut s = mc.name.clone();
    s.append(",");
    s.append(u32_to_decimal(mc.resolution.width).as_str());
    s.append("x");
    s.append(u32_to_decimal(mc.resolution.height).as_str());
    s.append("@");
    s.append(mc.refresh_rate.text.as_str());
    s.append(",");
    s.append(u32_to_decimal(mc.current_position.width).as_str());
    s.append("x");
    s.append(u32_to_decimal(mc.current_position.height).as_str());
    s.append(",");
    s.append(mc.scale.text.as_str());
    proof {
        reveal_strlit(",");
        reveal_strlit("x");
        reveal_strlit("@");
    }
    s
}

/// The `hyprctl keyword monitor` calls that apply a profile's monitors, with
/// the pauses between them (see `monitor_plan`).
pub fn monitor_steps(profile: &Profile) -> (steps: Vec<MonitorStep>)
    ensures
        monitor_step_views(steps@) == monitor_plan(profile.monitors@),
{
    let ms = &profile.monitors;
    let mut steps: Vec<MonitorStep> = Vec::new();
    for i in 0..ms.len()
        invariant
            monitor_step_views(steps@) == disable_steps(ms@.take(i as int)),
    {
        assert(ms@.take(i + 1).drop_last() == ms@.take(i as int));
        if !ms[i].is_enabled {
            let step = MonitorStep::Disable { index: i, config: disable_config_string(&ms[i]) };
            proof {
                lemma_views_push(steps@, step);
            }
            steps.push(step);
        }
    }
    assert(ms@.take(ms.len() as int) == ms@);
    let ghost first = monitor_step_views(steps@);
    proof {
        lemma_views_push(steps@, MonitorStep::Pause);
    }
    steps.push(MonitorStep::Pause);
    let ghost second = monitor_step_views(steps@);
    for i in 0..ms.len()
        invariant
            second == disable_steps(ms@) + seq![MonitorStepView::Pause],
            monitor_step_views(steps@) == second + configure_steps(ms@.take(i as int)),
    {
        assert(ms@.take(i + 1).drop_last() == ms@.take(i as int));
        if ms[i].is_enabled {
            let step = MonitorStep::Configure { index: i, config: enable_config_string(&ms[i]) };
            proof {
                lemma_views_push(steps@, step);
            }
            steps.push(step);
        }
    }
    assert(ms@.take(ms.len() as int) == ms@);
    proof {
        lemma_views_push(steps@, MonitorStep::Pause);
    }
    steps.push(MonitorStep::Pause);
    steps
}

/// One `hyprctl dispatch` call that places or shows a workspace. A failure
/// is reported and the application goes on.
pub enum WorkspaceStep {
    /// `moveworkspacetomonitor <workspace> <monitor>`
    Move { workspace: u32, monitor: String },
    /// `workspace <workspace>`, showing it on the monitor the profile names.
    Activate { workspace: u32, monitor: String },
    /// `workspace <workspace>`, focusing it last.
    Focus { workspace: u8 },
}

/// A `WorkspaceStep` with its text seen as characters.
pub enum WorkspaceStepView {
    Move(u32, Seq<char>),
    Activate(u32, Seq<char>),
    Focus(u8),
}

impl View for WorkspaceStep {
    type V = WorkspaceStepView;

    open spec fn view(&self) -> WorkspaceStepView {
        match self {
            WorkspaceStep::Move { workspace, monitor } => WorkspaceStepView::Move(*workspace, monitor@),
            WorkspaceStep::Activate { workspace, monitor } => WorkspaceStepView::Activate(
                *workspace,
                monitor@,
            ),
            WorkspaceStep::Focus { workspace } => WorkspaceStepView::Focus(*workspace),
        }
    }
}

/// The steps seen as characters.
pub open spec fn workspace_step_views(steps: Seq<WorkspaceStep>) -> Seq<WorkspaceStepView> {
    steps.map_values(|s: WorkspaceStep| s@)
}

/// The monitor that the profile's workspace list maps a workspace to: where
/// a workspace is listed twice, the later entry wins.
pub open spec fn mapped_monitor(ws: Seq<WorkspaceConfig>, id: u32) -> Option<Seq<char>>
    decreases ws.len(),
{
    if ws.len() == 0 {
        None
    } else if ws.last().id == id {
        Some(ws.last().monitor_name@)
    } else {
        mapped_monitor(ws.drop_last(), id)
    }
}

/// Where a workspace goes: its mapping, else the profile's fallback monitor,
/// else nowhere (it is left where it is).
pub open spec fn workspace_target(p: Profile, id: u32) -> Option<Seq<char>> {
    match mapped_monitor(p.workspaces@, id) {
        Some(m) => Some(m),
        None => match p.workspaces_fallback_monitor_name {
            Some(f) => Some(f@),
            None => None,
        },
    }
}

/// A move for each workspace, in order, that has somewhere to go.
pub open spec fn move_steps(p: Profile, ids: Seq<u32>) -> Seq<WorkspaceStepView>
    decreases ids.len(),
{
    if ids.len() == 0 {
        Seq::empty()
    } else {
        match workspace_target(p, ids.last()) {
            Some(m) => move_steps(p, ids.drop_last()).push(WorkspaceStepView::Move(ids.last(), m)),
            None => move_steps(p, ids.drop_last()),
        }
    }
}

/// Showing each workspace that the profile lists, in order.
pub open spec fn activate_steps(ws: Seq<WorkspaceConfig>) -> Seq<WorkspaceStepView> {
    ws.map_values(|w: WorkspaceConfig| WorkspaceStepView::Activate(w.id, w.monitor_name@))
}

/// How a profile's workspaces are applied: move the managed workspaces to
/// their monitors, show each listed workspace, then focus the one the profile
/// names, if any.
pub open spec fn workspace_plan(p: Profile, ids: Seq<u32>) -> Seq<WorkspaceStepView> {
    move_steps(p, ids) + activate_steps(p.workspaces@) + match p.focus_workspace_id {
        Some(f) => seq![WorkspaceStepView::Focus(f)],
        None => Seq::empty(),
    }
}

/// The workspaces a profile manages: its persistent ones where it lists
/// them, else the ones that exist (their ids taken as unsigned, as `as u32`
/// does).
pub open spec fn managed_ids(p: Profile, existing: Seq<i32>) -> Seq<u32> {
    match p.persistent_workspace_ids {
        Some(ids) => ids@,
        None => existing.map_values(|x: i32| x as u32),
    }
}

proof fn lemma_workspace_views_push(steps: Seq<WorkspaceStep>, s: WorkspaceStep)
    ensures
        workspace_step_views(steps.push(s)) == workspace_step_views(steps).push(s@),
{
    assert(workspace_step_views(steps.push(s)) =~= workspace_step_views(steps).push(s@));
}

fn find_mapped_monitor(ws: &Vec<WorkspaceConfig>, id: u32) -> (r: Option<usize>)
    ensures
        match mapped_monitor(ws@, id) {
            Some(m) => r matches Some(k) && k < ws.len() && ws@[k as int].monitor_name@ == m,
            None => r is None,
        },
{
    let mut found: Option<usize> = None;
    for k in 0..ws.len()
        invariant
            match mapped_monitor(ws@.take(k as int), id) {
                Some(m) => found matches Some(j) && j < k && ws@[j as int].monitor_name@ == m,
                None => found is None,
            },
    {
        assert(ws@.take(k + 1).drop_last() == ws@.take(k as int));
        if ws[k].id == id {
            found = Some(k);
        }
    }
    assert(ws@.take(ws.len() as int) == ws@);
    found
}

fn target_of(p: &Profile, id: u32) -> (r: Option<String>)
    ensures
        match workspace_target(*p, id) {
            Some(m) => r matches Some(s) && s@ == m,
            None => r is None,
        },
{
    match find_mapped_monitor(&p.workspaces, id) {
        Some(k) => Some(p.workspaces[k].monitor_name.clone()),
        None => match &p.workspaces_fallback_monitor_name {
            Some(f) => Some(f.clone()),
            None => None,
        },
    }
}

/// The workspaces that applying a profile manages (see `managed_ids`);
/// `existing` are the ids of the workspaces that exist.
pub fn managed_workspace_ids(profile: &Profile, existing: &Vec<i32>) -> (ids: Vec<u32>)
    ensures
        ids@ == managed_ids(*profile, existing@),
{
    match &profile.persistent_workspace_ids {
        Some(persistent) => {
            let mut ids: Vec<u32> = Vec::new();
            for i in 0..persistent.len()
                invariant
                    ids@ == persistent@.take(i as int),
            {
                ids.push(persistent[i]);
                assert(persistent@.take(i + 1) == persistent@.take(i as int).push(persistent@[i as int]));
            }
            assert(persistent@.take(persistent.len() as int) == persistent@);
            ids
        },
        None => {
            let mut ids: Vec<u32> = Vec::new();
            for i in 0..existing.len()
                invariant
                    ids@ == existing@.take(i as int).map_values(|x: i32| x as u32),
            {
                ids.push(existing[i] as u32);
                assert(existing@.take(i + 1).map_values(|x: i32| x as u32) =~= existing@.take(
                    i as int,
                ).map_values(|x: i32| x as u32).push(existing@[i as int] as u32));
            }
            assert(existing@.take(existing.len() as int) == existing@);
            ids
        },
    }
}

/// The `hyprctl dispatch` calls that place a profile's workspaces, given
/// the workspaces it manages (see `workspace_plan`).
pub fn workspace_steps(profile: &Profile, workspace_ids: &Vec<u32>) -> (steps: Vec<WorkspaceStep>)
    ensures
        workspace_step_views(steps@) == workspace_plan(*profile, workspace_ids@),
{
    let mut steps: Vec<WorkspaceStep> = Vec::new();
    for i in 0..workspace_ids.len()
        invariant
            workspace_step_views(steps@) == move_steps(*profile, workspace_ids@.take(i as int)),
    {
        assert(workspace_ids@.take(i + 1).drop_last() == workspace_ids@.take(i as int));
        let id = workspace_ids[i];
        match target_of(profile, id) {
            Some(monitor) => {
                let step = WorkspaceStep::Move { workspace: id, monitor };
                proof {
                    lemma_workspace_views_push(steps@, step);
                }
                steps.push(step);
            },
            None => {},
        }
    }
    assert(workspace_ids@.take(workspace_ids.len() as int) == workspace_ids@);
    let ghost moves = workspace_step_views(steps@);
    let ws = &profile.workspaces;
    for k in 0..ws.len()
        invariant
            moves == move_steps(*profile, workspace_ids@),
            ws@ == profile.workspaces@,
            workspace_step_views(steps@) == moves + activate_steps(ws@.take(k as int)),
    {
        let step = WorkspaceStep::Activate { workspace: ws[k].id, monitor: ws[k].monitor_name.clone() };
        proof {
            lemma_workspace_views_push(steps@, step);
            assert(activate_steps(ws@.take(k + 1)) =~= activate_steps(ws@.take(k as int)).push(
                step@,
            ));
        }
        steps.push(step);
    }
    assert(ws@.take(ws.len() as int) == ws@);
    match profile.focus_workspace_id {
        Some(f) => {
            let step = WorkspaceStep::Focus { workspace: f };
            proof {
                lemma_workspace_views_push(steps@, step);
            }
            steps.push(step);
        },
        None => {},
    }
    steps
}

/// Whether entry `j` is the last entry of the workspace list for workspace `w`.
pub open spec fn last_entry_for(ws: Seq<WorkspaceConfig>, w: u32, j: int) -> bool {
    &&& 0 <= j < ws.len()
    &&& ws[j].id == w
    &&& forall|l: int| j < l < ws.len() ==> (#[trigger] ws[l]).id != w
}

proof fn lemma_mapped_monitor(ws: Seq<WorkspaceConfig>, w: u32)
    ensures
        forall|j: int| #[trigger] last_entry_for(ws, w, j) ==> mapped_monitor(ws, w) == Some(
            ws[j].monitor_name@,
        ),
        (forall|j: int| 0 <= j < ws.len() ==> (#[trigger] ws[j]).id != w) ==> mapped_monitor(ws, w)
            is None,
        mapped_monitor(ws, w) is Some ==> exists|j: int| #[trigger] last_entry_for(ws, w, j),
    decreases ws.len(),
{
    if ws.len() > 0 {
        let init = ws.drop_last();
        lemma_mapped_monitor(init, w);
        assert forall|j: int| #[trigger] last_entry_for(ws, w, j) implies mapped_monitor(ws, w) == Some(
            ws[j].monitor_name@,
        ) by {
            if j < ws.len() - 1 {
                assert(ws[ws.len() - 1].id != w);
                assert(init[j] == ws[j]);
                assert forall|l: int| j < l < init.len() implies (#[trigger] init[l]).id != w by {
                    assert(init[l] == ws[l]);
                }
                assert(last_entry_for(init, w, j));
            }
        }
        if (forall|j: int| 0 <= j < ws.len() ==> (#[trigger] ws[j]).id != w) {
            assert(ws[ws.len() - 1].id != w);
            assert forall|j: int| 0 <= j < init.len() implies (#[trigger] init[j]).id != w by {
                assert(init[j] == ws[j]);
            }
        }
        if mapped_monitor(ws, w) is Some {
            if ws.last().id == w {
                assert(last_entry_for(ws, w, ws.len() - 1));
            } else {
                let j = choose|j: int| #[trigger] last_entry_for(init, w, j);
                assert(init[j] == ws[j]);
                assert forall|l: int| j < l < ws.len() implies (#[trigger] ws[l]).id != w by {
                    if l < init.len() {
                        assert(init[l] == ws[l]);
                    }
                }
                assert(last_entry_for(ws, w, j));
            }
        }
    }
}

proof fn lemma_move_steps(p: Profile, ids: Seq<u32>)
    ensures
        forall|k: int| 0 <= k < move_steps(p, ids).len() ==> ((#[trigger] move_steps(p, ids)[k]) matches WorkspaceStepView::Move(w, t)
            && ids.contains(w) && workspace_target(p, w) == Some(t)),
        forall|i: int| 0 <= i < ids.len() && (#[trigger] workspace_target(p, ids[i])) is Some ==> move_steps(
            p,
            ids,
        ).contains(WorkspaceStepView::Move(ids[i], workspace_target(p, ids[i])->0)),
    decreases ids.len(),
{
    if ids.len() > 0 {
        let init = ids.drop_last();
        lemma_move_steps(p, init);
        let prev = move_steps(p, init);
        let cur = move_steps(p, ids);
        assert forall|k: int| 0 <= k < cur.len() implies ((#[trigger] cur[k]) matches WorkspaceStepView::Move(w, t)
            && ids.contains(w) && workspace_target(p, w) == Some(t)) by {
            if k < prev.len() {
                assert(cur[k] == prev[k]);
                if let WorkspaceStepView::Move(w, t) = prev[k] {
                    let q = choose|q: int| 0 <= q < init.len() && init[q] == w;
                    assert(ids[q] == init[q]);
                }
            } else {
                assert(ids[ids.len() - 1] == ids.last());
            }
        }
        assert forall|i: int| 0 <= i < ids.len() && (#[trigger] workspace_target(p, ids[i])) is Some implies cur.contains(
            WorkspaceStepView::Move(ids[i], workspace_target(p, ids[i])->0),
        ) by {
            let step = WorkspaceStepView::Move(ids[i], workspace_target(p, ids[i])->0);
            if i < init.len() {
                assert(init[i] == ids[i]);
                assert(workspace_target(p, init[i]) is Some);
                let q = choose|q: int| 0 <= q < prev.len() && prev[q] == step;
                assert(cur[q] == prev[q]);
            } else {
                assert(cur[cur.len() - 1] == step);
            }
        }
    }
}

proof fn lemma_plan_moves(p: Profile, ids: Seq<u32>, w: u32, t: Seq<char>)
    ensures
        workspace_plan(p, ids).contains(WorkspaceStepView::Move(w, t)) <==> move_steps(p, ids).contains(
            WorkspaceStepView::Move(w, t),
        ),
{
    let step = WorkspaceStepView::Move(w, t);
    let moves = move_steps(p, ids);
    let acts = activate_steps(p.workspaces@);
    let tail: Seq<WorkspaceStepView> = match p.focus_workspace_id {
        Some(f) => seq![WorkspaceStepView::Focus(f)],
        None => Seq::empty(),
    };
    let plan = workspace_plan(p, ids);
    assert(plan == moves + acts + tail);
    if plan.contains(step) {
        let q = choose|q: int| 0 <= q < plan.len() && plan[q] == step;
        if q >= moves.len() {
            if q < moves.len() + acts.len() {
                assert(plan[q] == acts[q - moves.len()]);
            } else {
                assert(plan[q] == tail[q - moves.len() - acts.len()]);
            }
        } else {
            assert(plan[q] == moves[q]);
        }
    }
    if moves.contains(step) {
        let q = choose|q: int| 0 <= q < moves.len() && moves[q] == step;
        assert(plan[q] == moves[q]);
    }
}

/// Where applying a profile moves a workspace: a move of workspace `w` to
/// monitor `t` is only made for a managed workspace, and `t` is the monitor
/// of the last entry of the profile's workspace list for `w`, whether or not
/// a fallback monitor is set; only a workspace that no entry lists goes to
/// the fallback monitor.
pub proof fn law_workspace_move_target(p: Profile, ids: Seq<u32>, w: u32, t: Seq<char>)
    requires
        workspace_plan(p, ids).contains(WorkspaceStepView::Move(w, t)),
    ensures
        ids.contains(w),
        forall|j: int| #[trigger] last_entry_for(p.workspaces@, w, j) ==> t
            == p.workspaces@[j].monitor_name@,
        (forall|j: int| 0 <= j < p.workspaces@.len() ==> (#[trigger] p.workspaces@[j]).id != w)
            ==> (p.workspaces_fallback_monitor_name matches Some(f) && t == f@),
{
    lemma_plan_moves(p, ids, w, t);
    lemma_move_steps(p, ids);
    lemma_mapped_monitor(p.workspaces@, w);
    let moves = move_steps(p, ids);
    let q = choose|q: int| 0 <= q < moves.len() && moves[q] == WorkspaceStepView::Move(w, t);
    assert(moves[q] matches WorkspaceStepView::Move(_, _));
}

/// Every managed workspace that has somewhere to go is moved there: to the
/// monitor of its last entry in the profile's workspace list, else, where no
/// entry lists it, to the fallback monitor; with neither it is not moved.
pub proof fn law_workspace_moved(p: Profile, ids: Seq<u32>, i: int)
    requires
        0 <= i < ids.len(),
    ensures
        forall|j: int| #[trigger] last_entry_for(p.workspaces@, ids[i], j) ==> workspace_plan(
            p,
            ids,
        ).contains(WorkspaceStepView::Move(ids[i], p.workspaces@[j].monitor_name@)),
        (forall|j: int| 0 <= j < p.workspaces@.len() ==> (#[trigger] p.workspaces@[j]).id != ids[i])
            ==> match p.workspaces_fallback_monitor_name {
            Some(f) => workspace_plan(p, ids).contains(WorkspaceStepView::Move(ids[i], f@)),
            None => forall|t: Seq<char>| !#[trigger] workspace_plan(p, ids).contains(
                WorkspaceStepView::Move(ids[i], t),
            ),
        },
{
    let w = ids[i];
    lemma_move_steps(p, ids);
    lemma_mapped_monitor(p.workspaces@, w);
    assert forall|j: int| #[trigger] last_entry_for(p.workspaces@, w, j) implies workspace_plan(
        p,
        ids,
    ).contains(WorkspaceStepView::Move(w, p.workspaces@[j].monitor_name@)) by {
        assert(workspace_target(p, ids[i]) is Some);
        lemma_plan_moves(p, ids, w, p.workspaces@[j].monitor_name@);
    }
    if forall|j: int| 0 <= j < p.workspaces@.len() ==> (#[trigger] p.workspaces@[j]).id != w {
        match p.workspaces_fallback_monitor_name {
            Some(f) => {
                assert(workspace_target(p, ids[i]) is Some);
                lemma_plan_moves(p, ids, w, f@);
            },
            None => {
                assert forall|t: Seq<char>| !#[trigger] workspace_plan(p, ids).contains(
                    WorkspaceStepView::Move(w, t),
                ) by {
                    lemma_plan_moves(p, ids, w, t);
                    if move_steps(p, ids).contains(WorkspaceStepView::Move(w, t)) {
                        let q = choose|q: int| 0 <= q < move_steps(p, ids).len() && move_steps(p, ids)[q]
                            == WorkspaceStepView::Move(w, t);
                        assert(move_steps(p, ids)[q] matches WorkspaceStepView::Move(_, _));
                    }
                }
            },
        }
    }
}

/// Whether applying a profile goes on after a step.
#[derive(Clone, Copy, Debug, PartialEq, Eq, Structural)]
pub enum StepOutcome {
    Continue,
    /// Applying ends here, with the failure as its error.
    Abort,
}

/// A failed monitor call ends the application; a pause cannot fail.
pub open spec fn monitor_step_outcome(step: MonitorStepView, succeeded: bool) -> StepOutcome {
    match step {
        MonitorStepView::Pause => StepOutcome::Continue,
        _ => if succeeded {
            StepOutcome::Continue
        } else {
            StepOutcome::Abort
        },
    }
}

/// Whether applying goes on after a monitor step (see `monitor_step_outcome`).
pub fn after_monitor_step(step: &MonitorStep, succeeded: bool) -> (o: StepOutcome)
    ensures
        o == monitor_step_outcome(step@, succeeded),
{
    match step {
        MonitorStep::Pause => StepOutcome::Continue,
        _ => if succeeded {
            StepOutcome::Continue
        } else {
            StepOutcome::Abort
        },
    }
}

/// Whether applying goes on after a workspace step: it always does, a
/// failed workspace call is only reported.
pub fn after_workspace_step(step: &WorkspaceStep, succeeded: bool) -> (o: StepOutcome)
    ensures
        o == StepOutcome::Continue,
{
    StepOutcome::Continue
}

} // verus!
