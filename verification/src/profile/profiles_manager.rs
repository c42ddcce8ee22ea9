use vstd::prelude::*;
use crate::display::mode::{resolution_offered, Mode};
use crate::display::monitor::Monitor;
use crate::display::size::Size;
use crate::display::transformation::{spec_from_code, Transformation};
use crate::float_bits::{f64_is_nan, f64_key, f64_bits_is_nan, f64_bits_lt};
use crate::error::DataModuleError;
use crate::profile::config::Config;
use crate::profile::monitor_config::MonitorConfig;
use crate::profile::profile::Profile;
use crate::profile::validation_error::{ValidationError, ValidationErrorView};
use crate::text::{decimal, string_from_str, u32_to_decimal};

verus! {

/// The binary64 bit pattern of `0.1`, the smallest scale a profile may set.
pub const MIN_SCALE_BITS: u64 = 0x3FB9_9999_9999_999A;

/// The binary64 bit pattern of `20.0`, the largest scale a profile may set.
pub const MAX_SCALE_BITS: u64 = 0x4034_0000_0000_0000;

/// Whether a scale lies outside `0.1..=20.0` (a NaN compares with nothing,
/// so it does not).
pub open spec fn scale_out_of_range(bits: u64) -> bool {
    !f64_is_nan(bits) && (f64_key(bits) < f64_key(MIN_SCALE_BITS) || f64_key(MAX_SCALE_BITS)
        < f64_key(bits))
}

/// The position of the first display at or after `from` with the given name,
/// or -1 where there is none.
pub open spec fn display_index_from(displays: Seq<Monitor>, name: Seq<char>, from: int) -> int
    decreases displays.len() - from,
{
    if from < 0 || from >= displays.len() {
        -1
    } else if displays[from].name@ == name {
        from
    } else {
        display_index_from(displays, name, from + 1)
    }
}

/// The position of the first display with the given name, or -1.
pub open spec fn display_index(displays: Seq<Monitor>, name: Seq<char>) -> int {
    display_index_from(displays, name, 0)
}

/// Whether the pair (configured rate, offered rate) is among the pairs that lie
/// within 0.01 of each other.
pub open spec fn rates_close(rate_matches: Seq<(u64, u32)>, configured: u64, offered: u32) -> bool {
    exists|p: int| 0 <= p < rate_matches.len() && #[trigger] rate_matches[p] == (configured, offered)
}

/// Whether some mode at resolution `r` offers a rate close to `configured`.
pub open spec fn rate_offered(
    modes: Seq<Mode>,
    r: Size,
    configured: u64,
    rate_matches: Seq<(u64, u32)>,
) -> bool {
    exists|k: int, j: int|
        0 <= k < modes.len() && (#[trigger] modes[k]).resolution == r && 0 <= j
            < modes[k].refresh_rate@.len() && rates_close(
            rate_matches,
            configured,
            #[trigger] modes[k].refresh_rate@[j],
        )
}

/// Whether some monitor of the profile has the given name.
pub open spec fn names_monitor(monitors: Seq<MonitorConfig>, name: Seq<char>) -> bool {
    exists|k: int| 0 <= k < monitors.len() && (#[trigger] monitors[k]).name@ == name
}

proof fn lemma_first_problem_is_some_monitors(
    monitors: Seq<MonitorConfig>,
    displays: Seq<Monitor>,
    rate_matches: Seq<(u64, u32)>,
    from: int,
)
    requires
        0 <= from,
    ensures
        first_problem_from(monitors, displays, rate_matches, from) matches Some(e) ==> exists|k: int|
            from <= k < monitors.len() && #[trigger] monitor_problem(monitors, displays, rate_matches, k)
                == Some(e),
    decreases monitors.len() - from,
{
    if from < monitors.len() {
        lemma_first_problem_is_some_monitors(monitors, displays, rate_matches, from + 1);
    }
}

/// A monitor's mirror source is found exactly where some monitor of the
/// profile, at any position, has that name: a monitor that mirrors a named
/// monitor of the profile never gets the missing-source error, and the
/// profile as a whole gets it only for a source that no monitor of it is
/// named; a monitor whose checks all pass mirrors another monitor of the
/// profile.
pub proof fn law_mirror_source_found(
    monitors: Seq<MonitorConfig>,
    displays: Seq<Monitor>,
    rate_matches: Seq<(u64, u32)>,
    i: int,
    k: int,
)
    requires
        0 <= i < monitors.len(),
        0 <= k < monitors.len(),
        monitors[i].mirror_of_name matches Some(m) && monitors[k].name@ == m@,
    ensures
        !(monitor_problem(monitors, displays, rate_matches, i) matches Some(
            ValidationErrorView::InvalidMirrorSourceName(_, _, reason),
        ) && reason == mirror_missing_reason()),
        (forall|p: Profile| #![trigger profile_problem(p, displays, rate_matches)]
            p.monitors@ == monitors ==> !(profile_problem(p, displays, rate_matches) matches Some(
                ValidationErrorView::InvalidMirrorSourceName(_, src, reason),
            ) && reason == mirror_missing_reason() && src == monitors[k].name@)),
        monitor_problem(monitors, displays, rate_matches, i) is None ==> exists|j: int|
            0 <= j < monitors.len() && j != i && (#[trigger] monitors[j]).name@ == monitors[k].name@,
{
    assert(mirror_self_reason() != mirror_missing_reason()) by {
        reveal_strlit("Monitor cannot mirror itself");
        reveal_strlit("Mirror source monitor not found in profile");
        assert(mirror_self_reason().len() != mirror_missing_reason().len());
    }
    assert(names_monitor(monitors, monitors[k].name@));
    assert forall|p: Profile| #![trigger profile_problem(p, displays, rate_matches)]
        p.monitors@ == monitors implies !(profile_problem(p, displays, rate_matches) matches Some(
            ValidationErrorView::InvalidMirrorSourceName(_, src, reason),
        ) && reason == mirror_missing_reason() && src == monitors[k].name@) by {
        lemma_first_problem_is_some_monitors(monitors, displays, rate_matches, 0);
        if let Some(e) = profile_problem(p, displays, rate_matches) {
            let q = choose|q: int| 0 <= q < monitors.len() && #[trigger] monitor_problem(monitors, displays, rate_matches, q)
                == Some(e);
            assert(monitor_problem(monitors, displays, rate_matches, q) == Some(e));
        }
    }
    if monitor_problem(monitors, displays, rate_matches, i) is None {
        assert(monitors[i].name@ != monitors[k].name@);
        assert(k != i);
    }
}

/// `decimal(w) x decimal(h)`, how a resolution is written.
pub open spec fn resolution_text(r: Size) -> Seq<char> {
    decimal(r.width as nat) + seq!['x'] + decimal(r.height as nat)
}

pub open spec fn scale_reason() -> Seq<char> {
    "Scale must be between 0.1 and 20.0"@
}

pub open spec fn transformation_reason() -> Seq<char> {
    "Transformation must be between 0 and 7"@
}

pub open spec fn resolution_reason() -> Seq<char> {
    "Resolution not available for this monitor"@
}

pub open spec fn refresh_rate_reason() -> Seq<char> {
    "Refresh rate not available for this resolution"@
}

pub open spec fn mirror_self_reason() -> Seq<char> {
    "Monitor cannot mirror itself"@
}

pub open spec fn mirror_missing_reason() -> Seq<char> {
    "Mirror source monitor not found in profile"@
}

/// What is wrong with monitor `i` of a profile, checked in this order: its
/// display is missing, its scale, its transformation, its resolution, its
/// refresh rate (at that resolution, on the first display of that name), and
/// the monitor it mirrors.
pub open spec fn monitor_problem(
    monitors: Seq<MonitorConfig>,
    displays: Seq<Monitor>,
    rate_matches: Seq<(u64, u32)>,
    i: int,
) -> Option<ValidationErrorView> {
    let mc = monitors[i];
    let d = display_index(displays, mc.name@);
    if d < 0 {
        Some(ValidationErrorView::MonitorNotFound(mc.name@))
    } else if scale_out_of_range(mc.scale.bits) {
        Some(ValidationErrorView::InvalidScaleValue(mc.name@, mc.scale.text@, scale_reason()))
    } else if spec_from_code(mc.transformation) is None {
        Some(
            ValidationErrorView::InvalidTransformationValue(
                mc.name@,
                decimal(mc.transformation as nat),
                transformation_reason(),
            ),
        )
    } else if !resolution_offered(displays[d].modes@, mc.resolution) {
        Some(
            ValidationErrorView::ResolutionNotSupported(
                mc.name@,
                resolution_text(mc.resolution),
                resolution_reason(),
            ),
        )
    } else if !rate_offered(
        displays[d].modes@,
        mc.resolution,
        mc.refresh_rate.bits,
        rate_matches,
    ) {
        Some(
            ValidationErrorView::RefreshRateNotSupported(
                mc.name@,
                mc.refresh_rate.text@,
                refresh_rate_reason(),
            ),
        )
    } else {
        match mc.mirror_of_name {
            Some(m) => if m@ == mc.name@ {
                Some(ValidationErrorView::InvalidMirrorSourceName(mc.name@, m@, mirror_self_reason()))
            } else if !names_monitor(monitors, m@) {
                Some(
                    ValidationErrorView::InvalidMirrorSourceName(
                        mc.name@,
                        m@,
                        mirror_missing_reason(),
                    ),
                )
            } else {
                None
            },
            None => None,
        }
    }
}

/// The problem of the first monitor, at or after `from`, that has one.
pub open spec fn first_problem_from(
    monitors: Seq<MonitorConfig>,
    displays: Seq<Monitor>,
    rate_matches: Seq<(u64, u32)>,
    from: int,
) -> Option<ValidationErrorView>
    decreases monitors.len() - from,
{
    if from < 0 || from >= monitors.len() {
        None
    } else {
        match monitor_problem(monitors, displays, rate_matches, from) {
            Some(e) => Some(e),
            None => first_problem_from(monitors, displays, rate_matches, from + 1),
        }
    }
}

/// Whether a profile fits the displays at hand: the problem of its first
/// monitor that has one, or `None`.
pub open spec fn profile_problem(
    profile: Profile,
    displays: Seq<Monitor>,
    rate_matches: Seq<(u64, u32)>,
) -> Option<ValidationErrorView> {
    first_problem_from(profile.monitors@, displays, rate_matches, 0)
}

fn find_display(displays: &Vec<Monitor>, name: &String) -> (r: Option<usize>)
    ensures
        match r {
            Some(d) => d == display_index(displays@, name@) && d < displays.len(),
            None => display_index(displays@, name@) < 0,
        },
{
    let mut i: usize = 0;
    while i < displays.len()
        invariant
            i <= displays.len(),
            display_index(displays@, name@) == display_index_from(displays@, name@, i as int),
        decreases displays.len() - i,
    {
        if displays[i].name == *name {
            return Some(i);
        }
        i = i + 1;
    }
    None
}

fn scale_is_out_of_range(bits: u64) -> (r: bool)
    ensures
        r == scale_out_of_range(bits),
{
    !f64_bits_is_nan(bits) && (f64_bits_lt(bits, MIN_SCALE_BITS) || f64_bits_lt(MAX_SCALE_BITS, bits))
}

fn offers_resolution(modes: &Vec<Mode>, r: Size) -> (b: bool)
    ensures
        b == resolution_offered(modes@, r),
{
    for k in 0..modes.len()
        invariant
            forall|q: int| 0 <= q < k ==> (#[trigger] modes@[q]).resolution != r,
    {
        if modes[k].resolution.width == r.width && modes[k].resolution.height == r.height {
            assert(modes@[k as int].resolution == r);
            return true;
        }
    }
    false
}

fn is_close(rate_matches: &Vec<(u64, u32)>, configured: u64, offered: u32) -> (b: bool)
    ensures
        b == rates_close(rate_matches@, configured, offered),
{
    for p in 0..rate_matches.len()
        invariant
            forall|q: int| 0 <= q < p ==> #[trigger] rate_matches@[q] != (configured, offered),
    {
        if rate_matches[p].0 == configured && rate_matches[p].1 == offered {
            assert(rate_matches@[p as int] == (configured, offered));
            return true;
        }
    }
    false
}

fn offers_rate(modes: &Vec<Mode>, r: Size, configured: u64, rate_matches: &Vec<(u64, u32)>) -> (b: bool)
    ensures
        b == rate_offered(modes@, r, configured, rate_matches@),
{
    for k in 0..modes.len()
        invariant
            forall|q: int, j: int|
                0 <= q < k && (#[trigger] modes@[q]).resolution == r && 0 <= j
                    < modes@[q].refresh_rate@.len() ==> !rates_close(
                    rate_matches@,
                    configured,
                    #[trigger] modes@[q].refresh_rate@[j],
                ),
    {
        if modes[k].resolution.width == r.width && modes[k].resolution.height == r.height {
            let rates = &modes[k].refresh_rate;
            for j in 0..rates.len()
                invariant
                    k < modes.len(),
                    rates@ == modes@[k as int].refresh_rate@,
                    modes@[k as int].resolution == r,
                    forall|q: int| 0 <= q < j ==> !rates_close(rate_matches@, configured, #[trigger] rates@[q]),
                    forall|q: int, j: int|
                        0 <= q < k && (#[trigger] modes@[q]).resolution == r && 0 <= j
                            < modes@[q].refresh_rate@.len() ==> !rates_close(
                            rate_matches@,
                            configured,
                            #[trigger] modes@[q].refresh_rate@[j],
                        ),
            {
                if is_close(rate_matches, configured, rates[j]) {
                    assert(modes@[k as int].refresh_rate@[j as int] == rates@[j as int]);
                    return true;
                }
            }
        }
    }
    false
}

fn names_monitor_exec(monitors: &Vec<MonitorConfig>, name: &String) -> (b: bool)
    ensures
        b == names_monitor(monitors@, name@),
{
    for k in 0..monitors.len()
        invariant
            forall|q: int| 0 <= q < k ==> (#[trigger] monitors@[q]).name@ != name@,
    {
        if monitors[k].name == *name {
            return true;
        }
    }
    false
}

fn resolution_string(r: Size) -> (s: String)
    ensures
        s@ == resolution_text(r),
{
    let mut s = u32_to_decimal(r.width);
    s.append("x");
    let h = u32_to_decimal(r.height);
    s.append(h.as_str());
    proof {
        reveal_strlit("x");
    }
    s
}

fn monitor_problem_of(
    monitors: &Vec<MonitorConfig>,
    i: usize,
    displays: &Vec<Monitor>,
    rate_matches: &Vec<(u64, u32)>,
) -> (r: Option<ValidationError>)
    requires
        i < monitors.len(),
    ensures
        match monitor_problem(monitors@, displays@, rate_matches@, i as int) {
            Some(e) => r matches Some(x) && x@ == e,
            None => r is None,
        },
{
    let mc = &monitors[i];
    let d = match find_display(displays, &mc.name) {
        Some(d) => d,
        None => {
            return Some(ValidationError::MonitorNotFound(mc.name.clone()));
        },
    };
    if scale_is_out_of_range(mc.scale.bits) {
        return Some(
            ValidationError::InvalidScaleValue(
                mc.name.clone(),
                mc.scale.text.clone(),
                string_from_str("Scale must be between 0.1 and 20.0"),
            ),
        );
    }
    if Transformation::from_code(mc.transformation).is_none() {
        return Some(
            ValidationError::InvalidTransformationValue(
                mc.name.clone(),
                u32_to_decimal(mc.transformation as u32),
                string_from_str("Transformation must be between 0 and 7"),
            ),
        );
    }
    let display = &displays[d];
    if !offers_resolution(&display.modes, mc.resolution) {
        return Some(
            ValidationError::ResolutionNotSupported(
                mc.name.clone(),
                resolution_string(mc.resolution),
                string_from_str("Resolution not available for this monitor"),
            ),
        );
    }
    if !offers_rate(&display.modes, mc.resolution, mc.refresh_rate.bits, rate_matches) {
        return Some(
            ValidationError::RefreshRateNotSupported(
                mc.name.clone(),
                mc.refresh_rate.text.clone(),
                string_from_str("Refresh rate not available for this resolution"),
            ),
        );
    }
    match &mc.mirror_of_name {
        Some(m) => {
            if *m == mc.name {
                return Some(
                    ValidationError::InvalidMirrorSourceName(
                        mc.name.clone(),
                        m.clone(),
                        string_from_str("Monitor cannot mirror itself"),
                    ),
                );
            }
            if !names_monitor_exec(monitors, m) {
                return Some(
                    ValidationError::InvalidMirrorSourceName(
                        mc.name.clone(),
                        m.clone(),
                        string_from_str("Mirror source monitor not found in profile"),
                    ),
                );
            }
            None
        },
        None => None,
    }
}

fn first_profile_problem(
    profile: &Profile,
    available_displays: &Vec<Monitor>,
    rate_matches: &Vec<(u64, u32)>,
) -> (r: Option<ValidationError>)
    ensures
        match profile_problem(*profile, available_displays@, rate_matches@) {
            Some(e) => r matches Some(x) && x@ == e,
            None => r is None,
        },
{
    let monitors = &profile.monitors;
    let mut i: usize = 0;
    while i < monitors.len()
        invariant
            i <= monitors.len(),
            monitors@ == profile.monitors@,
            profile_problem(*profile, available_displays@, rate_matches@) == first_problem_from(
                monitors@,
                available_displays@,
                rate_matches@,
                i as int,
            ),
        decreases monitors.len() - i,
    {
        match monitor_problem_of(monitors, i, available_displays, rate_matches) {
            Some(e) => {
                return Some(e);
            },
            None => {},
        }
        i = i + 1;
    }
    None
}

/// Whether a profile carries the given id.
pub open spec fn has_id(p: Profile, id: Seq<char>) -> bool {
    p.id matches Some(x) && x@ == id
}

/// The position of the first profile, at or after `from`, with the given id,
/// or -1 where there is none.
pub open spec fn profile_index_from(profiles: Seq<Profile>, id: Seq<char>, from: int) -> int
    decreases profiles.len() - from,
{
    if from < 0 || from >= profiles.len() {
        -1
    } else if has_id(profiles[from], id) {
        from
    } else {
        profile_index_from(profiles, id, from + 1)
    }
}

/// The position of the first profile with the given id, or -1.
pub open spec fn profile_index(profiles: Seq<Profile>, id: Seq<char>) -> int {
    profile_index_from(profiles, id, 0)
}

/// Whether some profile carries the given id.
pub open spec fn id_taken(profiles: Seq<Profile>, id: Seq<char>) -> bool {
    exists|k: int| 0 <= k < profiles.len() && has_id(#[trigger] profiles[k], id)
}

/// The id a profile is stored under: its own, or else the one given.
pub open spec fn stored_id(p: Profile, id: String) -> String {
    match p.id {
        Some(u) => u,
        None => id,
    }
}

/// What adding `profile` to `before` gives: `r` and the configuration
/// `after`. A profile whose own id is stored already is refused first;
/// then the first monitor that does not fit the displays gives the error; a
/// refused profile changes nothing. Otherwise the profile is appended under
/// its own id, or under `id` where it brings none, and that id is returned.
pub open spec fn add_outcome(
    before: Config,
    profile: Profile,
    id: String,
    displays: Seq<Monitor>,
    rate_matches: Seq<(u64, u32)>,
    r: Result<String, DataModuleError>,
    after: Config,
) -> bool {
    if profile.id matches Some(u) && id_taken(before.profiles@, u@) {
        &&& r matches Err(DataModuleError::ConfigIsNotSupported(ValidationError::DuplicateProfileId(d)))
            && d@ == profile.id->0@
        &&& after == before
    } else {
        match profile_problem(profile, displays, rate_matches) {
            Some(e) => r matches Err(DataModuleError::ConfigIsNotSupported(x)) && x@ == e
                && after == before,
            None => r == Ok::<String, DataModuleError>(stored_id(profile, id))
                && after.current_profile_id == before.current_profile_id
                && after.profiles@ == before.profiles@.push(with_id(profile, stored_id(profile, id))),
        }
    }
}

/// `p` with its id set to `id`.
pub open spec fn with_id(p: Profile, id: String) -> Profile {
    Profile { id: Some(id), ..p }
}

/// The profile applied last: the first stored profile with the current id.
pub open spec fn current_profile_result(c: Config) -> Result<Profile, DataModuleError> {
    match c.current_profile_id {
        Some(id) => Ok(c.profiles@[profile_index(c.profiles@, id@)]),
        None => Err(DataModuleError::CurrentProfileNotSet),
    }
}

/// The first stored profile with the given id.
pub open spec fn profile_by_id_result(c: Config, id: Seq<char>) -> Result<Profile, DataModuleError> {
    let i = profile_index(c.profiles@, id);
    if i < 0 {
        Err(DataModuleError::ProfileNotFound)
    } else {
        Ok(c.profiles@[i])
    }
}

/// The profile after the current one, the first one after the last.
pub open spec fn next_profile_result(c: Config) -> Result<Profile, DataModuleError> {
    let n = c.profiles@.len();
    if n < 2 {
        Err(DataModuleError::NotEnoughProfiles)
    } else {
        match c.current_profile_id {
            None => Err(DataModuleError::CurrentProfileNotSet),
            Some(id) => {
                let i = profile_index(c.profiles@, id@);
                if i < 0 {
                    Err(DataModuleError::ProfileNotFound)
                } else {
                    Ok(c.profiles@[(i + 1) % (n as int)])
                }
            },
        }
    }
}

/// The configuration after making `id` current, where some profile has it.
pub open spec fn set_current_result(c: Config, id: String) -> (Config, Result<(), DataModuleError>) {
    if id_taken(c.profiles@, id@) {
        (Config { current_profile_id: Some(id), ..c }, Ok(()))
    } else {
        (c, Err(DataModuleError::ProfileNotFound))
    }
}

/// Whether a character is a lowercase hexadecimal digit.
pub open spec fn is_lower_hex(c: char) -> bool {
    ('0' <= c <= '9') || ('a' <= c <= 'f')
}

/// Whether `s` is a version-4 UUID as `uuid` writes it: 36 characters, with
/// hyphens at 8, 13, 18 and 23, lowercase hex digits elsewhere, the version
/// digit `4` at 14 and a variant digit from `8`, `9`, `a`, `b` at 19.
pub open spec fn is_v4_uuid_text(s: Seq<char>) -> bool {
    &&& s.len() == 36
    &&& forall|i: int| 0 <= i < 36 ==> if i == 8 || i == 13 || i == 18 || i == 23 {
        #[trigger] s[i] == '-'
    } else {
        is_lower_hex(s[i])
    }
    &&& s[14] == '4'
    &&& (s[19] == '8' || s[19] == '9' || s[19] == 'a' || s[19] == 'b')
}

/// A fresh random profile id.
///
/// Trusted: calls `uuid::Uuid::new_v4` and writes the result with
/// `to_string`. In uuid 1.29 `new_v4` masks random bits to a version-4,
/// RFC 4122 variant UUID, and `Display` writes it hyphenated in lowercase
/// hex. Which id comes out rests on chance and is not stated; a failure of
/// the system's random source makes the call panic.
#[verifier::external_body]
fn new_profile_id() -> (id: String)
    ensures
        is_v4_uuid_text(id@),
{
    uuid::Uuid::new_v4().to_string()
}

/// Keeps the stored profiles and answers the requests on them.
pub struct ProfilesManager {
    pub config: Config,
}

fn find_profile(profiles: &Vec<Profile>, id: &String) -> (r: Option<usize>)
    ensures
        match r {
            Some(i) => i == profile_index(profiles@, id@) && i < profiles.len(),
            None => profile_index(profiles@, id@) < 0,
        },
{
    let mut i: usize = 0;
    while i < profiles.len()
        invariant
            i <= profiles.len(),
            profile_index(profiles@, id@) == profile_index_from(profiles@, id@, i as int),
        decreases profiles.len() - i,
    {
        match &profiles[i].id {
            Some(x) => {
                if *x == *id {
                    return Some(i);
                }
            },
            None => {},
        }
        i = i + 1;
    }
    None
}

/// Whether some stored profile carries the given id.
pub fn is_id_taken(profiles: &Vec<Profile>, id: &String) -> (b: bool)
    ensures
        b == id_taken(profiles@, id@),
{
    let found = find_profile(profiles, id);
    proof {
        lemma_profile_index(profiles@, id@, 0);
    }
    found.is_some()
}

/// Where the first profile with an id is, it has the id; where there is
/// none, no profile has it.
pub proof fn lemma_profile_index(profiles: Seq<Profile>, id: Seq<char>, from: int)
    requires
        0 <= from,
    ensures
        profile_index_from(profiles, id, from) >= 0 ==> from <= profile_index_from(profiles, id, from)
            < profiles.len() && has_id(profiles[profile_index_from(profiles, id, from)], id),
        profile_index_from(profiles, id, from) < 0 ==> forall|k: int|
            from <= k < profiles.len() ==> !has_id(#[trigger] profiles[k], id),
        forall|k: int| from <= k < profile_index_from(profiles, id, from) ==> !has_id(#[trigger] profiles[k], id),
    decreases profiles.len() - from,
{
    if from < profiles.len() && !has_id(profiles[from], id) {
        lemma_profile_index(profiles, id, from + 1);
    }
}

impl ProfilesManager {
    /// A manager over the given stored configuration.
    pub fn new(config: Config) -> (m: ProfilesManager)
        ensures
            m.config == config,
    {
        ProfilesManager { config }
    }

    /// Checks a profile against the displays at hand: the first of its
    /// monitors that does not fit gives the error (see `profile_problem`).
    /// `rate_matches` lists the pairs (configured refresh rate, offered
    /// refresh rate), as bit patterns, that lie within 0.01 of each other.
    pub fn validate_profile(
        profile: &Profile,
        available_displays: &Vec<Monitor>,
        rate_matches: &Vec<(u64, u32)>,
    ) -> (r: Option<ValidationError>)
        ensures
            match profile_problem(*profile, available_displays@, rate_matches@) {
                Some(e) => r matches Some(x) && x@ == e,
                None => r is None,
            },
    {
        first_profile_problem(profile, available_displays, rate_matches)
    }

    /// The id that a new profile is stored under: the one it brings, which no
    /// stored profile may carry already, or else a fresh random UUID.
    pub fn assign_profile_id(&self, profile: &Profile) -> (r: Result<String, DataModuleError>)
        ensures
            match profile.id {
                Some(uid) => if id_taken(self.config.profiles@, uid@) {
                    r matches Err(
                        DataModuleError::ConfigIsNotSupported(
                            ValidationError::DuplicateProfileId(d),
                        ),
                    ) && d@ == uid@
                } else {
                    r matches Ok(s) && s@ == uid@
                },
                None => r matches Ok(s) && is_v4_uuid_text(s@),
            },
    {
        match &profile.id {
            Some(uid) => {
                let found = find_profile(&self.config.profiles, uid);
                proof {
                    lemma_profile_index(self.config.profiles@, uid@, 0);
                }
                match found {
                    Some(_) => Err(
                        DataModuleError::ConfigIsNotSupported(
                            ValidationError::DuplicateProfileId(uid.clone()),
                        ),
                    ),
                    None => Ok(uid.clone()),
                }
            },
            None => Ok(new_profile_id()),
        }
    }

    /// Stores a profile where it fits the displays at hand, under its own id,
    /// or under `id` where it brings none. A profile whose own id is stored
    /// already is refused first; then the first monitor that does not fit
    /// gives the error. A refused profile changes nothing.
    pub fn add_profile(
        &mut self,
        profile: Profile,
        id: String,
        available_displays: &Vec<Monitor>,
        rate_matches: &Vec<(u64, u32)>,
    ) -> (r: Result<String, DataModuleError>)
        ensures
            add_outcome(
                old(self).config,
                profile,
                id,
                available_displays@,
                rate_matches@,
                r,
                final(self).config,
            ),
    {
        match &profile.id {
            Some(u) => {
                let found = find_profile(&self.config.profiles, u);
                proof {
                    lemma_profile_index(self.config.profiles@, u@, 0);
                }
                if found.is_some() {
                    return Err(
                        DataModuleError::ConfigIsNotSupported(
                            ValidationError::DuplicateProfileId(u.clone()),
                        ),
                    );
                }
            },
            None => {},
        }
        match first_profile_problem(&profile, available_displays, rate_matches) {
            Some(e) => Err(DataModuleError::ConfigIsNotSupported(e)),
            None => {
                let stored = match &profile.id {
                    Some(u) => u.clone(),
                    None => id,
                };
                let mut profile = profile;
                profile.id = Some(stored.clone());
                self.config.profiles.push(profile);
                Ok(stored)
            },
        }
    }

    /// The profile applied last. A current id that no stored profile carries
    /// is a broken configuration, which this does not accept.
    pub fn get_current_profile(self) -> (r: Result<Profile, DataModuleError>)
        requires
            self.config.current_profile_id matches Some(id) ==> id_taken(self.config.profiles@, id@),
        ensures
            r == current_profile_result(self.config),
    {
        let ghost c = self.config;
        let mut profiles = self.config.profiles;
        match self.config.current_profile_id {
            Some(id) => {
                proof {
                    lemma_profile_index(c.profiles@, id@, 0);
                }
                let i = find_profile(&profiles, &id).unwrap();
                Ok(profiles.remove(i))
            },
            None => Err(DataModuleError::CurrentProfileNotSet),
        }
    }

    /// The first stored profile with the given id.
    pub fn get_profile_by_id(self, id: String) -> (r: Result<Profile, DataModuleError>)
        ensures
            r == profile_by_id_result(self.config, id@),
    {
        let mut profiles = self.config.profiles;
        match find_profile(&profiles, &id) {
            Some(i) => Ok(profiles.remove(i)),
            None => Err(DataModuleError::ProfileNotFound),
        }
    }

    /// The profile after the current one, in stored order, wrapping around.
    pub fn get_next_profile(self) -> (r: Result<Profile, DataModuleError>)
        ensures
            r == next_profile_result(self.config),
    {
        let mut profiles = self.config.profiles;
        let n = profiles.len();
        if n < 2 {
            return Err(DataModuleError::NotEnoughProfiles);
        }
        let current = match self.config.current_profile_id {
            Some(id) => id,
            None => {
                return Err(DataModuleError::CurrentProfileNotSet);
            },
        };
        let i = match find_profile(&profiles, &current) {
            Some(i) => i,
            None => {
                return Err(DataModuleError::ProfileNotFound);
            },
        };
        let next = (i + 1) % n;
        Ok(profiles.remove(next))
    }

    /// Makes the stored profile with the given id the current one.
    pub fn set_current_profile_id(&mut self, profile_id: String) -> (r: Result<(), DataModuleError>)
        ensures
            (final(self).config, r) == set_current_result(old(self).config, profile_id),
    {
        let found = find_profile(&self.config.profiles, &profile_id);
        proof {
            lemma_profile_index(self.config.profiles@, profile_id@, 0);
        }
        match found {
            Some(_) => {
                self.config.current_profile_id = Some(profile_id);
                Ok(())
            },
            None => Err(DataModuleError::ProfileNotFound),
        }
    }
}

/// Whether no two stored profiles that have an id share it; profiles without
/// an id are left out.
pub open spec fn present_ids_distinct(profiles: Seq<Profile>) -> bool {
    forall|a: int, b: int| #![trigger profiles[a], profiles[b]]
        0 <= a < b < profiles.len() && profiles[a].id is Some && profiles[b].id is Some
            ==> profiles[a].id->0@ != profiles[b].id->0@
}

/// Whether every stored profile has an id and no two share one.
pub open spec fn ids_distinct(profiles: Seq<Profile>) -> bool {
    &&& forall|k: int| 0 <= k < profiles.len() ==> (#[trigger] profiles[k]).id is Some
    &&& forall|a: int, b: int| #![trigger profiles[a], profiles[b]]
        0 <= a < b < profiles.len() ==> profiles[a].id->0@ != profiles[b].id->0@
}

/// After a profile is made current, the current profile is the first stored
/// profile with that id, and it carries the id.
pub proof fn law_set_then_current(c: Config, id: String)
    requires
        set_current_result(c, id).1 is Ok,
    ensures
        ({
            let after = set_current_result(c, id).0;
            &&& after.current_profile_id matches Some(x) && id_taken(after.profiles@, x@)
            &&& current_profile_result(after) == Ok::<Profile, DataModuleError>(
                c.profiles@[profile_index(c.profiles@, id@)],
            )
            &&& has_id(c.profiles@[profile_index(c.profiles@, id@)], id@)
        }),
{
    let k = choose|k: int| 0 <= k < c.profiles@.len() && has_id(#[trigger] c.profiles@[k], id@);
    lemma_profile_index(c.profiles@, id@, 0);
}

proof fn lemma_push_fresh_found(c: Config, p: Profile, given: String, after: Config, other: Seq<char>)
    requires
        !id_taken(c.profiles@, stored_id(p, given)@),
        after.profiles@ == c.profiles@.push(with_id(p, stored_id(p, given))),
    ensures
        profile_by_id_result(after, stored_id(p, given)@) == Ok::<Profile, DataModuleError>(
            with_id(p, stored_id(p, given)),
        ),
        profile_by_id_result(c, other) is Ok ==> profile_by_id_result(after, other)
            == profile_by_id_result(c, other),
{
    let id = stored_id(p, given);
    let n = c.profiles@.len();
    lemma_profile_index(after.profiles@, id@, 0);
    lemma_profile_index(c.profiles@, id@, 0);
    assert forall|k: int| 0 <= k < n implies !has_id(#[trigger] after.profiles@[k], id@) by {
        assert(after.profiles@[k] == c.profiles@[k]);
    }
    assert(has_id(after.profiles@[n as int], id@));
    lemma_profile_index(c.profiles@, other, 0);
    lemma_profile_index(after.profiles@, other, 0);
    if profile_by_id_result(c, other) is Ok {
        let i = profile_index(c.profiles@, other);
        assert(after.profiles@[i] == c.profiles@[i]);
        let j = profile_index(after.profiles@, other);
        if j < i {
            assert(after.profiles@[j] == c.profiles@[j]);
        }
    }
}

proof fn lemma_push_fresh_distinct(profiles: Seq<Profile>, p: Profile, given: String)
    requires
        ids_distinct(profiles),
        !id_taken(profiles, stored_id(p, given)@),
    ensures
        ids_distinct(profiles.push(with_id(p, stored_id(p, given)))),
{
    let id = stored_id(p, given);
    let after = profiles.push(with_id(p, id));
    assert forall|a: int, b: int| #![trigger after[a], after[b]]
        0 <= a < b < after.len() implies after[a].id->0@ != after[b].id->0@ by {
        assert(after[a] == profiles[a]);
        if b < profiles.len() {
            assert(after[b] == profiles[b]);
        } else {
            assert(!has_id(profiles[a], id@));
        }
    }
    assert forall|k: int| 0 <= k < after.len() implies (#[trigger] after[k]).id is Some by {
        if k < profiles.len() {
            assert(after[k] == profiles[k]);
        }
    }
}

proof fn lemma_push_fresh_present_distinct(profiles: Seq<Profile>, p: Profile, given: String)
    requires
        present_ids_distinct(profiles),
        !id_taken(profiles, stored_id(p, given)@),
    ensures
        present_ids_distinct(profiles.push(with_id(p, stored_id(p, given)))),
{
    let id = stored_id(p, given);
    let after = profiles.push(with_id(p, id));
    assert forall|a: int, b: int| #![trigger after[a], after[b]]
        0 <= a < b < after.len() && after[a].id is Some && after[b].id is Some
        implies after[a].id->0@ != after[b].id->0@ by {
        assert(after[a] == profiles[a]);
        if b < profiles.len() {
            assert(after[b] == profiles[b]);
        } else {
            assert(!has_id(profiles[a], id@));
        }
    }
}

/// A profile that `add_profile` accepted is found again by the id it
/// returned, as it was stored, and every id found before is found where it
/// was; for a profile without an id this asks that the id handed in is not
/// stored already (a profile with its own id is refused where that id is).
pub proof fn law_added_profile_is_found(
    c: Config,
    p: Profile,
    given: String,
    displays: Seq<Monitor>,
    rate_matches: Seq<(u64, u32)>,
    r: Result<String, DataModuleError>,
    after: Config,
    other: Seq<char>,
)
    requires
        add_outcome(c, p, given, displays, rate_matches, r, after),
        r is Ok,
        p.id is None ==> !id_taken(c.profiles@, given@),
    ensures
        profile_by_id_result(after, r->Ok_0@) == Ok::<Profile, DataModuleError>(
            with_id(p, r->Ok_0),
        ),
        profile_by_id_result(c, other) is Ok ==> profile_by_id_result(after, other)
            == profile_by_id_result(c, other),
{
    lemma_push_fresh_found(c, p, given, after, other);
}

/// After `add_profile` accepts a profile, no two stored profiles that have
/// an id share it where none did before, and where every stored profile had
/// an id, every one still has; for a profile without an id this asks that
/// the id handed in is not stored already.
pub proof fn law_added_profile_keeps_ids_distinct(
    c: Config,
    p: Profile,
    given: String,
    displays: Seq<Monitor>,
    rate_matches: Seq<(u64, u32)>,
    r: Result<String, DataModuleError>,
    after: Config,
)
    requires
        present_ids_distinct(c.profiles@),
        add_outcome(c, p, given, displays, rate_matches, r, after),
        r is Ok,
        p.id is None ==> !id_taken(c.profiles@, given@),
    ensures
        present_ids_distinct(after.profiles@),
        ids_distinct(c.profiles@) ==> ids_distinct(after.profiles@),
{
    lemma_push_fresh_present_distinct(c.profiles@, p, given);
    if ids_distinct(c.profiles@) {
        lemma_push_fresh_distinct(c.profiles@, p, given);
    }
}

/// With distinct ids, the profile after the one made current is the next
/// one in stored order, and after the last comes the first.
pub proof fn law_next_follows_current(c: Config, i: int)
    requires
        ids_distinct(c.profiles@),
        c.profiles@.len() >= 2,
        0 <= i < c.profiles@.len(),
    ensures
        ({
            let id = c.profiles@[i].id->0;
            let after = set_current_result(c, id).0;
            &&& set_current_result(c, id).1 is Ok
            &&& next_profile_result(after) == Ok::<Profile, DataModuleError>(
                c.profiles@[(i + 1) % (c.profiles@.len() as int)],
            )
        }),
{
    let id = c.profiles@[i].id->0;
    assert(has_id(c.profiles@[i], id@));
    lemma_profile_index(c.profiles@, id@, 0);
    let j = profile_index(c.profiles@, id@);
    if j != i {
        if j < i {
            assert(c.profiles@[j].id->0@ != c.profiles@[i].id->0@);
        }
    }
}

/// Whether the current id, where one is set, names a stored profile, as
/// `get_current_profile` needs.
pub open spec fn current_is_stored(c: Config) -> bool {
    c.current_profile_id matches Some(id) ==> id_taken(c.profiles@, id@)
}

/// Making a profile current, whether it succeeds or not, leaves a current
/// id that names a stored profile where there was one before, and where it
/// succeeds, there is one after.
pub proof fn law_set_current_keeps_current_stored(c: Config, id: String)
    ensures
        current_is_stored(c) ==> current_is_stored(set_current_result(c, id).0),
        set_current_result(c, id).1 is Ok ==> current_is_stored(set_current_result(c, id).0),
{
}

/// Adding a profile, whether it is accepted or refused, keeps the current id
/// naming a stored profile.
pub proof fn law_add_keeps_current_stored(
    c: Config,
    p: Profile,
    given: String,
    displays: Seq<Monitor>,
    rate_matches: Seq<(u64, u32)>,
    r: Result<String, DataModuleError>,
    after: Config,
)
    requires
        current_is_stored(c),
        add_outcome(c, p, given, displays, rate_matches, r, after),
    ensures
        current_is_stored(after),
{
    if after != c {
        if let Some(cur) = c.current_profile_id {
            let k = choose|k: int| 0 <= k < c.profiles@.len() && has_id(#[trigger] c.profiles@[k], cur@);
            assert(after.profiles@[k] == c.profiles@[k]);
        }
    }
}

proof fn lemma_display_index_extend(ds: Seq<Monitor>, extra: Seq<Monitor>, name: Seq<char>, from: int)
    requires
        0 <= from,
        display_index_from(ds, name, from) >= 0,
    ensures
        from <= display_index_from(ds, name, from) < ds.len(),
        display_index_from(ds + extra, name, from) == display_index_from(ds, name, from),
    decreases ds.len() - from,
{
    assert((ds + extra)[from] == ds[from]);
    if ds[from].name@ != name {
        lemma_display_index_extend(ds, extra, name, from + 1);
    }
}

proof fn lemma_monitor_problem_extend(
    ms: Seq<MonitorConfig>,
    ds: Seq<Monitor>,
    extra: Seq<Monitor>,
    rate_matches: Seq<(u64, u32)>,
    i: int,
)
    requires
        0 <= i < ms.len(),
        monitor_problem(ms, ds, rate_matches, i) is None,
    ensures
        monitor_problem(ms, ds + extra, rate_matches, i) is None,
{
    let d = display_index(ds, ms[i].name@);
    lemma_display_index_extend(ds, extra, ms[i].name@, 0);
    assert((ds + extra)[d] == ds[d]);
}

proof fn lemma_first_problem_extend(
    ms: Seq<MonitorConfig>,
    ds: Seq<Monitor>,
    extra: Seq<Monitor>,
    rate_matches: Seq<(u64, u32)>,
    from: int,
)
    requires
        0 <= from,
        first_problem_from(ms, ds, rate_matches, from) is None,
    ensures
        first_problem_from(ms, ds + extra, rate_matches, from) is None,
    decreases ms.len() - from,
{
    if from < ms.len() {
        lemma_monitor_problem_extend(ms, ds, extra, rate_matches, from);
        lemma_first_problem_extend(ms, ds, extra, rate_matches, from + 1);
    }
}

/// A profile that fits the displays at hand still fits when more displays
/// are connected: the first display of each name stays the first.
pub proof fn law_more_displays_keep_profile_valid(
    p: Profile,
    displays: Seq<Monitor>,
    extra: Seq<Monitor>,
    rate_matches: Seq<(u64, u32)>,
)
    requires
        profile_problem(p, displays, rate_matches) is None,
    ensures
        profile_problem(p, displays + extra, rate_matches) is None,
{
    lemma_first_problem_extend(p.monitors@, displays, extra, rate_matches, 0);
}

/// A profile without monitors fits any displays.
pub proof fn law_profile_without_monitors_is_valid(
    p: Profile,
    displays: Seq<Monitor>,
    rate_matches: Seq<(u64, u32)>,
)
    requires
        p.monitors@.len() == 0,
    ensures
        profile_problem(p, displays, rate_matches) is None,
{
}

/// The configuration after `k` rounds of taking the next profile and making
/// it current (a round that finds no next profile, or one without an id,
/// changes nothing).
pub open spec fn after_rounds(c: Config, k: nat) -> Config
    decreases k,
{
    if k == 0 {
        c
    } else {
        let prev = after_rounds(c, (k - 1) as nat);
        match next_profile_result(prev) {
            Ok(p) => match p.id {
                Some(id) => set_current_result(prev, id).0,
                None => prev,
            },
            Err(_) => prev,
        }
    }
}

proof fn lemma_next_at(c: Config, j: int)
    requires
        ids_distinct(c.profiles@),
        c.profiles@.len() >= 2,
        0 <= j < c.profiles@.len(),
        c.current_profile_id == Some(c.profiles@[j].id->0),
    ensures
        next_profile_result(c) == Ok::<Profile, DataModuleError>(
            c.profiles@[(j + 1) % (c.profiles@.len() as int)],
        ),
{
    let id = c.profiles@[j].id->0;
    assert(has_id(c.profiles@[j], id@));
    lemma_profile_index(c.profiles@, id@, 0);
    let q = profile_index(c.profiles@, id@);
    if q < j {
        assert(c.profiles@[q].id->0@ != c.profiles@[j].id->0@);
    }
}

proof fn lemma_rounds(c: Config, i: int, k: nat)
    requires
        ids_distinct(c.profiles@),
        c.profiles@.len() >= 2,
        0 <= i < c.profiles@.len(),
        c.current_profile_id == Some(c.profiles@[i].id->0),
    ensures
        after_rounds(c, k).profiles == c.profiles,
        after_rounds(c, k).current_profile_id == Some(
            c.profiles@[(i + k) % (c.profiles@.len() as int)].id->0,
        ),
    decreases k,
{
    let n = c.profiles@.len() as int;
    if k == 0 {
        vstd::arithmetic::div_mod::lemma_small_mod(i as nat, n as nat);
    } else {
        lemma_rounds(c, i, (k - 1) as nat);
        let prev = after_rounds(c, (k - 1) as nat);
        let j = (i + k - 1) % n;
        lemma_next_at(prev, j);
        vstd::arithmetic::div_mod::lemma_add_mod_noop(i + k - 1, 1, n);
        vstd::arithmetic::div_mod::lemma_small_mod(1, n as nat);
        let next = (j + 1) % n;
        assert(next == (i + k) % n);
        let id = c.profiles@[next].id->0;
        assert(has_id(prev.profiles@[next], id@));
        assert(id_taken(prev.profiles@, id@));
    }
}

/// With distinct ids, taking the next profile and making it current walks
/// the stored profiles in order from the current one: round `k` yields the
/// profile `k` places on (wrapping around), the first `n` rounds yield every
/// profile once, and after `n` rounds the starting profile is current again.
pub proof fn law_rounds_cycle(c: Config, i: int)
    requires
        ids_distinct(c.profiles@),
        c.profiles@.len() >= 2,
        0 <= i < c.profiles@.len(),
        c.current_profile_id == Some(c.profiles@[i].id->0),
    ensures
        forall|k: nat| #[trigger] next_profile_result(after_rounds(c, k)) == Ok::<
            Profile,
            DataModuleError,
        >(c.profiles@[(i + k + 1) % (c.profiles@.len() as int)]),
        forall|k1: int, k2: int|
            1 <= k1 < k2 <= c.profiles@.len() ==> #[trigger] ((i + k1) % (c.profiles@.len() as int))
                != #[trigger] ((i + k2) % (c.profiles@.len() as int)),
        after_rounds(c, c.profiles@.len()) == c,
{
    let n = c.profiles@.len() as int;
    assert forall|k: nat| #[trigger] next_profile_result(after_rounds(c, k)) == Ok::<
        Profile,
        DataModuleError,
    >(c.profiles@[(i + k + 1) % n]) by {
        lemma_rounds(c, i, k);
        let r = after_rounds(c, k);
        let j = (i + k) % n;
        lemma_next_at(r, j);
        vstd::arithmetic::div_mod::lemma_add_mod_noop(i + k, 1, n);
        vstd::arithmetic::div_mod::lemma_small_mod(1, n as nat);
    }
    assert forall|k1: int, k2: int| 1 <= k1 < k2 <= n implies #[trigger] ((i + k1) % n)
        != #[trigger] ((i + k2) % n) by {
        vstd::arithmetic::div_mod::lemma_fundamental_div_mod(i + k1, n);
        vstd::arithmetic::div_mod::lemma_fundamental_div_mod(i + k2, n);
        let q1 = (i + k1) / n;
        let q2 = (i + k2) / n;
        if (i + k1) % n == (i + k2) % n {
            assert(n * q2 - n * q1 == k2 - k1);
            assert(n * (q2 - q1) == k2 - k1) by (nonlinear_arith)
                requires
                    n * q2 - n * q1 == k2 - k1,
            ;
            assert(false) by (nonlinear_arith)
                requires
                    n * (q2 - q1) == k2 - k1,
                    0 < k2 - k1 < n,
            ;
        }
    }
    lemma_rounds(c, i, n as nat);
    vstd::arithmetic::div_mod::lemma_mod_add_multiples_vanish(i, n);
    vstd::arithmetic::div_mod::lemma_small_mod(i as nat, n as nat);
    assert((i + n) % n == i);
    let a = after_rounds(c, n as nat);
    assert(a.current_profile_id == c.current_profile_id);
    assert(a == c);
}

} // verus!
