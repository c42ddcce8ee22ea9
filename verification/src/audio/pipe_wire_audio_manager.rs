use vstd::prelude::*;
use crate::audio::audio_error::AudioError;
use crate::text::{
    char_vec_views, chars_of, chars_start_with, split_lines, split_lines_of, starts_with,
    string_from_chars, string_from_str, words, words_of,
};

verus! {

/// Selects audio sinks through `pactl`; with `dry_run` it only prints the
/// changes it would make.
pub struct PipeWireAudioManager {
    pub dry_run: bool,
}

/// The sink name on one line of `pactl list short sinks`: its second word.
pub open spec fn sink_name_of_line(line: Seq<char>) -> Option<Seq<char>> {
    if words(line).len() >= 2 {
        Some(words(line)[1])
    } else {
        None
    }
}

/// The sink names of the lines, in order.
pub open spec fn sink_names_of_lines(lines: Seq<Seq<char>>) -> Seq<Seq<char>>
    decreases lines.len(),
{
    if lines.len() == 0 {
        Seq::empty()
    } else {
        match sink_name_of_line(lines.last()) {
            Some(n) => sink_names_of_lines(lines.drop_last()).push(n),
            None => sink_names_of_lines(lines.drop_last()),
        }
    }
}

/// The sink names in the output of `pactl list short sinks`: the second word
/// of each line that has two.
pub open spec fn sink_names_spec(listing: Seq<char>) -> Seq<Seq<char>> {
    sink_names_of_lines(split_lines(listing))
}

/// The first of `names`, at or after `from`, that begins with `prefix`.
pub open spec fn first_with_prefix(names: Seq<Seq<char>>, prefix: Seq<char>, from: int) -> Option<
    Seq<char>,
>
    decreases names.len() - from,
{
    if from < 0 || from >= names.len() {
        None
    } else if starts_with(names[from], prefix) {
        Some(names[from])
    } else {
        first_with_prefix(names, prefix, from + 1)
    }
}

/// Whether `name` begins with `prefix`, character for character; a name
/// equal to the prefix begins with it.
pub open spec fn begins_with(name: Seq<char>, prefix: Seq<char>) -> bool {
    prefix.len() <= name.len() && forall|c: int| 0 <= c < prefix.len() ==> name[c] == prefix[c]
}

proof fn lemma_first_with_prefix(names: Seq<Seq<char>>, prefix: Seq<char>, from: int)
    requires
        0 <= from,
    ensures
        match first_with_prefix(names, prefix, from) {
            Some(n) => exists|k: int|
                from <= k < names.len() && names[k] == n && begins_with(n, prefix) && forall|
                    j: int,
                |
                    from <= j < k ==> !begins_with(#[trigger] names[j], prefix),
            None => forall|j: int| from <= j < names.len() ==> !begins_with(#[trigger] names[j], prefix),
        },
    decreases names.len() - from,
{
    if from < names.len() {
        lemma_first_with_prefix(names, prefix, from + 1);
        let n = names[from];
        if starts_with(n, prefix) {
            assert forall|c: int| 0 <= c < prefix.len() implies n[c] == prefix[c] by {
                assert(n.take(prefix.len() as int)[c] == n[c]);
            }
        } else {
            if begins_with(n, prefix) {
                assert(n.take(prefix.len() as int) =~= prefix);
            }
        }
    }
}

/// The sink looked up by a prefix is the first listed name that begins with
/// it, where any does, and there is none only where no listed name begins
/// with it; in particular a listed name looked up in full is found.
pub proof fn law_sink_lookup(names: Seq<Seq<char>>, prefix: Seq<char>)
    ensures
        match first_with_prefix(names, prefix, 0) {
            Some(n) => exists|k: int|
                0 <= k < names.len() && names[k] == n && begins_with(n, prefix) && forall|j: int|
                    0 <= j < k ==> !begins_with(#[trigger] names[j], prefix),
            None => forall|j: int| 0 <= j < names.len() ==> !begins_with(#[trigger] names[j], prefix),
        },
        names.contains(prefix) ==> first_with_prefix(names, prefix, 0) is Some,
{
    lemma_first_with_prefix(names, prefix, 0);
    if names.contains(prefix) {
        let k = choose|k: int| 0 <= k < names.len() && names[k] == prefix;
        assert(begins_with(names[k], prefix));
    }
}

/// The strings seen as characters.
pub open spec fn string_views(v: Seq<String>) -> Seq<Seq<char>> {
    v.map_values(|s: String| s@)
}

fn sink_names_chars(listing: &str) -> (names: Vec<Vec<char>>)
    ensures
        char_vec_views(names@) == sink_names_spec(listing@),
{
    let v = chars_of(listing);
    let lines = split_lines_of(&v);
    let mut names: Vec<Vec<char>> = Vec::new();
    for i in 0..lines.len()
        invariant
            char_vec_views(lines@) == split_lines(listing@),
            char_vec_views(names@) == sink_names_of_lines(char_vec_views(lines@).take(i as int)),
    {
        let ghost ls = char_vec_views(lines@);
        assert(ls.take(i + 1).drop_last() == ls.take(i as int));
        assert(ls[i as int] == lines@[i as int]@);
        let mut ws = words_of(&lines[i]);
        let ghost before = names@;
        if ws.len() >= 2 {
            let ghost wv = ws@;
            let w = ws.remove(1);
            assert(char_vec_views(wv)[1] == w@);
            names.push(w);
            assert(char_vec_views(names@) =~= char_vec_views(before).push(w@));
        }
    }
    assert(char_vec_views(lines@).take(lines.len() as int) == char_vec_views(lines@));
    names
}

/// The sink names in the output of `pactl list short sinks` (see `sink_names_spec`).
pub fn sink_names(listing: &str) -> (names: Vec<String>)
    ensures
        string_views(names@) == sink_names_spec(listing@),
{
    let chars = sink_names_chars(listing);
    let mut names: Vec<String> = Vec::new();
    for i in 0..chars.len()
        invariant
            string_views(names@) == char_vec_views(chars@).take(i as int),
    {
        let s = string_from_chars(&chars[i]);
        let ghost before = names@;
        names.push(s);
        assert(string_views(names@) =~= string_views(before).push(s@));
        assert(char_vec_views(chars@).take(i + 1) =~= char_vec_views(chars@).take(i as int).push(
            chars@[i as int]@,
        ));
    }
    assert(char_vec_views(chars@).take(chars.len() as int) =~= char_vec_views(chars@));
    names
}

/// The first sink in the output of `pactl list short sinks` whose name
/// begins with `prefix`.
pub fn find_sink_in_listing(listing: &str, prefix: &str) -> (r: Option<String>)
    ensures
        match first_with_prefix(sink_names_spec(listing@), prefix@, 0) {
            Some(n) => r matches Some(s) && s@ == n,
            None => r is None,
        },
{
    let names = sink_names_chars(listing);
    let p = chars_of(prefix);
    let mut i: usize = 0;
    while i < names.len()
        invariant
            i <= names.len(),
            char_vec_views(names@) == sink_names_spec(listing@),
            p@ == prefix@,
            first_with_prefix(sink_names_spec(listing@), prefix@, 0) == first_with_prefix(
                sink_names_spec(listing@),
                prefix@,
                i as int,
            ),
        decreases names.len() - i,
    {
        assert(char_vec_views(names@)[i as int] == names@[i as int]@);
        if chars_start_with(&names[i], &p) {
            return Some(string_from_chars(&names[i]));
        }
        i = i + 1;
    }
    None
}

/// How many times selecting a sink is tried.
pub const SINK_ATTEMPTS: u32 = 10;

/// Where selecting a sink stands.
#[derive(Clone, Copy, Debug, PartialEq, Eq, Structural)]
pub enum SinkStage {
    /// The sinks are being listed.
    Finding,
    /// The sink found is being made the default.
    SettingDefault,
    /// The sink's volume is being set.
    SettingVolume,
    /// Waiting before the next attempt.
    Waiting,
    /// Selection is over.
    Done(SinkOutcome),
}

/// How selecting a sink ended.
#[derive(Clone, Copy, Debug, PartialEq, Eq, Structural)]
pub enum SinkOutcome {
    /// The sink is the default and has its volume.
    Selected,
    /// Listing the sinks or setting the volume failed, with that error.
    Failed,
    /// No attempt succeeded.
    GaveUp,
}

/// What the caller reports after doing what it was asked.
#[derive(Clone, Copy, Debug, PartialEq, Eq, Structural)]
pub enum SinkEvent {
    /// A sink whose name begins with the prefix was listed.
    Found,
    /// No such sink was listed.
    NotFound,
    /// Listing the sinks failed.
    FindFailed,
    DefaultSet,
    DefaultFailed,
    VolumeSet,
    VolumeFailed,
    Waited,
}

/// What the caller is asked to do next.
#[derive(Clone, Copy, Debug, PartialEq, Eq, Structural)]
pub enum SinkAction {
    /// List the sinks and look for one whose name begins with the prefix.
    FindSink,
    /// Make the sink found the default one.
    SetDefault,
    /// Set the volume of the sink found.
    SetVolume,
    /// Wait half a second.
    Wait,
    /// Report success.
    Succeed,
    /// Report the error of the last call.
    FailWithLastError,
    /// Report that no attempt succeeded (see `sink_retries_exhausted`).
    GiveUp,
}

/// The state of selecting a sink: which attempt (from 0) and its stage.
#[derive(Clone, Copy, Debug, PartialEq, Eq, Structural)]
pub struct SinkRetry {
    pub attempt: u32,
    pub stage: SinkStage,
}

/// What the caller is asked to do in a stage, again.
pub open spec fn pending_action(stage: SinkStage) -> SinkAction {
    match stage {
        SinkStage::Finding => SinkAction::FindSink,
        SinkStage::SettingDefault => SinkAction::SetDefault,
        SinkStage::SettingVolume => SinkAction::SetVolume,
        SinkStage::Waiting => SinkAction::Wait,
        SinkStage::Done(SinkOutcome::Selected) => SinkAction::Succeed,
        SinkStage::Done(SinkOutcome::Failed) => SinkAction::FailWithLastError,
        SinkStage::Done(SinkOutcome::GaveUp) => SinkAction::GiveUp,
    }
}

/// One step of selecting a sink: a failed listing or volume change ends it
/// with that error; a missing sink or a failed default change waits and tries
/// again, up to `SINK_ATTEMPTS` attempts; an event that does not answer the
/// stage changes nothing and asks again.
pub open spec fn sink_transition(s: SinkRetry, e: SinkEvent) -> (SinkRetry, SinkAction) {
    match (s.stage, e) {
        (SinkStage::Finding, SinkEvent::Found) => (
            SinkRetry { stage: SinkStage::SettingDefault, ..s },
            SinkAction::SetDefault,
        ),
        (SinkStage::Finding, SinkEvent::NotFound) => (
            SinkRetry { stage: SinkStage::Waiting, ..s },
            SinkAction::Wait,
        ),
        (SinkStage::Finding, SinkEvent::FindFailed) => (
            SinkRetry { stage: SinkStage::Done(SinkOutcome::Failed), ..s },
            SinkAction::FailWithLastError,
        ),
        (SinkStage::SettingDefault, SinkEvent::DefaultSet) => (
            SinkRetry { stage: SinkStage::SettingVolume, ..s },
            SinkAction::SetVolume,
        ),
        (SinkStage::SettingDefault, SinkEvent::DefaultFailed) => (
            SinkRetry { stage: SinkStage::Waiting, ..s },
            SinkAction::Wait,
        ),
        (SinkStage::SettingVolume, SinkEvent::VolumeSet) => (
            SinkRetry { stage: SinkStage::Done(SinkOutcome::Selected), ..s },
            SinkAction::Succeed,
        ),
        (SinkStage::SettingVolume, SinkEvent::VolumeFailed) => (
            SinkRetry { stage: SinkStage::Done(SinkOutcome::Failed), ..s },
            SinkAction::FailWithLastError,
        ),
        (SinkStage::Waiting, SinkEvent::Waited) => if s.attempt + 1 < SINK_ATTEMPTS {
            (
                SinkRetry { attempt: (s.attempt + 1) as u32, stage: SinkStage::Finding },
                SinkAction::FindSink,
            )
        } else {
            (SinkRetry { stage: SinkStage::Done(SinkOutcome::GaveUp), ..s }, SinkAction::GiveUp)
        },
        _ => (s, pending_action(s.stage)),
    }
}

/// Whether a state can be reached: attempts stay below `SINK_ATTEMPTS`.
pub open spec fn sink_retry_wf(s: SinkRetry) -> bool {
    s.attempt < SINK_ATTEMPTS
}

impl SinkRetry {
    /// The first attempt, listing the sinks.
    pub fn start() -> (r: (SinkRetry, SinkAction))
        ensures
            r.0 == (SinkRetry { attempt: 0, stage: SinkStage::Finding }),
            r.1 == SinkAction::FindSink,
            sink_retry_wf(r.0),
    {
        (SinkRetry { attempt: 0, stage: SinkStage::Finding }, SinkAction::FindSink)
    }

    /// The next step after `event` (see `sink_transition`).
    pub fn next(self, event: SinkEvent) -> (r: (SinkRetry, SinkAction))
        ensures
            r == sink_transition(self, event),
    {
        match (self.stage, event) {
            (SinkStage::Finding, SinkEvent::Found) => (
                SinkRetry { attempt: self.attempt, stage: SinkStage::SettingDefault },
                SinkAction::SetDefault,
            ),
            (SinkStage::Finding, SinkEvent::NotFound) => (
                SinkRetry { attempt: self.attempt, stage: SinkStage::Waiting },
                SinkAction::Wait,
            ),
            (SinkStage::Finding, SinkEvent::FindFailed) => (
                SinkRetry { attempt: self.attempt, stage: SinkStage::Done(SinkOutcome::Failed) },
                SinkAction::FailWithLastError,
            ),
            (SinkStage::SettingDefault, SinkEvent::DefaultSet) => (
                SinkRetry { attempt: self.attempt, stage: SinkStage::SettingVolume },
                SinkAction::SetVolume,
            ),
            (SinkStage::SettingDefault, SinkEvent::DefaultFailed) => (
                SinkRetry { attempt: self.attempt, stage: SinkStage::Waiting },
                SinkAction::Wait,
            ),
            (SinkStage::SettingVolume, SinkEvent::VolumeSet) => (
                SinkRetry { attempt: self.attempt, stage: SinkStage::Done(SinkOutcome::Selected) },
                SinkAction::Succeed,
            ),
            (SinkStage::SettingVolume, SinkEvent::VolumeFailed) => (
                SinkRetry { attempt: self.attempt, stage: SinkStage::Done(SinkOutcome::Failed) },
                SinkAction::FailWithLastError,
            ),
            (SinkStage::Waiting, SinkEvent::Waited) => {
                if self.attempt < SINK_ATTEMPTS - 1 {
                    (
                        SinkRetry { attempt: self.attempt + 1, stage: SinkStage::Finding },
                        SinkAction::FindSink,
                    )
                } else {
                    (
                        SinkRetry { attempt: self.attempt, stage: SinkStage::Done(SinkOutcome::GaveUp) },
                        SinkAction::GiveUp,
                    )
                }
            },
            _ => {
                let action = match self.stage {
                    SinkStage::Finding => SinkAction::FindSink,
                    SinkStage::SettingDefault => SinkAction::SetDefault,
                    SinkStage::SettingVolume => SinkAction::SetVolume,
                    SinkStage::Waiting => SinkAction::Wait,
                    SinkStage::Done(SinkOutcome::Selected) => SinkAction::Succeed,
                    SinkStage::Done(SinkOutcome::Failed) => SinkAction::FailWithLastError,
                    SinkStage::Done(SinkOutcome::GaveUp) => SinkAction::GiveUp,
                };
                (self, action)
            },
        }
    }
}

/// The error when no attempt selected a sink:
/// `Failed to set sink with prefix '<prefix>' after 10 attempts`.
pub open spec fn sink_retries_exhausted_message(prefix: Seq<char>) -> Seq<char> {
    "Failed to set sink with prefix '"@ + prefix + "' after 10 attempts"@
}

/// The error reported when no attempt selected a sink.
pub fn sink_retries_exhausted(prefix: &str) -> (e: AudioError)
    ensures
        e matches AudioError::FailedToSetAudioSink(m) && m@ == sink_retries_exhausted_message(
            prefix@,
        ),
{
    let mut m = string_from_str("Failed to set sink with prefix '");
    m.append(prefix);
    m.append("' after 10 attempts");
    AudioError::FailedToSetAudioSink(m)
}

/// The number of new attempts (listings of the sinks, not repeated requests)
/// that a sequence of events starts.
pub open spec fn attempts_in_run(s: SinkRetry, events: Seq<SinkEvent>) -> nat
    decreases events.len(),
{
    if events.len() == 0 {
        0
    } else {
        let (t, a) = sink_transition(s, events[0]);
        attempts_in_run(t, events.drop_first()) + if a == SinkAction::FindSink && t != s {
            1nat
        } else {
            0nat
        }
    }
}

/// The states that selection reaches keep their attempts below the limit.
pub proof fn law_sink_retry_stays_wf(s: SinkRetry, e: SinkEvent)
    requires
        sink_retry_wf(s),
    ensures
        sink_retry_wf(sink_transition(s, e).0),
        sink_transition(s, e).0.attempt >= s.attempt,
{
}

/// Whatever the events, selection makes at most `SINK_ATTEMPTS` attempts:
/// the first at the start, and each later one only after a wait.
pub proof fn law_sink_attempts_bounded(s: SinkRetry, events: Seq<SinkEvent>)
    requires
        sink_retry_wf(s),
    ensures
        attempts_in_run(s, events) <= (SINK_ATTEMPTS - 1) - s.attempt,
    decreases events.len(),
{
    if events.len() > 0 {
        let (t, a) = sink_transition(s, events[0]);
        law_sink_attempts_bounded(t, events.drop_first());
    }
}

} // verus!
