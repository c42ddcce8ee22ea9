use vstd::prelude::*;
use crate::profile::profile::Profile;

verus! {

/// What applying a profile does once its monitors have been set up (or
/// failed to be).
#[derive(Clone, Copy, Debug, PartialEq, Eq, Structural)]
pub enum FollowUp {
    /// Tell the user that the profile was applied.
    Notify,
    /// Store the profile's id as the current one.
    RememberProfile,
    /// Select the profile's audio sink.
    SetAudioSink,
}

/// After the monitors: where they were applied, a notification and, for a
/// profile with an id, remembering it as current; then, whatever happened to
/// the monitors, the profile's audio sink where it has one.
pub open spec fn follow_up_plan(p: Profile, monitors_applied: bool) -> Seq<FollowUp> {
    (if monitors_applied {
        seq![FollowUp::Notify] + if p.id is Some {
            seq![FollowUp::RememberProfile]
        } else {
            Seq::empty()
        }
    } else {
        Seq::empty()
    }) + if p.audio_sink is Some {
        seq![FollowUp::SetAudioSink]
    } else {
        Seq::empty()
    }
}

/// The steps of applying a profile that follow its monitors (see `follow_up_plan`).
pub fn follow_up_steps(profile: &Profile, monitors_applied: bool) -> (steps: Vec<FollowUp>)
    ensures
        steps@ == follow_up_plan(*profile, monitors_applied),
{
    let mut steps: Vec<FollowUp> = Vec::new();
    if monitors_applied {
        steps.push(FollowUp::Notify);
        if profile.id.is_some() {
            steps.push(FollowUp::RememberProfile);
        }
    }
    if profile.audio_sink.is_some() {
        steps.push(FollowUp::SetAudioSink);
    }
    assert(steps@ =~= follow_up_plan(*profile, monitors_applied));
    steps
}

/// What follows the monitors, over every profile: a notification first
/// exactly when they were applied; remembering the profile exactly when they
/// were applied and it has an id, and then right after the notification;
/// selecting the audio sink exactly when the profile has one, and then last.
/// The audio sink changes nothing else: the steps are those of the same
/// profile without a sink, with the sink's step added at the end.
pub proof fn law_follow_up_order(p: Profile, monitors_applied: bool)
    ensures
        ({
            let plan = follow_up_plan(p, monitors_applied);
            let without_sink = follow_up_plan(Profile { audio_sink: None, ..p }, monitors_applied);
            &&& plan.contains(FollowUp::Notify) <==> monitors_applied
            &&& plan.contains(FollowUp::RememberProfile) <==> (monitors_applied && p.id is Some)
            &&& plan.contains(FollowUp::SetAudioSink) <==> p.audio_sink is Some
            &&& monitors_applied ==> plan[0] == FollowUp::Notify
            &&& monitors_applied && p.id is Some ==> plan[1] == FollowUp::RememberProfile
            &&& p.audio_sink is Some ==> plan.last() == FollowUp::SetAudioSink
            &&& plan.len() == (if monitors_applied { 1int } else { 0int }) + (if monitors_applied
                && p.id is Some {
                1int
            } else {
                0int
            }) + (if p.audio_sink is Some {
                1int
            } else {
                0int
            })
            &&& plan == without_sink + (if p.audio_sink is Some {
                seq![FollowUp::SetAudioSink]
            } else {
                Seq::empty()
            })
        }),
{
    let plan = follow_up_plan(p, monitors_applied);
    let q = Profile { audio_sink: None, ..p };
    let without_sink = follow_up_plan(q, monitors_applied);
    let head = if monitors_applied {
        seq![FollowUp::Notify] + if p.id is Some {
            seq![FollowUp::RememberProfile]
        } else {
            Seq::empty()
        }
    } else {
        Seq::empty()
    };
    assert(without_sink =~= head);
    if monitors_applied {
        assert(plan[0] == FollowUp::Notify);
        assert(plan.contains(FollowUp::Notify));
        if p.id is Some {
            assert(plan[1] == FollowUp::RememberProfile);
            assert(plan.contains(FollowUp::RememberProfile));
        }
    }
    if p.audio_sink is Some {
        assert(plan[plan.len() - 1] == FollowUp::SetAudioSink);
        assert(plan.contains(FollowUp::SetAudioSink));
    }
    assert(plan =~= without_sink + (if p.audio_sink is Some {
        seq![FollowUp::SetAudioSink]
    } else {
        Seq::empty()
    }));
}

} // verus!
