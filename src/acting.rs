//! The action lifecycle: requesting, cancelling, initiating and completing actions.
use vstd::prelude::*;
use crate::picking::{ActionId, Picker};

verus! {

/// The action an actor is performing.
#[derive(Clone, Copy, PartialEq, Eq, Structural, Debug)]
pub struct CurrentAction(pub ActionId);

/// Why an action ended.
#[derive(Clone, Copy, PartialEq, Eq, Structural, Debug)]
pub enum ActionEndReason {
    Completed,
    Cancelled,
}

/// An actor's action ended.
#[derive(Clone, Copy, PartialEq, Eq, Structural, Debug)]
pub struct OnActionEnded {
    pub action: ActionId,
    pub reason: ActionEndReason,
}

impl OnActionEnded {
    pub fn completed(action: ActionId) -> (r: OnActionEnded)
        ensures
            r == (OnActionEnded { action, reason: ActionEndReason::Completed }),
    {
        OnActionEnded { action, reason: ActionEndReason::Completed }
    }

    pub fn cancelled(action: ActionId) -> (r: OnActionEnded)
        ensures
            r == (OnActionEnded { action, reason: ActionEndReason::Cancelled }),
    {
        OnActionEnded { action, reason: ActionEndReason::Cancelled }
    }
}

/// An actor started an action.
#[derive(Clone, Copy, PartialEq, Eq, Structural, Debug)]
pub struct OnActionInitiated {
    pub action: ActionId,
}

/// Asks an actor to perform an action: the given one, or else its picker's last pick.
#[derive(Clone, Copy, PartialEq, Eq, Structural, Debug)]
pub struct RequestAction {
    pub action: Option<ActionId>,
}

/// A notification of the lifecycle, in the order it is sent.
#[derive(Clone, Copy, PartialEq, Eq, Structural, Debug)]
pub enum ActionEvent {
    Ended(OnActionEnded),
    Initiated(OnActionInitiated),
}

/// The actor's action after a request, and the notifications the request sends, for an
/// actor whose picker last picked `picked`.
pub open spec fn request_outcome(
    picked: ActionId,
    current: Option<ActionId>,
    requested: Option<ActionId>,
) -> (Option<ActionId>, Seq<ActionEvent>) {
    let next = match requested {
        Some(a) => a,
        None => picked,
    };
    match current {
        Some(c) => if c == next {
            (current, Seq::empty())
        } else {
            (
                Some(next),
                seq![
                    ActionEvent::Ended(OnActionEnded { action: c, reason: ActionEndReason::Cancelled }),
                    ActionEvent::Initiated(OnActionInitiated { action: next }),
                ],
            )
        },
        None => (Some(next), seq![ActionEvent::Initiated(OnActionInitiated { action: next })]),
    }
}

/// How many of the notifications start an action.
pub open spec fn initiated_count(events: Seq<ActionEvent>) -> nat
    decreases events.len(),
{
    if events.len() == 0 {
        0
    } else {
        initiated_count(events.drop_last()) + match events.last() {
            ActionEvent::Initiated(_) => 1nat,
            ActionEvent::Ended(_) => 0nat,
        }
    }
}

/// Requesting twice with nothing named, while the picker's pick stays the same: the second
/// request changes nothing and sends nothing, so the two together start the picked action
/// once at most, and exactly once unless it was already running.
pub proof fn lemma_request_idempotent(picked: ActionId, current: Option<ActionId>)
    ensures
        ({
            let (c1, e1) = request_outcome(picked, current, None);
            let (c2, e2) = request_outcome(picked, c1, None);
            &&& c2 == c1
            &&& e2.len() == 0
            &&& initiated_count(e1 + e2) == if current == Some(picked) {
                0nat
            } else {
                1nat
            }
        }),
{
    let (c1, e1) = request_outcome(picked, current, None);
    let (c2, e2) = request_outcome(picked, c1, None);
    assert(e1 + e2 =~= e1);
    reveal_with_fuel(initiated_count, 3);
    if current != Some(picked) {
        if current.is_some() {
            assert(e1.drop_last().drop_last() =~= Seq::<ActionEvent>::empty());
            assert(initiated_count(e1.drop_last()) == 0);
        } else {
            assert(e1.drop_last() =~= Seq::<ActionEvent>::empty());
        }
    }
}

/// Requesting another action while one runs first ends the running one as cancelled, then
/// starts the new one, and sends nothing else.
pub proof fn lemma_cancel_before_initiate(
    picked: ActionId,
    running: ActionId,
    requested: Option<ActionId>,
)
    requires
        (match requested {
            Some(a) => a,
            None => picked,
        }) != running,
    ensures
        request_outcome(picked, Some(running), requested).1 == seq![
            ActionEvent::Ended(OnActionEnded { action: running, reason: ActionEndReason::Cancelled }),
            ActionEvent::Initiated(
                OnActionInitiated {
                    action: match requested {
                        Some(a) => a,
                        None => picked,
                    },
                },
            ),
        ],
{
}

/// The lifecycle's handlers.
pub struct ActionPlugin;

impl ActionPlugin {
    /// Handles a request to an actor: with no picker nothing happens; a request for the
    /// running action changes nothing; otherwise the running action, if any, is cancelled and
    /// the requested one initiated.
    pub fn on_request_cancel_and_initiate(
        picker: Option<&Picker>,
        current: Option<CurrentAction>,
        request: RequestAction,
    ) -> (r: (Option<CurrentAction>, Vec<ActionEvent>))
        ensures
            picker.is_none() ==> r.0 == current && r.1@.len() == 0,
            picker matches Some(p) ==> ({
                let (next, events) = request_outcome(
                    p.spec_picked(),
                    match current {
                        Some(c) => Some(c.0),
                        None => None::<ActionId>,
                    },
                    request.action,
                );
                &&& r.1@ == events
                &&& r.0 == match next {
                    Some(a) => Some(CurrentAction(a)),
                    None => None::<CurrentAction>,
                }
            }),
    {
        let mut events: Vec<ActionEvent> = Vec::new();
        let p = match picker {
            Some(p) => p,
            None => {
                return (current, events);
            },
        };
        let next = match request.action {
            Some(a) => a,
            None => p.picked(),
        };
        if let Some(c) = current {
            if c.0 == next {
                return (current, events);
            }
            events.push(ActionEvent::Ended(OnActionEnded::cancelled(c.0)));
        }
        events.push(ActionEvent::Initiated(OnActionInitiated { action: next }));
        proof {
            if current.is_some() {
                assert(events@ =~= seq![
                    ActionEvent::Ended(OnActionEnded { action: current.unwrap().0, reason: ActionEndReason::Cancelled }),
                    ActionEvent::Initiated(OnActionInitiated { action: next }),
                ]);
            } else {
                assert(events@ =~= seq![ActionEvent::Initiated(OnActionInitiated { action: next })]);
            }
        }
        (Some(CurrentAction(next)), events)
    }

    /// A completed action makes the actor ask for its next one; a cancelled one asks nothing,
    /// as the cancelling request already starts the replacement.
    pub fn on_ended_request_again(ended: OnActionEnded) -> (r: Option<RequestAction>)
        ensures
            ended.reason == ActionEndReason::Completed ==> r == Some(RequestAction { action: None }),
            ended.reason == ActionEndReason::Cancelled ==> r.is_none(),
    {
        match ended.reason {
            ActionEndReason::Completed => Some(RequestAction { action: None }),
            ActionEndReason::Cancelled => None,
        }
    }
}

/// Runs scoring, picking and requests on every update.
pub struct RealtimeLifecyclePlugin;

impl RealtimeLifecyclePlugin {
    /// Whether an actor should be asked for a new action: it performs none, or its default.
    pub fn request_action_if_none_or_default(picker: &Picker, current: Option<CurrentAction>) -> (r:
        bool)
        ensures
            r == match current {
                Some(c) => c.0 == picker.spec_default(),
                None => true,
            },
    {
        match current {
            Some(c) => picker.is_default(c.0),
            None => true,
        }
    }
}

} // verus!
