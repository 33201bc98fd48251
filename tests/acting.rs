use observed_utility::acting::{
    ActionEndReason, ActionEvent, ActionPlugin, CurrentAction, OnActionEnded, OnActionInitiated, RequestAction,
};
use observed_utility::picking::{ActionId, Picker};

const IDLE: ActionId = ActionId(0);
const DRINK: ActionId = ActionId(1);

fn initiated(events: &[ActionEvent]) -> usize {
    events.iter().filter(|e| matches!(e, ActionEvent::Initiated(_))).count()
}

#[test]
fn repeated_request_initiates_once() {
    let mut picker = Picker::new(IDLE);
    picker.pick(None);
    let (current, first) = ActionPlugin::on_request_cancel_and_initiate(Some(&picker), None, RequestAction { action: None });
    let (again, second) = ActionPlugin::on_request_cancel_and_initiate(Some(&picker), current, RequestAction { action: None });
    assert_eq!(Some(CurrentAction(IDLE)), again);
    assert!(second.is_empty());
    assert_eq!(1, initiated(&first) + initiated(&second));
}

#[test]
fn switching_cancels_before_initiating() {
    let picker = Picker::new(IDLE);
    let (current, events) = ActionPlugin::on_request_cancel_and_initiate(
        Some(&picker),
        Some(CurrentAction(IDLE)),
        RequestAction { action: Some(DRINK) },
    );
    assert_eq!(Some(CurrentAction(DRINK)), current);
    assert_eq!(
        vec![
            ActionEvent::Ended(OnActionEnded::cancelled(IDLE)),
            ActionEvent::Initiated(OnActionInitiated { action: DRINK }),
        ],
        events
    );
}

#[test]
fn request_without_picker_does_nothing() {
    let (current, events) =
        ActionPlugin::on_request_cancel_and_initiate(None, Some(CurrentAction(IDLE)), RequestAction { action: Some(DRINK) });
    assert_eq!(Some(CurrentAction(IDLE)), current);
    assert!(events.is_empty());
}

#[test]
fn completion_requests_again_and_cancellation_does_not() {
    assert_eq!(Some(RequestAction { action: None }), ActionPlugin::on_ended_request_again(OnActionEnded::completed(DRINK)));
    assert_eq!(None, ActionPlugin::on_ended_request_again(OnActionEnded::cancelled(DRINK)));
    assert_eq!(ActionEndReason::Completed, OnActionEnded::completed(DRINK).reason);
}
