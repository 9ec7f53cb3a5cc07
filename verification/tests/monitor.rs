use psi_ask::monitor::{
    kill_report, monitor_step, Delivery, MonitorAction, MonitorEvent, MonitorState, Signal,
};

#[test]
fn a_question_from_beginning_to_end() {
    let steps = [
        (MonitorEvent::Fired(2), MonitorState::Confirming(2), MonitorAction::Confirm(2)),
        (MonitorEvent::Confirmed(true), MonitorState::Collecting(2), MonitorAction::Collect(2)),
        (MonitorEvent::Collected(true), MonitorState::Asking, MonitorAction::Ask),
        (MonitorEvent::Sent(true), MonitorState::Answering, MonitorAction::AwaitAnswer),
        (MonitorEvent::Answered(true), MonitorState::Cooling, MonitorAction::Cool),
        (MonitorEvent::Cooled, MonitorState::Waiting, MonitorAction::DrainAndWait),
    ];
    let mut state = MonitorState::Waiting;
    for (event, next, action) in steps {
        assert_eq!(monitor_step(state, event), (next, action));
        state = next;
    }
}

#[test]
fn noise_and_empty_lists_ask_nobody() {
    assert_eq!(
        monitor_step(MonitorState::Confirming(1), MonitorEvent::Confirmed(false)),
        (MonitorState::Waiting, MonitorAction::Wait)
    );
    assert_eq!(
        monitor_step(MonitorState::Collecting(1), MonitorEvent::Collected(false)),
        (MonitorState::Cooling, MonitorAction::Cool)
    );
}

#[test]
fn the_end_lets_everything_go_on() {
    assert_eq!(
        monitor_step(MonitorState::Asking, MonitorEvent::Sent(false)),
        (MonitorState::Ended, MonitorAction::ResumeAndEnd)
    );
    assert_eq!(
        monitor_step(MonitorState::Answering, MonitorEvent::Answered(false)),
        (MonitorState::Ended, MonitorAction::ResumeAndEnd)
    );
    assert_eq!(
        monitor_step(MonitorState::Waiting, MonitorEvent::WatchFailed),
        (MonitorState::Ended, MonitorAction::Fail)
    );
}

#[test]
fn signals_are_reported() {
    assert_eq!(
        kill_report(7, "java", Signal::Term, &Delivery::Sent),
        (true, "sent SIGTERM to 7 (java)".to_string())
    );
    assert_eq!(
        kill_report(7, "java", Signal::Kill, &Delivery::Sent),
        (true, "sent SIGKILL to 7 (java)".to_string())
    );
    assert_eq!(
        kill_report(7, "java", Signal::Kill, &Delivery::Refused),
        (
            false,
            "error: no permission to signal 7 (java); run ./install-caps.sh once".to_string()
        )
    );
    assert_eq!(
        kill_report(7, "java", Signal::Term, &Delivery::Failed("No such process".to_string())),
        (false, "error: kill(7) failed: No such process".to_string())
    );
}
