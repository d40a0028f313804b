use mpris_ctl::tracker::{
    poll_step, ActiveSetTracker, Candidate, PlaybackStatus, PollOutcome, PollResult,
};

fn playing(name: &str) -> Candidate {
    Candidate::Session(String::from(name), PlaybackStatus::Playing)
}

fn paused(name: &str) -> Candidate {
    Candidate::Session(String::from(name), PlaybackStatus::Paused)
}

#[test]
fn starts_empty() {
    let tracker = ActiveSetTracker::new();
    assert_eq!(tracker.snapshot(), Vec::<String>::new());
}

#[test]
fn refresh_stores_playing_sessions_in_order() {
    let mut tracker = ActiveSetTracker::new();
    let out = tracker.refresh(&vec![playing("Foo"), paused("Mid"), playing("Bar")]);
    assert!(out.replaced);
    assert!(out.failures.is_empty());
    assert_eq!(tracker.snapshot(), vec![String::from("Foo"), String::from("Bar")]);
}

#[test]
fn empty_poll_keeps_previous_state() {
    let mut tracker = ActiveSetTracker::new();
    tracker.refresh(&vec![playing("Foo"), playing("Bar")]);
    let before = tracker.snapshot();
    let out = tracker.refresh(&vec![]);
    assert!(!out.replaced);
    assert_eq!(tracker.snapshot(), before);
    let out = tracker.refresh(&vec![paused("Foo"), paused("Bar")]);
    assert!(!out.replaced);
    assert_eq!(tracker.snapshot(), before);
}

#[test]
fn one_failed_session_does_not_disturb_the_rest() {
    let mut tracker = ActiveSetTracker::new();
    let out = tracker.refresh(&vec![
        playing("Foo"),
        Candidate::Failed(String::from("no status")),
        playing("Baz"),
    ]);
    assert!(out.replaced);
    assert_eq!(out.failures, vec![String::from("no status")]);
    assert_eq!(tracker.snapshot(), vec![String::from("Foo"), String::from("Baz")]);
}

#[test]
fn failures_are_collected_in_order() {
    let mut tracker = ActiveSetTracker::new();
    let out = tracker.refresh(&vec![
        Candidate::Failed(String::from("first")),
        playing("Foo"),
        Candidate::Failed(String::from("second")),
    ]);
    assert_eq!(
        out.failures,
        vec![String::from("first"), String::from("second")]
    );
    assert_eq!(tracker.snapshot(), vec![String::from("Foo")]);
}

#[test]
fn unreachable_registry_leaves_state_and_reports() {
    let mut tracker = ActiveSetTracker::new();
    tracker.refresh(&vec![playing("Foo")]);
    let before = tracker.snapshot();
    let out = poll_step(
        &mut tracker,
        PollResult::RegistryUnavailable(String::from("bus down")),
    );
    match out {
        PollOutcome::RegistryUnavailable(msg) => assert_eq!(msg, "bus down"),
        PollOutcome::Refreshed(_) => panic!("expected the registry failure to be reported"),
    }
    assert_eq!(tracker.snapshot(), before);
}

#[test]
fn poll_step_refreshes_on_enumeration() {
    let mut tracker = ActiveSetTracker::new();
    let out = poll_step(
        &mut tracker,
        PollResult::Enumerated(vec![playing("Foo"), playing("Bar")]),
    );
    match out {
        PollOutcome::Refreshed(o) => assert!(o.replaced),
        PollOutcome::RegistryUnavailable(_) => panic!("expected a refresh"),
    }
    assert_eq!(tracker.snapshot(), vec![String::from("Foo"), String::from("Bar")]);
}
