use multi_app::persist::{persist_step, PersistAction, PersistEvent, PersistPhase};

fn run(events: &[PersistEvent]) -> (PersistPhase, usize) {
    let mut phase = PersistPhase::Idle;
    let mut writes = 0;
    for e in events {
        let (next, action) = persist_step(phase, *e);
        if matches!(action, PersistAction::Write) {
            writes += 1;
        }
        phase = next;
    }
    (phase, writes)
}

#[test]
fn single_request_writes_once_after_the_quiet_period() {
    let (phase, writes) = run(&[PersistEvent::Requested, PersistEvent::QuietPeriodElapsed]);
    assert_eq!(writes, 1);
    assert!(matches!(phase, PersistPhase::Idle));
}

#[test]
fn a_burst_of_requests_collapses_into_one_write() {
    let mut events = vec![PersistEvent::Requested; 10];
    events.push(PersistEvent::QuietPeriodElapsed);
    let (_, writes) = run(&events);
    assert_eq!(writes, 1);
}

#[test]
fn separated_requests_write_separately() {
    let (_, writes) = run(&[
        PersistEvent::Requested,
        PersistEvent::QuietPeriodElapsed,
        PersistEvent::Requested,
        PersistEvent::QuietPeriodElapsed,
    ]);
    assert_eq!(writes, 2);
}

#[test]
fn no_request_no_write_and_close_stops() {
    assert!(matches!(
        persist_step(PersistPhase::Idle, PersistEvent::QuietPeriodElapsed),
        (PersistPhase::Idle, PersistAction::Wait)
    ));
    assert!(matches!(
        persist_step(PersistPhase::Debouncing, PersistEvent::ChannelClosed),
        (PersistPhase::Stopped, PersistAction::Stop)
    ));
    let (phase, writes) = run(&[
        PersistEvent::Requested,
        PersistEvent::ChannelClosed,
        PersistEvent::QuietPeriodElapsed,
        PersistEvent::Requested,
    ]);
    assert_eq!(writes, 0);
    assert!(matches!(phase, PersistPhase::Stopped));
}
