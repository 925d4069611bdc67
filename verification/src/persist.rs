//! The decisions of the debounced store writer. Save requests arrive on a
//! channel; the first one starts a quiet period that each further request
//! restarts; when a quiet period passes without a request the latest state
//! is written once. The waiting and the writing happen outside the library.

use vstd::prelude::*;

verus! {

/// Where the writer stands.
#[derive(Debug, Clone, Copy)]
pub enum PersistPhase {
    /// No request is pending: wait for one.
    Idle,
    /// A request is pending: wait out a quiet period.
    Debouncing,
    /// The request channel closed: the writer has stopped.
    Stopped,
}

/// What the writer observed while waiting.
#[derive(Debug, Clone, Copy)]
pub enum PersistEvent {
    /// A save was requested.
    Requested,
    /// A quiet period passed without a request.
    QuietPeriodElapsed,
    /// The request channel closed.
    ChannelClosed,
}

/// What the writer does next.
#[derive(Debug, Clone, Copy)]
pub enum PersistAction {
    /// Keep waiting (for a request when idle, out a quiet period when
    /// debouncing).
    Wait,
    /// Write a snapshot of the current state, then wait for a request.
    Write,
    /// Stop the writer.
    Stop,
}

/// The writer's next phase and action on an event.
pub open spec fn persist_transition(phase: PersistPhase, event: PersistEvent) -> (PersistPhase, PersistAction) {
    match phase {
        PersistPhase::Stopped => (PersistPhase::Stopped, PersistAction::Stop),
        PersistPhase::Idle => match event {
            PersistEvent::Requested => (PersistPhase::Debouncing, PersistAction::Wait),
            PersistEvent::QuietPeriodElapsed => (PersistPhase::Idle, PersistAction::Wait),
            PersistEvent::ChannelClosed => (PersistPhase::Stopped, PersistAction::Stop),
        },
        PersistPhase::Debouncing => match event {
            PersistEvent::Requested => (PersistPhase::Debouncing, PersistAction::Wait),
            PersistEvent::QuietPeriodElapsed => (PersistPhase::Idle, PersistAction::Write),
            PersistEvent::ChannelClosed => (PersistPhase::Stopped, PersistAction::Stop),
        },
    }
}

/// The writer's decision on an event: a request starts or restarts the
/// quiet period, a quiet period after a request writes once, and a closed
/// channel stops the writer (a pending request is then dropped).
pub fn persist_step(phase: PersistPhase, event: PersistEvent) -> (r: (PersistPhase, PersistAction))
    ensures
        r == persist_transition(phase, event),
        event is ChannelClosed ==> r.0 is Stopped && r.1 is Stop,
        phase is Stopped ==> r.0 is Stopped && r.1 is Stop,
        r.1 is Write <==> (phase is Debouncing && event is QuietPeriodElapsed),
        !(phase is Stopped) && event is Requested ==> r.0 is Debouncing && r.1 is Wait,
        phase is Debouncing && event is QuietPeriodElapsed ==> r.0 is Idle,
        phase is Idle && event is QuietPeriodElapsed ==> r.0 is Idle && r.1 is Wait,
{
    match phase {
        PersistPhase::Stopped => (PersistPhase::Stopped, PersistAction::Stop),
        PersistPhase::Idle => match event {
            PersistEvent::Requested => (PersistPhase::Debouncing, PersistAction::Wait),
            PersistEvent::QuietPeriodElapsed => (PersistPhase::Idle, PersistAction::Wait),
            PersistEvent::ChannelClosed => (PersistPhase::Stopped, PersistAction::Stop),
        },
        PersistPhase::Debouncing => match event {
            PersistEvent::Requested => (PersistPhase::Debouncing, PersistAction::Wait),
            PersistEvent::QuietPeriodElapsed => (PersistPhase::Idle, PersistAction::Write),
            PersistEvent::ChannelClosed => (PersistPhase::Stopped, PersistAction::Stop),
        },
    }
}

/// The phase after the events, in order.
pub open spec fn phase_after(phase: PersistPhase, events: Seq<PersistEvent>) -> PersistPhase
    decreases events.len(),
{
    if events.len() == 0 {
        phase
    } else {
        phase_after(persist_transition(phase, events[0]).0, events.drop_first())
    }
}

/// How many snapshots the writer writes over the events, in order.
pub open spec fn writes_over(phase: PersistPhase, events: Seq<PersistEvent>) -> nat
    decreases events.len(),
{
    if events.len() == 0 {
        0
    } else {
        let (next, action) = persist_transition(phase, events[0]);
        (if action is Write { 1nat } else { 0nat }) + writes_over(next, events.drop_first())
    }
}

/// How many save requests the events hold.
pub open spec fn requests_in(events: Seq<PersistEvent>) -> nat
    decreases events.len(),
{
    if events.len() == 0 {
        0
    } else {
        (if events[0] is Requested { 1nat } else { 0nat }) + requests_in(events.drop_first())
    }
}

/// A write comes only after a request: from any phase, the writes over a
/// run of events are at most its requests, plus one for a request already
/// pending.
pub proof fn lemma_writes_follow_requests(phase: PersistPhase, events: Seq<PersistEvent>)
    ensures
        writes_over(phase, events) <= requests_in(events) + if phase is Debouncing { 1nat } else { 0nat },
    decreases events.len(),
{
    if events.len() > 0 {
        let (next, action) = persist_transition(phase, events[0]);
        lemma_writes_follow_requests(next, events.drop_first());
        assert(writes_over(phase, events) == (if action is Write { 1nat } else { 0nat }) + writes_over(
            next,
            events.drop_first(),
        ));
        assert(requests_in(events) == (if events[0] is Requested { 1nat } else { 0nat }) + requests_in(
            events.drop_first(),
        ));
    }
}

/// A burst of requests, however long, followed by one quiet period gives
/// exactly one write and leaves the writer idle.
pub proof fn lemma_burst_writes_once(phase: PersistPhase, k: nat)
    requires
        k >= 1,
        !(phase is Stopped),
    ensures
        ({
            let events = Seq::new(k, |i: int| PersistEvent::Requested).push(PersistEvent::QuietPeriodElapsed);
            writes_over(phase, events) == 1 && phase_after(phase, events) is Idle
        }),
    decreases k,
{
    let events = Seq::new(k, |i: int| PersistEvent::Requested).push(PersistEvent::QuietPeriodElapsed);
    assert(events[0] is Requested);
    assert(persist_transition(phase, events[0]) == (PersistPhase::Debouncing, PersistAction::Wait));
    assert(writes_over(phase, events) == writes_over(PersistPhase::Debouncing, events.drop_first()));
    assert(phase_after(phase, events) == phase_after(PersistPhase::Debouncing, events.drop_first()));
    if k == 1 {
        let rest = events.drop_first();
        assert(rest =~= seq![PersistEvent::QuietPeriodElapsed]);
        assert(rest.drop_first() =~= Seq::<PersistEvent>::empty());
        assert(writes_over(PersistPhase::Debouncing, rest) == 1 + writes_over(PersistPhase::Idle, rest.drop_first()));
        assert(phase_after(PersistPhase::Debouncing, rest) == phase_after(PersistPhase::Idle, rest.drop_first()));
    } else {
        lemma_burst_writes_once(PersistPhase::Debouncing, (k - 1) as nat);
        assert(events.drop_first() =~= Seq::new((k - 1) as nat, |i: int| PersistEvent::Requested).push(
            PersistEvent::QuietPeriodElapsed,
        ));
    }
}

/// Once the channel has closed the writer stays stopped and writes nothing
/// more.
pub proof fn lemma_stopped_is_final(events: Seq<PersistEvent>)
    ensures
        phase_after(PersistPhase::Stopped, events) is Stopped,
        writes_over(PersistPhase::Stopped, events) == 0,
    decreases events.len(),
{
    if events.len() > 0 {
        lemma_stopped_is_final(events.drop_first());
    }
}

/// The writer's rules: a closed channel stops it from any phase, and it
/// stays stopped; a request, unless stopped, starts or restarts the quiet
/// period without writing; it writes exactly when a quiet period passes
/// after a request, and is then idle; a quiet period with nothing pending
/// does nothing.
pub proof fn lemma_persist_rules(phase: PersistPhase, event: PersistEvent)
    ensures
        persist_transition(phase, PersistEvent::ChannelClosed) == (PersistPhase::Stopped, PersistAction::Stop),
        persist_transition(PersistPhase::Stopped, event) == (PersistPhase::Stopped, PersistAction::Stop),
        !(phase is Stopped) ==> persist_transition(phase, PersistEvent::Requested) == (
            PersistPhase::Debouncing,
            PersistAction::Wait,
        ),
        persist_transition(phase, event).1 is Write <==> (phase is Debouncing && event is QuietPeriodElapsed),
        persist_transition(PersistPhase::Debouncing, PersistEvent::QuietPeriodElapsed).0 is Idle,
        persist_transition(PersistPhase::Idle, PersistEvent::QuietPeriodElapsed) == (PersistPhase::Idle, PersistAction::Wait),
{
}

} // verus!
