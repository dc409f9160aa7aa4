use engine::session::{
    Action, Delivery, Event, Phase, Polled, DEBUG_QUEUE_CAPACITY, FRAME_MICROS,
    INPUT_QUEUE_CAPACITY, RELOAD_DEBOUNCE_MILLIS, RENDER_QUEUE_CAPACITY, TARGET_FPS,
};
use engine::Dispatcher;

fn joined(id: &str) -> Event {
    Event::Joined { session: Some(id.to_string()) }
}

fn polled(p: Polled) -> Event {
    Event::Polled { polled: p }
}

fn frame(d: Delivery) -> Event {
    Event::Frame { delivery: d }
}

/// Drives a dispatcher to the start of a tick with the given sessions.
fn with_sessions(ids: &[&str]) -> Dispatcher {
    let mut d = Dispatcher::new();
    assert_eq!(d.step(Event::Script { changed: false }), Action::BeginFrame);
    assert_eq!(d.step(Event::Done), Action::PollAdmission);
    for (i, id) in ids.iter().enumerate() {
        assert_eq!(d.step(joined(id)), Action::Connect { session: i });
        assert_eq!(d.step(Event::Done), Action::PollAdmission);
    }
    assert_eq!(d.step(Event::Joined { session: None }), Action::ServeDebug);
    let mut next = d.step(Event::Done);
    for i in 0..ids.len() {
        assert_eq!(next, Action::PollInput { session: i });
        next = d.step(polled(Polled::Empty));
    }
    assert_eq!(next, Action::Update);
    next = d.step(Event::Done);
    for i in 0..ids.len() {
        assert_eq!(next, Action::Draw { session: i });
        next = d.step(frame(Delivery::Queued));
    }
    assert_eq!(next, Action::Measure);
    assert_eq!(d.step(Event::Elapsed { micros: FRAME_MICROS }), Action::CheckScript);
    d
}

fn ids(d: &Dispatcher) -> Vec<String> {
    (0..d.session_count()).map(|i| d.session(i).unwrap().clone()).collect()
}

#[test]
fn the_numbers_of_the_loop() {
    assert_eq!(TARGET_FPS, 30);
    assert_eq!(FRAME_MICROS, 1_000_000 / 30);
    assert_eq!(RELOAD_DEBOUNCE_MILLIS, 50);
    assert_eq!(INPUT_QUEUE_CAPACITY, 100);
    assert_eq!(RENDER_QUEUE_CAPACITY, 30);
    assert_eq!(DEBUG_QUEUE_CAPACITY, 10);
}

#[test]
fn a_loop_starts_by_checking_the_script() {
    let d = Dispatcher::new();
    assert_eq!(d.phase(), Phase::CheckScript);
    assert_eq!(d.pending(), Action::CheckScript);
    assert_eq!(d.session_count(), 0);
    assert_eq!(d.session(0), None);
}

#[test]
fn a_tick_without_sessions() {
    let mut d = Dispatcher::new();
    assert_eq!(d.step(Event::Script { changed: false }), Action::BeginFrame);
    assert_eq!(d.step(Event::Done), Action::PollAdmission);
    assert_eq!(d.step(Event::Joined { session: None }), Action::ServeDebug);
    assert_eq!(d.step(Event::Done), Action::Update);
    assert_eq!(d.step(Event::Done), Action::Measure);
    assert_eq!(d.step(Event::Elapsed { micros: 3_333 }), Action::Sleep { micros: 30_000 });
    assert_eq!(d.step(Event::Done), Action::CheckScript);
}

#[test]
fn sessions_are_admitted_in_the_order_they_come_each_with_its_connect() {
    let d = with_sessions(&["s1", "s2", "s3"]);
    assert_eq!(ids(&d), vec!["s1", "s2", "s3"]);
}

#[test]
fn hot_reload_preserves_sessions() {
    let mut d = with_sessions(&["s1", "s2"]);
    assert_eq!(d.step(Event::Script { changed: true }), Action::LoadScript);
    // exactly one connect for s1 and one for s2, then the tick goes on
    let first = d.step(Event::Loaded { ok: true });
    assert_eq!(first, Action::Connect { session: 0 });
    assert_eq!(d.session(0).map(|s| s.as_str()), Some("s1"));
    let second = d.step(Event::Done);
    assert_eq!(second, Action::Connect { session: 1 });
    assert_eq!(d.session(1).map(|s| s.as_str()), Some("s2"));
    assert_eq!(d.step(Event::Done), Action::BeginFrame);
    assert_eq!(ids(&d), vec!["s1", "s2"]);
}

#[test]
fn a_reload_that_fails_keeps_the_game_and_the_sessions() {
    let mut d = with_sessions(&["s1", "s2"]);
    assert_eq!(d.step(Event::Script { changed: true }), Action::LoadScript);
    assert_eq!(d.step(Event::Loaded { ok: false }), Action::BeginFrame);
    assert_eq!(ids(&d), vec!["s1", "s2"]);
}

#[test]
fn a_reload_without_sessions_goes_straight_on() {
    let mut d = Dispatcher::new();
    assert_eq!(d.step(Event::Script { changed: true }), Action::LoadScript);
    assert_eq!(d.step(Event::Loaded { ok: true }), Action::BeginFrame);
}

#[test]
fn inputs_of_a_session_are_handled_in_the_order_they_come() {
    let mut d = with_sessions(&["s1", "s2"]);
    d.step(Event::Script { changed: false });
    d.step(Event::Done);
    d.step(Event::Joined { session: None });
    assert_eq!(d.step(Event::Done), Action::PollInput { session: 0 });
    assert_eq!(
        d.step(polled(Polled::Input { code: 37, active: true })),
        Action::HandleInput { session: 0, code: 37, active: true }
    );
    assert_eq!(d.step(Event::Done), Action::PollInput { session: 0 });
    assert_eq!(
        d.step(polled(Polled::Input { code: 37, active: false })),
        Action::HandleInput { session: 0, code: 37, active: false }
    );
    assert_eq!(d.step(Event::Done), Action::PollInput { session: 0 });
    assert_eq!(d.step(polled(Polled::Empty)), Action::PollInput { session: 1 });
    assert_eq!(d.step(polled(Polled::Empty)), Action::Update);
}

#[test]
fn a_closed_input_queue_lets_the_session_go() {
    let mut d = with_sessions(&["s1", "s2", "s3"]);
    d.step(Event::Script { changed: false });
    d.step(Event::Done);
    d.step(Event::Joined { session: None });
    assert_eq!(d.step(Event::Done), Action::PollInput { session: 0 });
    assert_eq!(d.step(polled(Polled::Empty)), Action::PollInput { session: 1 });
    assert_eq!(d.step(polled(Polled::Closed)), Action::Disconnect { session: 1 });
    // the session is still named while its on_disconnect runs
    assert_eq!(d.session(1).map(|s| s.as_str()), Some("s2"));
    // s3 has moved up
    assert_eq!(d.step(Event::Done), Action::PollInput { session: 1 });
    assert_eq!(ids(&d), vec!["s1", "s3"]);
    assert_eq!(d.step(polled(Polled::Closed)), Action::Disconnect { session: 1 });
    assert_eq!(d.step(Event::Done), Action::Update);
    assert_eq!(ids(&d), vec!["s1"]);
}

#[test]
fn a_full_render_queue_drops_the_frame_and_keeps_the_session() {
    let mut d = with_sessions(&["s1", "s2"]);
    d.step(Event::Script { changed: false });
    d.step(Event::Done);
    d.step(Event::Joined { session: None });
    d.step(Event::Done);
    d.step(polled(Polled::Empty));
    assert_eq!(d.step(polled(Polled::Empty)), Action::Update);
    assert_eq!(d.step(Event::Done), Action::Draw { session: 0 });
    assert_eq!(d.step(frame(Delivery::Full)), Action::Draw { session: 1 });
    assert_eq!(d.step(frame(Delivery::ScriptFailed)), Action::Measure);
    assert_eq!(ids(&d), vec!["s1", "s2"]);
}

#[test]
fn a_closed_render_queue_lets_the_session_go() {
    let mut d = with_sessions(&["s1", "s2"]);
    d.step(Event::Script { changed: false });
    d.step(Event::Done);
    d.step(Event::Joined { session: None });
    d.step(Event::Done);
    d.step(polled(Polled::Empty));
    d.step(polled(Polled::Empty));
    assert_eq!(d.step(Event::Done), Action::Draw { session: 0 });
    assert_eq!(d.step(frame(Delivery::Closed)), Action::Disconnect { session: 0 });
    assert_eq!(d.step(Event::Done), Action::Draw { session: 0 });
    assert_eq!(ids(&d), vec!["s2"]);
    assert_eq!(d.step(frame(Delivery::Closed)), Action::Disconnect { session: 0 });
    assert_eq!(d.step(Event::Done), Action::Measure);
    assert_eq!(d.session_count(), 0);
}

#[test]
fn the_loop_sleeps_what_is_left_of_the_tick() {
    for (elapsed, sleep) in [(0u64, Some(33_333u64)), (1, Some(33_332)), (33_332, Some(1))] {
        let mut d = with_sessions(&[]);
        d.step(Event::Script { changed: false });
        d.step(Event::Done);
        d.step(Event::Joined { session: None });
        d.step(Event::Done);
        assert_eq!(d.step(Event::Done), Action::Measure);
        let next = d.step(Event::Elapsed { micros: elapsed });
        assert_eq!(next, Action::Sleep { micros: sleep.unwrap() });
        assert_eq!(d.step(Event::Done), Action::CheckScript);
    }
    for elapsed in [33_333u64, 33_334, 1_000_000, u64::MAX] {
        let mut d = with_sessions(&[]);
        d.step(Event::Script { changed: false });
        d.step(Event::Done);
        d.step(Event::Joined { session: None });
        d.step(Event::Done);
        d.step(Event::Done);
        assert_eq!(d.step(Event::Elapsed { micros: elapsed }), Action::CheckScript);
    }
}

#[test]
fn a_report_that_answers_nothing_changes_nothing() {
    let mut d = with_sessions(&["s1"]);
    assert_eq!(d.step(Event::Done), Action::CheckScript);
    assert_eq!(d.step(joined("intruder")), Action::CheckScript);
    assert_eq!(d.step(frame(Delivery::Closed)), Action::CheckScript);
    assert_eq!(d.step(polled(Polled::Closed)), Action::CheckScript);
    assert_eq!(d.step(Event::Elapsed { micros: 0 }), Action::CheckScript);
    assert_eq!(d.step(Event::Loaded { ok: true }), Action::CheckScript);
    assert_eq!(ids(&d), vec!["s1"]);
    assert_eq!(d.phase(), Phase::CheckScript);
}
