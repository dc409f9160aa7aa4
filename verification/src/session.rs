//! The decisions of the frame loop.
//!
//! The loop itself waits, reads queues and runs the script, none of which
//! happens here. What happens here is deciding what comes next. The
//! [`Dispatcher`] names one thing for the host to do; the host does it and
//! reports back with an [`Event`]; from the two the dispatcher moves on. One
//! round of the loop is a tick:
//!
//! 1. see whether the script changed, and if so load it anew and let every
//!    active session connect to the fresh game;
//! 2. begin the frame;
//! 3. admit the sessions that wait, each with its `on_connect`;
//! 4. serve one debug request;
//! 5. drain the input of every session, letting go of those whose queue is closed;
//! 6. update the world;
//! 7. draw for every session, letting go of those whose queue is closed;
//! 8. sleep for what is left of the tick.
use vstd::prelude::*;

verus! {

/// The ticks in a second that the loop aims at.
pub const TARGET_FPS: u64 = 30;

/// The length of a tick in microseconds.
pub const FRAME_MICROS: u64 = 33_333;

/// How long the host waits after the script changed before it loads it, in
/// milliseconds.
pub const RELOAD_DEBOUNCE_MILLIS: u64 = 50;

/// The capacity of a session's input queue.
pub const INPUT_QUEUE_CAPACITY: usize = 100;

/// The capacity of a session's render queue.
pub const RENDER_QUEUE_CAPACITY: usize = 30;

/// The capacity of the queue of debug requests.
pub const DEBUG_QUEUE_CAPACITY: usize = 10;

/// What the host found in a session's input queue.
#[derive(Clone, Copy, Debug, PartialEq, Eq, Structural)]
pub enum Polled {
    Input { code: u8, active: bool },
    Empty,
    Closed,
}

/// What became of a session's frame.
#[derive(Clone, Copy, Debug, PartialEq, Eq, Structural)]
pub enum Delivery {
    /// The frame is in the session's render queue.
    Queued,
    /// The queue was full: the frame is dropped.
    Full,
    /// The queue is closed: the client is gone.
    Closed,
    /// The script's `draw` raised: there is no frame.
    ScriptFailed,
}

/// What the host reports back.
#[derive(Clone, Debug, PartialEq, Eq)]
pub enum Event {
    /// Whether the script changed since it was last loaded.
    Script { changed: bool },
    /// Whether the script loaded.
    Loaded { ok: bool },
    /// The session that waited for admission, if one did.
    Joined { session: Option<String> },
    /// What a session's input queue held.
    Polled { polled: Polled },
    /// What became of the frame of the session that was drawn.
    Frame { delivery: Delivery },
    /// How long the tick has taken so far, in microseconds.
    Elapsed { micros: u64 },
    /// The thing named was done.
    Done,
}

/// What the host is to do next. A session is named by its place in the list
/// of active sessions.
#[derive(Clone, Copy, Debug, PartialEq, Eq, Structural)]
pub enum Action {
    /// Take in the script-changed signal; report `Script`.
    CheckScript,
    /// Wait out the debounce, load the script and put the fresh game in
    /// place of the old one if it loaded; report `Loaded`.
    LoadScript,
    /// Run `on_connect` for the session and queue the bytes for it; report
    /// `Done`.
    Connect { session: usize },
    /// Begin the frame; report `Done`.
    BeginFrame,
    /// Take one session from the admission queue; report `Joined`.
    PollAdmission,
    /// Serve one debug request if one waits; report `Done`.
    ServeDebug,
    /// Look into the session's input queue; report `Polled`.
    PollInput { session: usize },
    /// Run `on_input` for the session; report `Done`.
    HandleInput { session: usize, code: u8, active: bool },
    /// Run `on_disconnect` for the session and let go of its queues; report
    /// `Done`.
    Disconnect { session: usize },
    /// Update the world; report `Done`.
    Update,
    /// Draw for the session and hand its frame to its render queue; report
    /// `Frame`.
    Draw { session: usize },
    /// Report `Elapsed`.
    Measure,
    /// Sleep for so many microseconds; report `Done`.
    Sleep { micros: u64 },
}

/// Where in a tick the loop stands.
#[derive(Clone, Copy, Debug, PartialEq, Eq, Structural)]
pub enum Phase {
    CheckScript,
    LoadScript,
    Replay { session: usize },
    BeginFrame,
    PollAdmission,
    Welcome,
    Debug,
    Inputs { session: usize },
    Handling { session: usize, code: u8, active: bool },
    LeaveInputs { session: usize },
    Update,
    Draw { session: usize },
    LeaveDraw { session: usize },
    Measure,
    Sleep { micros: u64 },
}

/// The value of a dispatcher: the active sessions in the order in which they
/// were admitted, and the phase.
pub struct Loop {
    pub sessions: Seq<String>,
    pub phase: Phase,
}

/// What is left of a tick after `elapsed` microseconds.
pub open spec fn remaining_micros(elapsed: u64) -> u64 {
    if elapsed < FRAME_MICROS {
        (FRAME_MICROS - elapsed) as u64
    } else {
        0
    }
}

impl Loop {
    /// The start of the first tick, without sessions.
    pub open spec fn initial() -> Loop {
        Loop { sessions: Seq::<String>::empty(), phase: Phase::CheckScript }
    }

    /// Whether the phase names only sessions that there are.
    pub open spec fn wf(self) -> bool {
        match self.phase {
            Phase::Replay { session } => session < self.sessions.len(),
            Phase::Welcome => self.sessions.len() > 0,
            Phase::Inputs { session } => session < self.sessions.len(),
            Phase::Handling { session, .. } => session < self.sessions.len(),
            Phase::LeaveInputs { session } => session < self.sessions.len(),
            Phase::Draw { session } => session < self.sessions.len(),
            Phase::LeaveDraw { session } => session < self.sessions.len(),
            _ => true,
        }
    }

    /// What the host is to do in this phase.
    pub open spec fn pending(self) -> Action {
        match self.phase {
            Phase::CheckScript => Action::CheckScript,
            Phase::LoadScript => Action::LoadScript,
            Phase::Replay { session } => Action::Connect { session },
            Phase::BeginFrame => Action::BeginFrame,
            Phase::PollAdmission => Action::PollAdmission,
            Phase::Welcome => Action::Connect { session: (self.sessions.len() - 1) as usize },
            Phase::Debug => Action::ServeDebug,
            Phase::Inputs { session } => Action::PollInput { session },
            Phase::Handling { session, code, active } => Action::HandleInput {
                session,
                code,
                active,
            },
            Phase::LeaveInputs { session } => Action::Disconnect { session },
            Phase::Update => Action::Update,
            Phase::Draw { session } => Action::Draw { session },
            Phase::LeaveDraw { session } => Action::Disconnect { session },
            Phase::Measure => Action::Measure,
            Phase::Sleep { micros } => Action::Sleep { micros },
        }
    }

    /// The phase in which the input of the session at `session` is drained,
    /// or the update where no session is left to drain.
    pub open spec fn inputs_from(self, session: usize) -> Phase {
        if session < self.sessions.len() {
            Phase::Inputs { session }
        } else {
            Phase::Update
        }
    }

    /// The phase in which the session at `session` is drawn, or the end of
    /// the tick where no session is left to draw.
    pub open spec fn draw_from(self, session: usize) -> Phase {
        if session < self.sessions.len() {
            Phase::Draw { session }
        } else {
            Phase::Measure
        }
    }

    /// The phase in which the session at `session` connects to a fresh game,
    /// or the beginning of the frame where every session has.
    pub open spec fn replay_from(self, session: usize) -> Phase {
        if session < self.sessions.len() {
            Phase::Replay { session }
        } else {
            Phase::BeginFrame
        }
    }

    /// The loop in another phase.
    pub open spec fn at(self, phase: Phase) -> Loop {
        Loop { sessions: self.sessions, phase }
    }

    /// The loop without the session at `session`.
    pub open spec fn without(self, session: usize) -> Loop {
        Loop { sessions: self.sessions.remove(session as int), phase: self.phase }
    }

    /// The loop after the host reported `event`. A report that does not
    /// answer what was pending changes nothing.
    pub open spec fn after(self, event: Event) -> Loop {
        match (self.phase, event) {
            (Phase::CheckScript, Event::Script { changed }) => if changed {
                self.at(Phase::LoadScript)
            } else {
                self.at(Phase::BeginFrame)
            },
            (Phase::LoadScript, Event::Loaded { ok }) => if ok {
                self.at(self.replay_from(0))
            } else {
                self.at(Phase::BeginFrame)
            },
            (Phase::Replay { session }, Event::Done) => self.at(
                self.replay_from((session + 1) as usize),
            ),
            (Phase::BeginFrame, Event::Done) => self.at(Phase::PollAdmission),
            (Phase::PollAdmission, Event::Joined { session }) => match session {
                Some(id) => Loop { sessions: self.sessions.push(id), phase: Phase::Welcome },
                None => self.at(Phase::Debug),
            },
            (Phase::Welcome, Event::Done) => self.at(Phase::PollAdmission),
            (Phase::Debug, Event::Done) => self.at(self.inputs_from(0)),
            (Phase::Inputs { session }, Event::Polled { polled }) => match polled {
                Polled::Input { code, active } => self.at(Phase::Handling { session, code, active }),
                Polled::Empty => self.at(self.inputs_from((session + 1) as usize)),
                Polled::Closed => self.at(Phase::LeaveInputs { session }),
            },
            (Phase::Handling { session, .. }, Event::Done) => self.at(Phase::Inputs { session }),
            (Phase::LeaveInputs { session }, Event::Done) => self.without(session).at(
                self.without(session).inputs_from(session),
            ),
            (Phase::Update, Event::Done) => self.at(self.draw_from(0)),
            (Phase::Draw { session }, Event::Frame { delivery }) => match delivery {
                Delivery::Closed => self.at(Phase::LeaveDraw { session }),
                _ => self.at(self.draw_from((session + 1) as usize)),
            },
            (Phase::LeaveDraw { session }, Event::Done) => self.without(session).at(
                self.without(session).draw_from(session),
            ),
            (Phase::Measure, Event::Elapsed { micros }) => if micros < FRAME_MICROS {
                self.at(Phase::Sleep { micros: remaining_micros(micros) })
            } else {
                self.at(Phase::CheckScript)
            },
            (Phase::Sleep { .. }, Event::Done) => self.at(Phase::CheckScript),
            _ => self,
        }
    }

    /// The loop after a run of reports, first to last.
    pub open spec fn after_all(self, events: Seq<Event>) -> Loop
        decreases events.len(),
    {
        if events.len() == 0 {
            self
        } else {
            self.after_all(events.drop_last()).after(events.last())
        }
    }
}

/// The state of the frame loop: who is connected, and what comes next.
pub struct Dispatcher {
    sessions: Vec<String>,
    phase: Phase,
}

impl View for Dispatcher {
    type V = Loop;

    closed spec fn view(&self) -> Loop {
        Loop { sessions: self.sessions@, phase: self.phase }
    }
}

impl Dispatcher {
    /// A loop at the start of its first tick, without sessions.
    pub fn new() -> (r: Self)
        ensures
            r@ == Loop::initial(),
            r@.wf(),
    {
        Dispatcher { sessions: Vec::new(), phase: Phase::CheckScript }
    }

    /// The number of active sessions.
    pub fn session_count(&self) -> (n: usize)
        ensures
            n == self@.sessions.len(),
    {
        self.sessions.len()
    }

    /// The id of the session at the given place.
    pub fn session(&self, index: usize) -> (r: Option<&String>)
        ensures
            match r {
                Some(id) => index < self@.sessions.len() && *id == self@.sessions[index as int],
                None => index >= self@.sessions.len(),
            },
    {
        if index < self.sessions.len() {
            Some(&self.sessions[index])
        } else {
            None
        }
    }

    /// Where in the tick the loop stands.
    pub fn phase(&self) -> (p: Phase)
        ensures
            p == self@.phase,
    {
        self.phase
    }

    /// What the host is to do now.
    pub fn pending(&self) -> (a: Action)
        requires
            self@.wf(),
        ensures
            a == self@.pending(),
    {
        match self.phase {
            Phase::CheckScript => Action::CheckScript,
            Phase::LoadScript => Action::LoadScript,
            Phase::Replay { session } => Action::Connect { session },
            Phase::BeginFrame => Action::BeginFrame,
            Phase::PollAdmission => Action::PollAdmission,
            Phase::Welcome => Action::Connect { session: self.sessions.len() - 1 },
            Phase::Debug => Action::ServeDebug,
            Phase::Inputs { session } => Action::PollInput { session },
            Phase::Handling { session, code, active } => Action::HandleInput {
                session,
                code,
                active,
            },
            Phase::LeaveInputs { session } => Action::Disconnect { session },
            Phase::Update => Action::Update,
            Phase::Draw { session } => Action::Draw { session },
            Phase::LeaveDraw { session } => Action::Disconnect { session },
            Phase::Measure => Action::Measure,
            Phase::Sleep { micros } => Action::Sleep { micros },
        }
    }

    fn inputs_from(&self, session: usize) -> (p: Phase)
        ensures
            p == self@.inputs_from(session),
    {
        if session < self.sessions.len() {
            Phase::Inputs { session }
        } else {
            Phase::Update
        }
    }

    fn draw_from(&self, session: usize) -> (p: Phase)
        ensures
            p == self@.draw_from(session),
    {
        if session < self.sessions.len() {
            Phase::Draw { session }
        } else {
            Phase::Measure
        }
    }

    fn replay_from(&self, session: usize) -> (p: Phase)
        ensures
            p == self@.replay_from(session),
    {
        if session < self.sessions.len() {
            Phase::Replay { session }
        } else {
            Phase::BeginFrame
        }
    }

    /// Takes in what the host reports and names what it is to do next.
    pub fn step(&mut self, event: Event) -> (a: Action)
        requires
            old(self)@.wf(),
        ensures
            final(self)@ == old(self)@.after(event),
            final(self)@.wf(),
            a == final(self)@.pending(),
    {
        let count: usize = self.sessions.len();
        match (self.phase, event) {
            (Phase::CheckScript, Event::Script { changed }) => {
                self.phase = if changed {
                    Phase::LoadScript
                } else {
                    Phase::BeginFrame
                };
            },
            (Phase::LoadScript, Event::Loaded { ok }) => {
                self.phase = if ok {
                    self.replay_from(0)
                } else {
                    Phase::BeginFrame
                };
            },
            (Phase::Replay { session }, Event::Done) => {
                self.phase = self.replay_from(session + 1);
            },
            (Phase::BeginFrame, Event::Done) => {
                self.phase = Phase::PollAdmission;
            },
            (Phase::PollAdmission, Event::Joined { session }) => {
                match session {
                    Some(id) => {
                        self.sessions.push(id);
                        self.phase = Phase::Welcome;
                    },
                    None => {
                        self.phase = Phase::Debug;
                    },
                }
            },
            (Phase::Welcome, Event::Done) => {
                self.phase = Phase::PollAdmission;
            },
            (Phase::Debug, Event::Done) => {
                self.phase = self.inputs_from(0);
            },
            (Phase::Inputs { session }, Event::Polled { polled }) => {
                self.phase = match polled {
                    Polled::Input { code, active } => Phase::Handling { session, code, active },
                    Polled::Empty => self.inputs_from(session + 1),
                    Polled::Closed => Phase::LeaveInputs { session },
                };
            },
            (Phase::Handling { session, .. }, Event::Done) => {
                self.phase = Phase::Inputs { session };
            },
            (Phase::LeaveInputs { session }, Event::Done) => {
                self.sessions.remove(session);
                self.phase = self.inputs_from(session);
            },
            (Phase::Update, Event::Done) => {
                self.phase = self.draw_from(0);
            },
            (Phase::Draw { session }, Event::Frame { delivery }) => {
                self.phase = match delivery {
                    Delivery::Closed => Phase::LeaveDraw { session },
                    _ => self.draw_from(session + 1),
                };
            },
            (Phase::LeaveDraw { session }, Event::Done) => {
                self.sessions.remove(session);
                self.phase = self.draw_from(session);
            },
            (Phase::Measure, Event::Elapsed { micros }) => {
                self.phase = if micros < FRAME_MICROS {
                    Phase::Sleep { micros: FRAME_MICROS - micros }
                } else {
                    Phase::CheckScript
                };
            },
            (Phase::Sleep { .. }, Event::Done) => {
                self.phase = Phase::CheckScript;
            },
            _ => {},
        }
        self.pending()
    }
}

// ---------------------------------------------------------------------------
// Laws of the loop
// ---------------------------------------------------------------------------

/// Whatever the host reports, the loop stays well formed.
pub proof fn lemma_after_keeps_wf(s: Loop, event: Event)
    requires
        s.wf(),
    ensures
        s.after(event).wf(),
{
}

/// The sessions after a report: a session that waited is admitted at the
/// end of the list, a session that is being let go leaves it once its
/// `on_disconnect` has run, and nothing else changes the list.
pub open spec fn sessions_after(s: Loop, event: Event) -> Seq<String> {
    match (s.phase, event) {
        (Phase::PollAdmission, Event::Joined { session: Some(id) }) => s.sessions.push(id),
        (Phase::LeaveInputs { session }, Event::Done) => s.sessions.remove(session as int),
        (Phase::LeaveDraw { session }, Event::Done) => s.sessions.remove(session as int),
        _ => s.sessions,
    }
}

/// The list of sessions changes in two ways only: by admission and by
/// letting go.
pub proof fn lemma_sessions_change_by_join_or_leave(s: Loop, event: Event)
    requires
        s.wf(),
    ensures
        s.after(event).sessions == sessions_after(s, event),
{
}

/// A session is let go only after one of its queues was found closed.
pub proof fn lemma_leave_follows_closed_queue(s: Loop, event: Event)
    requires
        s.wf(),
        s.after(event).phase != s.phase,
    ensures
        s.after(event).phase is LeaveInputs ==> s.phase is Inputs && event == (Event::Polled {
            polled: Polled::Closed,
        }),
        s.after(event).phase is LeaveDraw ==> s.phase is Draw && event == (Event::Frame {
            delivery: Delivery::Closed,
        }),
{
}

/// A frame that is dropped, because the render queue was full or the script
/// raised, costs the session nothing: the loop goes on to the next session.
pub proof fn lemma_dropped_frame_keeps_session(s: Loop, session: usize, delivery: Delivery)
    requires
        s.wf(),
        s.phase == (Phase::Draw { session }),
        delivery != Delivery::Closed,
    ensures
        s.after(Event::Frame { delivery }).sessions == s.sessions,
        s.after(Event::Frame { delivery }).phase == s.draw_from((session + 1) as usize),
{
}

/// Within a tick the update comes before every draw: drawing starts only
/// when the update is done.
pub proof fn lemma_draw_follows_update(s: Loop, event: Event)
    requires
        s.wf(),
        s.after(event).phase is Draw,
        !(s.phase is Draw),
        !(s.phase is LeaveDraw),
    ensures
        s.phase is Update,
        event is Done,
        s.after(event).phase == (Phase::Draw { session: 0 }),
{
}

/// Within a tick the frame begins before the world is updated, and the
/// update begins only when admission, the debug request and the inputs are
/// through.
pub proof fn lemma_update_follows_inputs(s: Loop, event: Event)
    requires
        s.wf(),
        s.after(event).phase is Update,
        !(s.phase is Update),
    ensures
        s.phase is Debug || s.phase is Inputs || s.phase is LeaveInputs,
{
}

/// The reports of a reload that succeeds and of the first `k` sessions
/// having connected to the fresh game.
pub open spec fn reload_reports(k: nat) -> Seq<Event>
    decreases k,
{
    if k == 0 {
        seq![Event::Loaded { ok: true }]
    } else {
        reload_reports((k - 1) as nat).push(Event::Done)
    }
}

/// After a reload every active session connects to the fresh game, once and
/// in order: when the script has loaded and `k` sessions have connected, the
/// session at `k` is the next to connect, and when all have, the frame
/// begins. No session is lost on the way.
pub proof fn lemma_reload_replays_every_session(s: Loop, k: nat)
    requires
        s.wf(),
        s.phase == Phase::LoadScript,
        k <= s.sessions.len(),
        s.sessions.len() <= usize::MAX,
    ensures
        s.after_all(reload_reports(k)).sessions == s.sessions,
        s.after_all(reload_reports(k)).phase == s.replay_from(k as usize),
        k < s.sessions.len() ==> s.after_all(reload_reports(k)).pending() == (Action::Connect {
            session: k as usize,
        }),
        k == s.sessions.len() ==> s.after_all(reload_reports(k)).pending() == Action::BeginFrame,
    decreases k,
{
    let events = reload_reports(k);
    if k == 0 {
        assert(events.drop_last() =~= Seq::<Event>::empty());
        assert(events.last() == Event::Loaded { ok: true });
        assert(s.after_all(events.drop_last()) == s);
    } else {
        lemma_reload_replays_every_session(s, (k - 1) as nat);
        assert(events.drop_last() =~= reload_reports((k - 1) as nat));
        assert(events.last() == Event::Done);
    }
}

/// The loop never sleeps longer than a tick, and what it sleeps and what
/// the tick took add up to a tick.
pub proof fn lemma_sleep_fills_the_tick(s: Loop, micros: u64)
    requires
        s.phase == Phase::Measure,
    ensures
        micros < FRAME_MICROS ==> s.after(Event::Elapsed { micros }).pending() == (Action::Sleep {
            micros: (FRAME_MICROS - micros) as u64,
        }),
        micros >= FRAME_MICROS ==> s.after(Event::Elapsed { micros }).pending()
            == Action::CheckScript,
{
}

} // verus!
