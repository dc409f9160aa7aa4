//! The per-frame buffer discipline of a running game.
//!
//! A game holds two command buffers and a mode. The frame buffer is what one
//! client receives for one frame; the event buffer collects what every client
//! must receive in this tick. Sound control issued while the world updates is
//! an event; everything issued while a client's view is drawn is local to
//! that client's frame.
//!
//! The script itself runs elsewhere. Each callback is handed over as a
//! [`ScriptRun`]: the API calls the callback made, in order, and the error it
//! raised, if any.
use crate::buffer::{frozen, has_room, CommandBuffer};
use crate::wire::{
    clip, clipped_all, count_play_sound, decode_commands, encode_command, encode_commands,
    encoded_len, lemma_count_play_sound_clipped, lemma_count_play_sound_concat,
    lemma_decode_encode_roundtrip, lemma_encode_commands_concat, lemma_encode_commands_single,
    lemma_encoded_len, CommandView, MAX_STRING_LEN,
};
use bytes::Bytes;
use vstd::prelude::*;
use vstd::string::StringExecFns;

verus! {

/// Alpha of `set_color` where the script gives none.
pub const DEFAULT_ALPHA: u8 = 255;

/// Width of `draw_line` where the script gives none: 1.0 as a bit pattern.
pub const DEFAULT_LINE_WIDTH: u32 = 0x3F80_0000;

/// Volume of `play_sound` where the script gives none: 1.0 as a bit pattern.
pub const DEFAULT_VOLUME: u32 = 0x3F80_0000;

/// Which callback family the script is in.
#[derive(Clone, Copy, PartialEq, Eq, Debug, Structural)]
pub enum GameMode {
    Update,
    Draw,
}

/// One call of the script into the drawing and audio API, as the script made
/// it: optional arguments are still optional.
#[derive(Clone, Debug, PartialEq, Eq)]
#[allow(inconsistent_fields)]
pub enum ApiCall {
    ClearScreen { r: u8, g: u8, b: u8 },
    SetColor { r: u8, g: u8, b: u8, a: Option<u8> },
    FillRect { x: u32, y: u32, w: u32, h: u32 },
    DrawLine { x1: u32, y1: u32, x2: u32, y2: u32, width: Option<u32> },
    DrawText { text: Vec<u8>, x: u32, y: u32 },
    LoadSound { name: Vec<u8>, url: Vec<u8> },
    PlaySound { name: Vec<u8>, looped: Option<bool>, volume: Option<u32> },
    StopSound { name: Vec<u8> },
    SetVolume { name: Vec<u8>, volume: u32 },
}

/// What a script callback raised.
#[derive(Clone, Debug, PartialEq, Eq)]
pub struct ScriptError {
    pub message: String,
}

/// One finished callback: the API calls it made, in order, and its error if
/// it raised one. A callback that the script does not define made no call and
/// raised nothing.
#[derive(Clone, Debug, PartialEq, Eq)]
pub struct ScriptRun {
    pub calls: Vec<ApiCall>,
    pub error: Option<String>,
}

/// A module of the interpreter's standard library.
#[derive(Clone, Copy, Debug, PartialEq, Eq, Structural)]
pub enum StdModule {
    Coroutine,
    Table,
    Io,
    Os,
    String,
    Utf8,
    Math,
    Package,
    Debug,
}

/// Whether the sandbox lets the script have a module: it does for the ones
/// that compute, and for none that reach files, the system, other processes
/// or the interpreter's own internals.
pub open spec fn admitted(module: StdModule) -> bool {
    match module {
        StdModule::Math => true,
        StdModule::Table => true,
        StdModule::String => true,
        StdModule::Utf8 => true,
        StdModule::Coroutine => true,
        StdModule::Package => true,
        StdModule::Io => false,
        StdModule::Os => false,
        StdModule::Debug => false,
    }
}

/// Whether the sandbox lets the script have a module.
pub fn is_admitted(module: StdModule) -> (r: bool)
    ensures
        r == admitted(module),
{
    match module {
        StdModule::Math => true,
        StdModule::Table => true,
        StdModule::String => true,
        StdModule::Utf8 => true,
        StdModule::Coroutine => true,
        StdModule::Package => true,
        StdModule::Io => false,
        StdModule::Os => false,
        StdModule::Debug => false,
    }
}

/// The most memory that the script's interpreter may hold, in bytes.
pub const MEMORY_LIMIT_BYTES: usize = 134_217_728;

/// Where the script looks for the modules it requires: beside the working
/// directory, and beside the script itself where its directory is known.
pub open spec fn package_path_of(script_dir: Option<&str>) -> Seq<char> {
    match script_dir {
        Some(dir) => "./?.lua"@ + ";"@ + dir@ + "/?.lua"@,
        None => "./?.lua"@,
    }
}

/// The search path for modules that the interpreter is given.
pub fn package_path(script_dir: Option<&str>) -> (r: String)
    ensures
        r@ == package_path_of(script_dir),
{
    let mut path = String::from_str("./?.lua");
    match script_dir {
        Some(dir) => {
            path.append(";");
            path.append(dir);
            path.append("/?.lua");
        },
        None => {},
    }
    path
}

/// The record that a call writes, with the defaults filled in.
pub open spec fn command_of(call: ApiCall) -> CommandView {
    match call {
        ApiCall::ClearScreen { r, g, b } => CommandView::Clear { r, g, b },
        ApiCall::SetColor { r, g, b, a } => CommandView::SetColor {
            r,
            g,
            b,
            a: match a {
                Some(a) => a,
                None => DEFAULT_ALPHA,
            },
        },
        ApiCall::FillRect { x, y, w, h } => CommandView::FillRect { x, y, w, h },
        ApiCall::DrawLine { x1, y1, x2, y2, width } => CommandView::DrawLine {
            x1,
            y1,
            x2,
            y2,
            width: match width {
                Some(w) => w,
                None => DEFAULT_LINE_WIDTH,
            },
        },
        ApiCall::DrawText { text, x, y } => CommandView::DrawText { x, y, text: text@ },
        ApiCall::LoadSound { name, url } => CommandView::LoadSound { name: name@, url: url@ },
        ApiCall::PlaySound { name, looped, volume } => CommandView::PlaySound {
            name: name@,
            looped: match looped {
                Some(l) => l,
                None => false,
            },
            volume: match volume {
                Some(v) => v,
                None => DEFAULT_VOLUME,
            },
        },
        ApiCall::StopSound { name } => CommandView::StopSound { name: name@ },
        ApiCall::SetVolume { name, volume } => CommandView::SetVolume { name: name@, volume },
    }
}

/// Whether a call controls sound playback: play, stop or set the volume.
pub open spec fn is_sound_control(call: ApiCall) -> bool {
    call is PlaySound || call is StopSound || call is SetVolume
}

/// Whether a call made in `mode` is an event for every client.
pub open spec fn is_event(mode: GameMode, call: ApiCall) -> bool {
    mode == GameMode::Update && is_sound_control(call)
}

/// The records of all calls, in order.
pub open spec fn commands_of(calls: Seq<ApiCall>) -> Seq<CommandView>
    decreases calls.len(),
{
    if calls.len() == 0 {
        Seq::<CommandView>::empty()
    } else {
        commands_of(calls.drop_last()).push(command_of(calls.last()))
    }
}

/// The records of those calls that are events in `mode`, in order.
pub open spec fn event_commands(mode: GameMode, calls: Seq<ApiCall>) -> Seq<CommandView>
    decreases calls.len(),
{
    if calls.len() == 0 {
        Seq::<CommandView>::empty()
    } else if is_event(mode, calls.last()) {
        event_commands(mode, calls.drop_last()).push(command_of(calls.last()))
    } else {
        event_commands(mode, calls.drop_last())
    }
}

/// The records of those calls that are not events in `mode`, in order.
pub open spec fn local_commands(mode: GameMode, calls: Seq<ApiCall>) -> Seq<CommandView>
    decreases calls.len(),
{
    if calls.len() == 0 {
        Seq::<CommandView>::empty()
    } else if is_event(mode, calls.last()) {
        local_commands(mode, calls.drop_last())
    } else {
        local_commands(mode, calls.drop_last()).push(command_of(calls.last()))
    }
}

/// The number of bytes that the records of all calls take up.
pub open spec fn wire_len(calls: Seq<ApiCall>) -> nat
    decreases calls.len(),
{
    if calls.len() == 0 {
        0
    } else {
        wire_len(calls.drop_last()) + encoded_len(command_of(calls.last()))
    }
}

/// The value of a game: the bytes of its two buffers, and its mode.
pub struct Frames {
    pub frame: Seq<u8>,
    pub events: Seq<u8>,
    pub mode: GameMode,
}

impl Frames {
    /// A game before anything ran: nothing buffered, updating.
    pub open spec fn initial() -> Frames {
        Frames { frame: Seq::<u8>::empty(), events: Seq::<u8>::empty(), mode: GameMode::Update }
    }

    /// The bytes held in both buffers together.
    pub open spec fn used(self) -> nat {
        self.frame.len() + self.events.len()
    }

    /// Whether the records of `calls` can still be buffered.
    pub open spec fn has_room_for(self, calls: Seq<ApiCall>) -> bool {
        has_room(self.used(), wire_len(calls))
    }

    /// One call: its record joins the events where it is one, else the frame.
    pub open spec fn run_call(self, call: ApiCall) -> Frames {
        if is_event(self.mode, call) {
            Frames {
                frame: self.frame,
                events: self.events + encode_command(command_of(call)),
                mode: self.mode,
            }
        } else {
            Frames {
                frame: self.frame + encode_command(command_of(call)),
                events: self.events,
                mode: self.mode,
            }
        }
    }

    /// The calls of one callback, first to last.
    pub open spec fn run_calls(self, calls: Seq<ApiCall>) -> Frames
        decreases calls.len(),
    {
        if calls.len() == 0 {
            self
        } else {
            self.run_calls(calls.drop_last()).run_call(calls.last())
        }
    }

    /// The start of a tick: the events of the tick before are gone.
    pub open spec fn begin_frame(self) -> Frames {
        Frames { frame: self.frame, events: Seq::<u8>::empty(), mode: self.mode }
    }

    /// The world update: the mode is `Update`, then the callback's calls run.
    pub open spec fn update(self, calls: Seq<ApiCall>) -> Frames {
        Frames { frame: self.frame, events: self.events, mode: GameMode::Update }.run_calls(calls)
    }

    /// Where a client's frame starts: the mode is `Draw` and the frame is a
    /// copy of the events.
    pub open spec fn draw_start(self) -> Frames {
        Frames { frame: self.events, events: self.events, mode: GameMode::Draw }
    }

    /// One client's frame: it starts over from the events, then the
    /// callback's calls run.
    pub open spec fn draw(self, calls: Seq<ApiCall>) -> Frames {
        self.draw_start().run_calls(calls)
    }

    /// Where a joining client's first frame starts: empty, in whatever mode
    /// was last set.
    pub open spec fn connect_start(self) -> Frames {
        Frames { frame: Seq::<u8>::empty(), events: self.events, mode: self.mode }
    }

    /// A client joins: the frame starts over empty, then the callback's calls
    /// run.
    pub open spec fn on_connect(self, calls: Seq<ApiCall>) -> Frames {
        self.connect_start().run_calls(calls)
    }
}

/// The two buffers and the mode of one running game.
pub struct GameState {
    command_buffer: CommandBuffer,
    event_buffer: CommandBuffer,
    current_mode: GameMode,
}

impl View for GameState {
    type V = Frames;

    closed spec fn view(&self) -> Frames {
        Frames {
            frame: self.command_buffer@,
            events: self.event_buffer@,
            mode: self.current_mode,
        }
    }
}

/// What a callback's handler returns: the error that the callback raised, and
/// otherwise nothing.
pub open spec fn outcome_matches(run: ScriptRun, r: Result<(), ScriptError>) -> bool {
    match run.error {
        Some(message) => r is Err && r->Err_0.message@ == message@,
        None => r is Ok,
    }
}

/// What a callback's handler returns where it hands out a frame: the error
/// that the callback raised, and otherwise exactly the bytes of `frame`.
pub open spec fn frame_matches(run: ScriptRun, frame: Seq<u8>, r: Result<Bytes, ScriptError>) -> bool {
    match run.error {
        Some(message) => r is Err && r->Err_0.message@ == message@,
        None => r is Ok && frozen(r->Ok_0) == frame,
    }
}

fn outcome(run: &ScriptRun) -> (r: Result<(), ScriptError>)
    ensures
        outcome_matches(*run, r),
{
    match &run.error {
        Some(message) => Err(ScriptError { message: message.clone() }),
        None => Ok(()),
    }
}

fn write_call(buffer: &mut CommandBuffer, call: &ApiCall)
    requires
        has_room(old(buffer)@.len(), encoded_len(command_of(*call))),
    ensures
        final(buffer)@ == old(buffer)@ + encode_command(command_of(*call)),
{
    match call {
        ApiCall::ClearScreen { r, g, b } => buffer.cmd_clear_screen(*r, *g, *b),
        ApiCall::SetColor { r, g, b, a } => {
            let alpha: u8 = match a {
                Some(a) => *a,
                None => DEFAULT_ALPHA,
            };
            buffer.cmd_set_color(*r, *g, *b, alpha)
        },
        ApiCall::FillRect { x, y, w, h } => buffer.cmd_fill_rect(*x, *y, *w, *h),
        ApiCall::DrawLine { x1, y1, x2, y2, width } => {
            let w: u32 = match width {
                Some(w) => *w,
                None => DEFAULT_LINE_WIDTH,
            };
            buffer.cmd_draw_line(*x1, *y1, *x2, *y2, w)
        },
        ApiCall::DrawText { text, x, y } => buffer.cmd_draw_text(text.as_slice(), *x, *y),
        ApiCall::LoadSound { name, url } => buffer.cmd_load_sound(name.as_slice(), url.as_slice()),
        ApiCall::PlaySound { name, looped, volume } => {
            let lp: bool = match looped {
                Some(l) => *l,
                None => false,
            };
            let vol: u32 = match volume {
                Some(v) => *v,
                None => DEFAULT_VOLUME,
            };
            buffer.cmd_play_sound(name.as_slice(), lp, vol)
        },
        ApiCall::StopSound { name } => buffer.cmd_stop_sound(name.as_slice()),
        ApiCall::SetVolume { name, volume } => buffer.cmd_set_volume(name.as_slice(), *volume),
    }
}

fn sound_control(call: &ApiCall) -> (b: bool)
    ensures
        b == is_sound_control(*call),
{
    match call {
        ApiCall::PlaySound { .. } => true,
        ApiCall::StopSound { .. } => true,
        ApiCall::SetVolume { .. } => true,
        _ => false,
    }
}

/// The bytes of the calls up to `i` are among the bytes of all calls.
proof fn lemma_wire_len_prefix(calls: Seq<ApiCall>, i: int)
    requires
        0 <= i <= calls.len(),
    ensures
        wire_len(calls.take(i)) <= wire_len(calls),
    decreases calls.len(),
{
    if i == calls.len() {
        assert(calls.take(i) =~= calls);
    } else {
        assert(calls.drop_last().take(i) =~= calls.take(i));
        lemma_wire_len_prefix(calls.drop_last(), i);
    }
}

impl GameState {
    /// A game whose script has just been loaded. `init` is what loading the
    /// script and running its `init` callback did; its calls run in `Update`
    /// mode on empty buffers. Where loading raised, no game comes to be.
    pub fn new(init: &ScriptRun) -> (r: Result<GameState, ScriptError>)
        requires
            Frames::initial().has_room_for(init.calls@),
        ensures
            match init.error {
                Some(message) => r is Err && r->Err_0.message@ == message@,
                None => r is Ok && r->Ok_0@ == Frames::initial().run_calls(init.calls@),
            },
    {
        let mut game = GameState {
            command_buffer: CommandBuffer::new(),
            event_buffer: CommandBuffer::new(),
            current_mode: GameMode::Update,
        };
        game.run_calls(&init.calls);
        match &init.error {
            Some(message) => Err(ScriptError { message: message.clone() }),
            None => Ok(game),
        }
    }

    /// The mode that the game is in.
    pub fn mode(&self) -> (m: GameMode)
        ensures
            m == self@.mode,
    {
        self.current_mode
    }

    /// Whether the records of what loading a script did can be buffered: the
    /// test to make before `new`.
    pub fn can_load(init: &ScriptRun) -> (b: bool)
        ensures
            b == Frames::initial().has_room_for(init.calls@),
    {
        calls_fit(0, 0, &init.calls)
    }

    /// Whether the records of a callback's calls can still be buffered: the
    /// test to make before handing `update`, `on_input` or `on_disconnect`
    /// to the game.
    pub fn can_take(&self, run: &ScriptRun) -> (b: bool)
        ensures
            b == self@.has_room_for(run.calls@),
    {
        calls_fit(self.command_buffer.len(), self.event_buffer.len(), &run.calls)
    }

    /// The same test, to make before handing `draw` to the game.
    pub fn can_draw(&self, run: &ScriptRun) -> (b: bool)
        ensures
            b == self@.draw_start().has_room_for(run.calls@),
    {
        calls_fit(self.event_buffer.len(), self.event_buffer.len(), &run.calls)
    }

    /// The same test, to make before handing `on_connect` to the game.
    pub fn can_connect(&self, run: &ScriptRun) -> (b: bool)
        ensures
            b == self@.connect_start().has_room_for(run.calls@),
    {
        calls_fit(0, self.event_buffer.len(), &run.calls)
    }

    /// Runs one call of the script: its record joins the event buffer where
    /// the call is sound control made while updating, and the frame buffer
    /// otherwise.
    pub fn apply(&mut self, call: &ApiCall)
        requires
            has_room(old(self)@.used(), encoded_len(command_of(*call))),
        ensures
            final(self)@ == old(self)@.run_call(*call),
    {
        let to_events = match self.current_mode {
            GameMode::Update => sound_control(call),
            GameMode::Draw => false,
        };
        if to_events {
            write_call(&mut self.event_buffer, call);
        } else {
            write_call(&mut self.command_buffer, call);
        }
    }

    fn run_calls(&mut self, calls: &Vec<ApiCall>)
        requires
            old(self)@.has_room_for(calls@),
        ensures
            final(self)@ == old(self)@.run_calls(calls@),
    {
        let mut i: usize = 0;
        assert(calls@.take(0) =~= Seq::<ApiCall>::empty());
        while i < calls.len()
            invariant
                i <= calls@.len(),
                old(self)@.has_room_for(calls@),
                self@ == old(self)@.run_calls(calls@.take(i as int)),
                self@.used() == old(self)@.used() + wire_len(calls@.take(i as int)),
            decreases calls@.len() - i,
        {
            proof {
                assert(calls@.take(i + 1).drop_last() =~= calls@.take(i as int));
                lemma_wire_len_prefix(calls@, i + 1);
                lemma_encoded_len(command_of(calls@[i as int]));
            }
            self.apply(&calls[i]);
            i += 1;
        }
        assert(calls@.take(i as int) =~= calls@);
    }

    /// Starts a tick: the event buffer is cleared.
    pub fn begin_frame(&mut self)
        ensures
            final(self)@ == old(self)@.begin_frame(),
    {
        self.event_buffer.clear();
    }

    /// Takes in the script's `update` callback. The mode becomes `Update`;
    /// the callback's sound control joins the events, its other calls the
    /// frame buffer, which the next draw discards.
    pub fn update(&mut self, run: &ScriptRun) -> (r: Result<(), ScriptError>)
        requires
            old(self)@.has_room_for(run.calls@),
        ensures
            final(self)@ == old(self)@.update(run.calls@),
            outcome_matches(*run, r),
    {
        self.current_mode = GameMode::Update;
        self.run_calls(&run.calls);
        outcome(run)
    }

    /// Takes in the script's `draw` callback for one client and hands out
    /// that client's frame: the events buffered in this tick, then the
    /// records of this callback, and nothing else.
    pub fn draw(&mut self, run: &ScriptRun) -> (r: Result<Bytes, ScriptError>)
        requires
            old(self)@.draw_start().has_room_for(run.calls@),
        ensures
            final(self)@ == old(self)@.draw(run.calls@),
            frame_matches(*run, final(self)@.frame, r),
    {
        self.current_mode = GameMode::Draw;
        self.command_buffer.clear();
        self.command_buffer.append(&self.event_buffer);
        assert(self@.frame =~= old(self)@.events);
        self.run_calls(&run.calls);
        match &run.error {
            Some(message) => Err(ScriptError { message: message.clone() }),
            None => Ok(self.command_buffer.get_bytes()),
        }
    }

    /// Takes in the script's `on_input` callback. The mode stays what it was.
    pub fn handle_input(&mut self, run: &ScriptRun) -> (r: Result<(), ScriptError>)
        requires
            old(self)@.has_room_for(run.calls@),
        ensures
            final(self)@ == old(self)@.run_calls(run.calls@),
            outcome_matches(*run, r),
    {
        self.run_calls(&run.calls);
        outcome(run)
    }

    /// Takes in the script's `on_connect` callback and hands out what the
    /// joining client receives first: the frame buffer, started over, with
    /// the records of this callback. The mode stays what it was.
    pub fn on_connect(&mut self, run: &ScriptRun) -> (r: Result<Bytes, ScriptError>)
        requires
            old(self)@.connect_start().has_room_for(run.calls@),
        ensures
            final(self)@ == old(self)@.on_connect(run.calls@),
            frame_matches(*run, final(self)@.frame, r),
    {
        self.command_buffer.clear();
        self.run_calls(&run.calls);
        match &run.error {
            Some(message) => Err(ScriptError { message: message.clone() }),
            None => Ok(self.command_buffer.get_bytes()),
        }
    }

    /// Takes in what evaluating a chunk for the debug endpoint did: whatever
    /// the chunk asked of the API is buffered as in any callback. The mode
    /// stays what it was.
    pub fn eval(&mut self, run: &ScriptRun) -> (r: Result<(), ScriptError>)
        requires
            old(self)@.has_room_for(run.calls@),
        ensures
            final(self)@ == old(self)@.run_calls(run.calls@),
            outcome_matches(*run, r),
    {
        self.run_calls(&run.calls);
        outcome(run)
    }

    /// Takes in the script's `on_disconnect` callback. The mode stays what it
    /// was.
    pub fn on_disconnect(&mut self, run: &ScriptRun) -> (r: Result<(), ScriptError>)
        requires
            old(self)@.has_room_for(run.calls@),
        ensures
            final(self)@ == old(self)@.run_calls(run.calls@),
            outcome_matches(*run, r),
    {
        self.run_calls(&run.calls);
        outcome(run)
    }
}

/// Whether buffers of `frame_len` and `events_len` bytes have room for the
/// records of `calls`.
fn calls_fit(frame_len: usize, events_len: usize, calls: &Vec<ApiCall>) -> (b: bool)
    ensures
        b == has_room((frame_len + events_len) as nat, wire_len(calls@)),
{
    let limit: usize = isize::MAX as usize;
    if frame_len > limit || events_len > limit - frame_len {
        return false;
    }
    let mut total: usize = frame_len + events_len;
    let mut i: usize = 0;
    assert(calls@.take(0) =~= Seq::<ApiCall>::empty());
    while i < calls.len()
        invariant
            i <= calls@.len(),
            limit == isize::MAX,
            total == frame_len + events_len + wire_len(calls@.take(i as int)),
            total <= limit,
        decreases calls@.len() - i,
    {
        proof {
            assert(calls@.take(i + 1).drop_last() =~= calls@.take(i as int));
            lemma_wire_len_prefix(calls@, i + 1);
        }
        let fits = add_call_len(total, &calls[i], limit);
        match fits {
            Some(t) => {
                total = t;
            },
            None => {
                return false;
            },
        }
        i += 1;
    }
    assert(calls@.take(i as int) =~= calls@);
    true
}

/// The number of bytes of a string that go on the wire.
fn kept_len(s: &Vec<u8>) -> (n: usize)
    ensures
        n == clip(s@).len(),
{
    if s.len() > MAX_STRING_LEN {
        MAX_STRING_LEN
    } else {
        s.len()
    }
}

/// Adds the length of one call's record to `total`, as long as the sum stays
/// within `limit`.
fn add_call_len(total: usize, call: &ApiCall, limit: usize) -> (r: Option<usize>)
    requires
        total <= limit,
    ensures
        match r {
            Some(t) => t == total + encoded_len(command_of(*call)) && t <= limit,
            None => total + encoded_len(command_of(*call)) > limit,
        },
{
    let room: usize = limit - total;
    let (fixed, a, b): (usize, usize, usize) = match call {
        ApiCall::ClearScreen { .. } => (4, 0, 0),
        ApiCall::SetColor { .. } => (5, 0, 0),
        ApiCall::FillRect { .. } => (17, 0, 0),
        ApiCall::DrawLine { .. } => (21, 0, 0),
        ApiCall::DrawText { text, .. } => (11, kept_len(text), 0),
        ApiCall::LoadSound { name, url } => (5, kept_len(name), kept_len(url)),
        ApiCall::PlaySound { name, .. } => (8, kept_len(name), 0),
        ApiCall::StopSound { name } => (3, kept_len(name), 0),
        ApiCall::SetVolume { name, .. } => (7, kept_len(name), 0),
    };
    if room < fixed || room - fixed < a || room - fixed - a < b {
        None
    } else {
        Some(total + fixed + a + b)
    }
}

// ---------------------------------------------------------------------------
// Laws of the buffer discipline
// ---------------------------------------------------------------------------

proof fn lemma_encode_commands_push(cs: Seq<CommandView>, c: CommandView)
    ensures
        encode_commands(cs.push(c)) == encode_commands(cs) + encode_command(c),
{
    assert(cs.push(c) =~= cs + seq![c]);
    lemma_encode_commands_concat(cs, seq![c]);
    lemma_encode_commands_single(c);
}

/// Running a callback's calls appends to each buffer the encoding of the
/// calls that belong to it, in the order in which they were made, and leaves
/// the mode alone.
pub proof fn lemma_run_calls_appends(s: Frames, calls: Seq<ApiCall>)
    ensures
        s.run_calls(calls).frame == s.frame + encode_commands(local_commands(s.mode, calls)),
        s.run_calls(calls).events == s.events + encode_commands(event_commands(s.mode, calls)),
        s.run_calls(calls).mode == s.mode,
    decreases calls.len(),
{
    if calls.len() == 0 {
        assert(s.frame + Seq::<u8>::empty() =~= s.frame);
        assert(s.events + Seq::<u8>::empty() =~= s.events);
    } else {
        let before = calls.drop_last();
        let last = calls.last();
        lemma_run_calls_appends(s, before);
        if is_event(s.mode, last) {
            lemma_encode_commands_push(event_commands(s.mode, before), command_of(last));
            assert(s.events + encode_commands(event_commands(s.mode, before)) + encode_command(
                command_of(last),
            ) =~= s.events + (encode_commands(event_commands(s.mode, before)) + encode_command(
                command_of(last),
            )));
        } else {
            lemma_encode_commands_push(local_commands(s.mode, before), command_of(last));
            assert(s.frame + encode_commands(local_commands(s.mode, before)) + encode_command(
                command_of(last),
            ) =~= s.frame + (encode_commands(local_commands(s.mode, before)) + encode_command(
                command_of(last),
            )));
        }
    }
}

/// While a client's view is drawn nothing is an event: every call is local.
pub proof fn lemma_draw_mode_keeps_all_local(calls: Seq<ApiCall>)
    ensures
        local_commands(GameMode::Draw, calls) == commands_of(calls),
        event_commands(GameMode::Draw, calls) == Seq::<CommandView>::empty(),
    decreases calls.len(),
{
    if calls.len() > 0 {
        lemma_draw_mode_keeps_all_local(calls.drop_last());
    }
}

/// What a draw hands out, whatever came before: the events that the game
/// holds, then the records of this draw. The events themselves stay, so a
/// draw without an update in between replays them.
pub proof fn lemma_draw_frame(s: Frames, d: Seq<ApiCall>)
    ensures
        s.draw(d).frame == s.events + encode_commands(commands_of(d)),
        s.draw(d).events == s.events,
        s.draw(d).mode == GameMode::Draw,
{
    lemma_run_calls_appends(s.draw_start(), d);
    lemma_draw_mode_keeps_all_local(d);
    assert(s.events + Seq::<u8>::empty() =~= s.events);
}

/// The frame of a tick: after `begin_frame`, an update that made the calls
/// `u` and a draw that made the calls `d`, the frame is the sound control of
/// `u` followed by all of `d`, whatever the game held before the tick.
pub proof fn lemma_frame_of_tick(s: Frames, u: Seq<ApiCall>, d: Seq<ApiCall>)
    ensures
        s.begin_frame().update(u).draw(d).frame == encode_commands(
            event_commands(GameMode::Update, u) + commands_of(d),
        ),
{
    let started = Frames { frame: s.frame, events: Seq::<u8>::empty(), mode: GameMode::Update };
    lemma_run_calls_appends(started, u);
    let updated = s.begin_frame().update(u);
    assert(updated.events =~= encode_commands(event_commands(GameMode::Update, u)));
    lemma_draw_frame(updated, d);
    lemma_encode_commands_concat(event_commands(GameMode::Update, u), commands_of(d));
}

/// A client's frame holds nothing of another client's draw: drawing for one
/// client and then for a second leaves the game as drawing for the second
/// alone.
pub proof fn lemma_draws_do_not_mix(s: Frames, d1: Seq<ApiCall>, d2: Seq<ApiCall>)
    ensures
        s.draw(d1).draw(d2) == s.draw(d2),
{
    lemma_draw_frame(s, d1);
    assert(s.draw(d1).draw_start() == s.draw_start());
}

/// The number of `PLAY_SOUND` records in the frame of a tick is the number
/// that the update raised as events plus the number that the draw made, and
/// nothing of earlier frames counts: the frame reads back as the events of
/// the update followed by the records of the draw, each string cut to what
/// its length prefix can tell.
pub proof fn lemma_play_sound_count(s: Frames, u: Seq<ApiCall>, d: Seq<ApiCall>)
    ensures
        decode_commands(s.begin_frame().update(u).draw(d).frame) == Some(
            clipped_all(event_commands(GameMode::Update, u) + commands_of(d)),
        ),
        count_play_sound(clipped_all(event_commands(GameMode::Update, u) + commands_of(d)))
            == count_play_sound(event_commands(GameMode::Update, u)) + count_play_sound(
            commands_of(d),
        ),
{
    lemma_frame_of_tick(s, u, d);
    lemma_decode_encode_roundtrip(event_commands(GameMode::Update, u) + commands_of(d));
    lemma_count_play_sound_clipped(event_commands(GameMode::Update, u) + commands_of(d));
    lemma_count_play_sound_concat(event_commands(GameMode::Update, u), commands_of(d));
}

/// What a joining client receives first: the records of the `on_connect`
/// callback that are not events, and nothing that was buffered before.
pub proof fn lemma_connect_frame(s: Frames, c: Seq<ApiCall>)
    ensures
        s.on_connect(c).frame == encode_commands(local_commands(s.mode, c)),
{
    lemma_run_calls_appends(s.connect_start(), c);
    assert(Seq::<u8>::empty() + encode_commands(local_commands(s.mode, c)) =~= encode_commands(
        local_commands(s.mode, c),
    ));
}

} // verus!
