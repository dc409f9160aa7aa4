//! The render and audio command stream.
//!
//! A frame is a plain concatenation of records. Each record starts with a
//! one-byte opcode; multi-byte integers are little-endian; a string is a
//! 16-bit length followed by that many raw bytes. A string longer than the
//! length can tell is cut to 65535 bytes when it is written, so that every
//! frame that is written reads back. Numbers that travel as IEEE-754 single
//! precision are held here as their 32-bit patterns, so the whole format is
//! a matter of bytes and integers.
use vstd::prelude::*;

verus! {

pub const OP_CLEAR: u8 = 0x01;

pub const OP_SET_COLOR: u8 = 0x02;

pub const OP_FILL_RECT: u8 = 0x03;

pub const OP_DRAW_LINE: u8 = 0x04;

pub const OP_DRAW_TEXT: u8 = 0x05;

pub const OP_LOAD_SOUND: u8 = 0x06;

pub const OP_PLAY_SOUND: u8 = 0x07;

pub const OP_STOP_SOUND: u8 = 0x08;

pub const OP_SET_VOLUME: u8 = 0x09;

/// The longest string whose length the 16-bit prefix can carry.
pub const MAX_STRING_LEN: usize = 0xFFFF;

/// One record of the stream. Strings are the raw bytes that go on the wire;
/// coordinates, sizes and volumes are single-precision bit patterns.
#[derive(Clone, Debug, PartialEq, Eq)]
pub enum Command {
    Clear { r: u8, g: u8, b: u8 },
    SetColor { r: u8, g: u8, b: u8, a: u8 },
    FillRect { x: u32, y: u32, w: u32, h: u32 },
    DrawLine { x1: u32, y1: u32, x2: u32, y2: u32, width: u32 },
    DrawText { x: u32, y: u32, text: Vec<u8> },
    LoadSound { name: Vec<u8>, url: Vec<u8> },
    PlaySound { name: Vec<u8>, looped: bool, volume: u32 },
    StopSound { name: Vec<u8> },
    SetVolume { name: Vec<u8>, volume: u32 },
}

/// The mathematical value of a [`Command`].
pub enum CommandView {
    Clear { r: u8, g: u8, b: u8 },
    SetColor { r: u8, g: u8, b: u8, a: u8 },
    FillRect { x: u32, y: u32, w: u32, h: u32 },
    DrawLine { x1: u32, y1: u32, x2: u32, y2: u32, width: u32 },
    DrawText { x: u32, y: u32, text: Seq<u8> },
    LoadSound { name: Seq<u8>, url: Seq<u8> },
    PlaySound { name: Seq<u8>, looped: bool, volume: u32 },
    StopSound { name: Seq<u8> },
    SetVolume { name: Seq<u8>, volume: u32 },
}

impl View for Command {
    type V = CommandView;

    open spec fn view(&self) -> CommandView {
        match *self {
            Command::Clear { r, g, b } => CommandView::Clear { r, g, b },
            Command::SetColor { r, g, b, a } => CommandView::SetColor { r, g, b, a },
            Command::FillRect { x, y, w, h } => CommandView::FillRect { x, y, w, h },
            Command::DrawLine { x1, y1, x2, y2, width } => CommandView::DrawLine {
                x1,
                y1,
                x2,
                y2,
                width,
            },
            Command::DrawText { x, y, text } => CommandView::DrawText { x, y, text: text@ },
            Command::LoadSound { name, url } => CommandView::LoadSound { name: name@, url: url@ },
            Command::PlaySound { name, looped, volume } => CommandView::PlaySound {
                name: name@,
                looped,
                volume,
            },
            Command::StopSound { name } => CommandView::StopSound { name: name@ },
            Command::SetVolume { name, volume } => CommandView::SetVolume { name: name@, volume },
        }
    }
}

/// The values of a list of commands, in order.
pub open spec fn views(cs: Seq<Command>) -> Seq<CommandView> {
    cs.map_values(|c: Command| c@)
}

// ---------------------------------------------------------------------------
// Encoding
// ---------------------------------------------------------------------------

/// A 16-bit integer as two bytes, low byte first.
#[verifier::opaque]
pub open spec fn le16(n: u16) -> Seq<u8> {
    seq![(n % 256) as u8, (n / 256) as u8]
}

/// A 32-bit integer as four bytes, low byte first.
#[verifier::opaque]
pub open spec fn le32(n: u32) -> Seq<u8> {
    seq![
        (n % 256) as u8,
        ((n / 256) % 256) as u8,
        ((n / 65536) % 256) as u8,
        (n / 16777216) as u8,
    ]
}

/// What of a string goes on the wire: all of it, or its first
/// [`MAX_STRING_LEN`] bytes where it is longer than the length prefix can
/// tell.
pub open spec fn clip(s: Seq<u8>) -> Seq<u8> {
    if s.len() <= MAX_STRING_LEN {
        s
    } else {
        s.take(MAX_STRING_LEN as int)
    }
}

/// A string on the wire: the number of bytes that follow, then those bytes.
/// A string of more than [`MAX_STRING_LEN`] bytes is cut to that length, so
/// that the prefix always tells how many bytes follow.
pub open spec fn encode_str(s: Seq<u8>) -> Seq<u8> {
    le16(clip(s).len() as u16) + clip(s)
}

/// A flag on the wire: one byte, 1 or 0.
pub open spec fn encode_flag(flag: bool) -> Seq<u8> {
    seq![if flag { 1u8 } else { 0u8 }]
}

/// The bytes of one record.
pub open spec fn encode_command(c: CommandView) -> Seq<u8> {
    match c {
        CommandView::Clear { r, g, b } => seq![OP_CLEAR, r, g, b],
        CommandView::SetColor { r, g, b, a } => seq![OP_SET_COLOR, r, g, b, a],
        CommandView::FillRect { x, y, w, h } => seq![OP_FILL_RECT] + le32(x) + le32(y) + le32(w)
            + le32(h),
        CommandView::DrawLine { x1, y1, x2, y2, width } => seq![OP_DRAW_LINE] + le32(x1) + le32(y1)
            + le32(x2) + le32(y2) + le32(width),
        CommandView::DrawText { x, y, text } => seq![OP_DRAW_TEXT] + le32(x) + le32(y)
            + encode_str(text),
        CommandView::LoadSound { name, url } => seq![OP_LOAD_SOUND] + encode_str(name)
            + encode_str(url),
        CommandView::PlaySound { name, looped, volume } => seq![OP_PLAY_SOUND] + encode_str(name)
            + encode_flag(looped) + le32(volume),
        CommandView::StopSound { name } => seq![OP_STOP_SOUND] + encode_str(name),
        CommandView::SetVolume { name, volume } => seq![OP_SET_VOLUME] + encode_str(name) + le32(
            volume,
        ),
    }
}

/// The bytes of a list of records: their encodings, one after another.
pub open spec fn encode_commands(cs: Seq<CommandView>) -> Seq<u8>
    decreases cs.len(),
{
    if cs.len() == 0 {
        Seq::<u8>::empty()
    } else {
        encode_command(cs[0]) + encode_commands(cs.drop_first())
    }
}

/// Whether every string of the command has a length that its prefix can carry.
pub open spec fn command_fits(c: CommandView) -> bool {
    match c {
        CommandView::DrawText { text, .. } => text.len() <= MAX_STRING_LEN,
        CommandView::LoadSound { name, url } => name.len() <= MAX_STRING_LEN && url.len()
            <= MAX_STRING_LEN,
        CommandView::PlaySound { name, .. } => name.len() <= MAX_STRING_LEN,
        CommandView::StopSound { name } => name.len() <= MAX_STRING_LEN,
        CommandView::SetVolume { name, .. } => name.len() <= MAX_STRING_LEN,
        _ => true,
    }
}

/// Whether every command of the list fits.
pub open spec fn commands_fit(cs: Seq<CommandView>) -> bool {
    forall|i: int| 0 <= i < cs.len() ==> command_fits(#[trigger] cs[i])
}

/// The command as it goes on the wire: every string cut to what its length
/// prefix can tell.
pub open spec fn clipped(c: CommandView) -> CommandView {
    match c {
        CommandView::DrawText { x, y, text } => CommandView::DrawText { x, y, text: clip(text) },
        CommandView::LoadSound { name, url } => CommandView::LoadSound {
            name: clip(name),
            url: clip(url),
        },
        CommandView::PlaySound { name, looped, volume } => CommandView::PlaySound {
            name: clip(name),
            looped,
            volume,
        },
        CommandView::StopSound { name } => CommandView::StopSound { name: clip(name) },
        CommandView::SetVolume { name, volume } => CommandView::SetVolume {
            name: clip(name),
            volume,
        },
        _ => c,
    }
}

/// The commands of a list as they go on the wire, in order.
pub open spec fn clipped_all(cs: Seq<CommandView>) -> Seq<CommandView> {
    cs.map_values(|c: CommandView| clipped(c))
}

/// How many `PLAY_SOUND` records a list holds.
pub open spec fn count_play_sound(cs: Seq<CommandView>) -> nat
    decreases cs.len(),
{
    if cs.len() == 0 {
        0
    } else {
        (if cs[0] is PlaySound { 1nat } else { 0nat }) + count_play_sound(cs.drop_first())
    }
}

// ---------------------------------------------------------------------------
// Decoding
// ---------------------------------------------------------------------------

/// The 32-bit integer whose little-endian bytes start at `at`.
pub open spec fn u32_at(b: Seq<u8>, at: int) -> u32 {
    (b[at] as int + 256 * (b[at + 1] as int) + 65536 * (b[at + 2] as int) + 16777216 * (b[at
        + 3] as int)) as u32
}

/// The 16-bit integer whose little-endian bytes start at `at`.
pub open spec fn u16_at(b: Seq<u8>, at: int) -> u16 {
    (b[at] as int + 256 * (b[at + 1] as int)) as u16
}

/// The string that starts at `at`, with the position just behind it; `None`
/// where the prefix or the announced bytes run past the end.
pub open spec fn str_at(b: Seq<u8>, at: int) -> Option<(Seq<u8>, int)> {
    if at + 2 <= b.len() && at + 2 + u16_at(b, at) <= b.len() {
        Some((b.subrange(at + 2, at + 2 + u16_at(b, at)), at + 2 + u16_at(b, at)))
    } else {
        None
    }
}

/// A `CLEAR` record at the front of `b`: three colour channels.
pub open spec fn decode_clear(b: Seq<u8>) -> Option<(CommandView, int)> {
    if b.len() >= 4 {
        Some((CommandView::Clear { r: b[1], g: b[2], b: b[3] }, 4))
    } else {
        None
    }
}

/// A `SET_COLOR` record at the front of `b`: four colour channels.
pub open spec fn decode_set_color(b: Seq<u8>) -> Option<(CommandView, int)> {
    if b.len() >= 5 {
        Some((CommandView::SetColor { r: b[1], g: b[2], b: b[3], a: b[4] }, 5))
    } else {
        None
    }
}

/// A `FILL_RECT` record at the front of `b`: position and size.
pub open spec fn decode_fill_rect(b: Seq<u8>) -> Option<(CommandView, int)> {
    if b.len() >= 17 {
        Some(
            (
                CommandView::FillRect {
                    x: u32_at(b, 1),
                    y: u32_at(b, 5),
                    w: u32_at(b, 9),
                    h: u32_at(b, 13),
                },
                17,
            ),
        )
    } else {
        None
    }
}

/// A `DRAW_LINE` record at the front of `b`: two points and a width.
pub open spec fn decode_draw_line(b: Seq<u8>) -> Option<(CommandView, int)> {
    if b.len() >= 21 {
        Some(
            (
                CommandView::DrawLine {
                    x1: u32_at(b, 1),
                    y1: u32_at(b, 5),
                    x2: u32_at(b, 9),
                    y2: u32_at(b, 13),
                    width: u32_at(b, 17),
                },
                21,
            ),
        )
    } else {
        None
    }
}

/// A `DRAW_TEXT` record at the front of `b`: a position, then the text.
pub open spec fn decode_draw_text(b: Seq<u8>) -> Option<(CommandView, int)> {
    if b.len() >= 9 {
        match str_at(b, 9) {
            Some((text, end)) => Some(
                (CommandView::DrawText { x: u32_at(b, 1), y: u32_at(b, 5), text }, end),
            ),
            None => None,
        }
    } else {
        None
    }
}

/// A `LOAD_SOUND` record at the front of `b`: a name, then a URL.
pub open spec fn decode_load_sound(b: Seq<u8>) -> Option<(CommandView, int)> {
    match str_at(b, 1) {
        Some((name, mid)) => match str_at(b, mid) {
            Some((url, end)) => Some((CommandView::LoadSound { name, url }, end)),
            None => None,
        },
        None => None,
    }
}

/// A `PLAY_SOUND` record at the front of `b`: a name, the loop flag, which
/// is 0 or 1, and the volume.
pub open spec fn decode_play_sound(b: Seq<u8>) -> Option<(CommandView, int)> {
    match str_at(b, 1) {
        Some((name, mid)) => if mid + 5 <= b.len() && b[mid] <= 1 {
            Some(
                (
                    CommandView::PlaySound { name, looped: b[mid] == 1, volume: u32_at(b, mid + 1) },
                    mid + 5,
                ),
            )
        } else {
            None
        },
        None => None,
    }
}

/// A `STOP_SOUND` record at the front of `b`: a name.
pub open spec fn decode_stop_sound(b: Seq<u8>) -> Option<(CommandView, int)> {
    match str_at(b, 1) {
        Some((name, end)) => Some((CommandView::StopSound { name }, end)),
        None => None,
    }
}

/// A `SET_VOLUME` record at the front of `b`: a name, then the volume.
pub open spec fn decode_set_volume(b: Seq<u8>) -> Option<(CommandView, int)> {
    match str_at(b, 1) {
        Some((name, mid)) => if mid + 4 <= b.len() {
            Some((CommandView::SetVolume { name, volume: u32_at(b, mid) }, mid + 4))
        } else {
            None
        },
        None => None,
    }
}

/// The record at the front of `b`, with the number of bytes it takes up.
/// `None` where the opcode is unknown, the record is cut short, or the loop
/// flag of a `PLAY_SOUND` is neither 0 nor 1.
pub open spec fn decode_command(b: Seq<u8>) -> Option<(CommandView, int)> {
    if b.len() == 0 {
        None
    } else if b[0] == OP_CLEAR {
        decode_clear(b)
    } else if b[0] == OP_SET_COLOR {
        decode_set_color(b)
    } else if b[0] == OP_FILL_RECT {
        decode_fill_rect(b)
    } else if b[0] == OP_DRAW_LINE {
        decode_draw_line(b)
    } else if b[0] == OP_DRAW_TEXT {
        decode_draw_text(b)
    } else if b[0] == OP_LOAD_SOUND {
        decode_load_sound(b)
    } else if b[0] == OP_PLAY_SOUND {
        decode_play_sound(b)
    } else if b[0] == OP_STOP_SOUND {
        decode_stop_sound(b)
    } else if b[0] == OP_SET_VOLUME {
        decode_set_volume(b)
    } else {
        None
    }
}

/// The list of records that `b` is made of; `None` where `b` is not a
/// concatenation of whole records.
pub open spec fn decode_commands(b: Seq<u8>) -> Option<Seq<CommandView>>
    decreases b.len(),
{
    if b.len() == 0 {
        Some(Seq::<CommandView>::empty())
    } else {
        match decode_command(b) {
            Some((c, n)) => if 0 < n <= b.len() {
                match decode_commands(b.skip(n)) {
                    Some(rest) => Some(seq![c] + rest),
                    None => None,
                }
            } else {
                None
            },
            None => None,
        }
    }
}

// ---------------------------------------------------------------------------
// The parser
// ---------------------------------------------------------------------------

proof fn lemma_u32_at_skip(b: Seq<u8>, p: int, at: int)
    requires
        0 <= p,
        0 <= at,
        p + at + 4 <= b.len(),
    ensures
        u32_at(b.skip(p), at) == u32_at(b, p + at),
{
}

proof fn lemma_str_at_skip(b: Seq<u8>, p: int, at: int)
    requires
        0 <= p <= b.len(),
        0 <= at,
    ensures
        str_at(b.skip(p), at) == (match str_at(b, p + at) {
            Some((s, end)) => Some((s, end - p)),
            None => None,
        }),
{
    if at + 2 <= b.skip(p).len() {
        assert(u16_at(b.skip(p), at) == u16_at(b, p + at));
        let n = u16_at(b, p + at) as int;
        if at + 2 + n <= b.skip(p).len() {
            assert(b.skip(p).subrange(at + 2, at + 2 + n) =~= b.subrange(
                p + at + 2,
                p + at + 2 + n,
            ));
        }
    }
}

fn read_u32(bytes: &[u8], at: usize) -> (n: u32)
    requires
        at + 4 <= bytes@.len(),
    ensures
        n == u32_at(bytes@, at as int),
{
    let b0: u32 = bytes[at] as u32;
    let b1: u32 = bytes[at + 1] as u32;
    let b2: u32 = bytes[at + 2] as u32;
    let b3: u32 = bytes[at + 3] as u32;
    b0 + 256 * b1 + 65536 * b2 + 16777216 * b3
}

fn read_str(bytes: &[u8], at: usize) -> (r: Option<(Vec<u8>, usize)>)
    ensures
        match r {
            Some((s, end)) => str_at(bytes@, at as int) == Some((s@, end as int)) && at + 2 <= end
                <= bytes@.len(),
            None => str_at(bytes@, at as int) is None,
        },
{
    let len: usize = bytes.len();
    if at > len || len - at < 2 {
        return None;
    }
    let n: usize = bytes[at] as usize + 256 * (bytes[at + 1] as usize);
    if len - at - 2 < n {
        return None;
    }
    let s = vstd::slice::slice_to_vec(vstd::slice::slice_subrange(bytes, at + 2, at + 2 + n));
    Some((s, at + 2 + n))
}

fn parse_clear(bytes: &[u8], pos: usize) -> (r: Option<(Command, usize)>)
    requires
        pos < bytes@.len(),
    ensures
        parsed_as(r, decode_clear(bytes@.skip(pos as int)), bytes@, pos),
{
    if bytes.len() - pos >= 4 {
        Some((Command::Clear { r: bytes[pos + 1], g: bytes[pos + 2], b: bytes[pos + 3] }, pos + 4))
    } else {
        None
    }
}

fn parse_set_color(bytes: &[u8], pos: usize) -> (r: Option<(Command, usize)>)
    requires
        pos < bytes@.len(),
    ensures
        parsed_as(r, decode_set_color(bytes@.skip(pos as int)), bytes@, pos),
{
    if bytes.len() - pos >= 5 {
        Some(
            (
                Command::SetColor {
                    r: bytes[pos + 1],
                    g: bytes[pos + 2],
                    b: bytes[pos + 3],
                    a: bytes[pos + 4],
                },
                pos + 5,
            ),
        )
    } else {
        None
    }
}

fn parse_fill_rect(bytes: &[u8], pos: usize) -> (r: Option<(Command, usize)>)
    requires
        pos < bytes@.len(),
    ensures
        parsed_as(r, decode_fill_rect(bytes@.skip(pos as int)), bytes@, pos),
{
    if bytes.len() - pos >= 17 {
        proof {
            lemma_u32_at_skip(bytes@, pos as int, 1);
            lemma_u32_at_skip(bytes@, pos as int, 5);
            lemma_u32_at_skip(bytes@, pos as int, 9);
            lemma_u32_at_skip(bytes@, pos as int, 13);
        }
        let x = read_u32(bytes, pos + 1);
        let y = read_u32(bytes, pos + 5);
        let w = read_u32(bytes, pos + 9);
        let h = read_u32(bytes, pos + 13);
        Some((Command::FillRect { x, y, w, h }, pos + 17))
    } else {
        None
    }
}

fn parse_draw_line(bytes: &[u8], pos: usize) -> (r: Option<(Command, usize)>)
    requires
        pos < bytes@.len(),
    ensures
        parsed_as(r, decode_draw_line(bytes@.skip(pos as int)), bytes@, pos),
{
    if bytes.len() - pos >= 21 {
        proof {
            lemma_u32_at_skip(bytes@, pos as int, 1);
            lemma_u32_at_skip(bytes@, pos as int, 5);
            lemma_u32_at_skip(bytes@, pos as int, 9);
            lemma_u32_at_skip(bytes@, pos as int, 13);
            lemma_u32_at_skip(bytes@, pos as int, 17);
        }
        let x1 = read_u32(bytes, pos + 1);
        let y1 = read_u32(bytes, pos + 5);
        let x2 = read_u32(bytes, pos + 9);
        let y2 = read_u32(bytes, pos + 13);
        let width = read_u32(bytes, pos + 17);
        Some((Command::DrawLine { x1, y1, x2, y2, width }, pos + 21))
    } else {
        None
    }
}

fn parse_draw_text(bytes: &[u8], pos: usize) -> (r: Option<(Command, usize)>)
    requires
        pos < bytes@.len(),
    ensures
        parsed_as(r, decode_draw_text(bytes@.skip(pos as int)), bytes@, pos),
{
    if bytes.len() - pos >= 9 {
        proof {
            lemma_u32_at_skip(bytes@, pos as int, 1);
            lemma_u32_at_skip(bytes@, pos as int, 5);
            lemma_str_at_skip(bytes@, pos as int, 9);
        }
        let x = read_u32(bytes, pos + 1);
        let y = read_u32(bytes, pos + 5);
        match read_str(bytes, pos + 9) {
            Some((text, end)) => Some((Command::DrawText { x, y, text }, end)),
            None => None,
        }
    } else {
        None
    }
}

fn parse_load_sound(bytes: &[u8], pos: usize) -> (r: Option<(Command, usize)>)
    requires
        pos < bytes@.len(),
    ensures
        parsed_as(r, decode_load_sound(bytes@.skip(pos as int)), bytes@, pos),
{
    let len: usize = bytes.len();
    proof {
        lemma_str_at_skip(bytes@, pos as int, 1);
    }
    match read_str(bytes, pos + 1) {
        Some((name, mid)) => {
            proof {
                lemma_str_at_skip(bytes@, pos as int, mid - pos);
            }
            match read_str(bytes, mid) {
                Some((url, end)) => Some((Command::LoadSound { name, url }, end)),
                None => None,
            }
        },
        None => None,
    }
}

fn parse_play_sound(bytes: &[u8], pos: usize) -> (r: Option<(Command, usize)>)
    requires
        pos < bytes@.len(),
    ensures
        parsed_as(r, decode_play_sound(bytes@.skip(pos as int)), bytes@, pos),
{
    let len: usize = bytes.len();
    proof {
        lemma_str_at_skip(bytes@, pos as int, 1);
    }
    match read_str(bytes, pos + 1) {
        Some((name, mid)) => {
            if len - mid >= 5 && bytes[mid] <= 1 {
                proof {
                    lemma_u32_at_skip(bytes@, pos as int, mid - pos + 1);
                }
                let looped = bytes[mid] == 1;
                let volume = read_u32(bytes, mid + 1);
                Some((Command::PlaySound { name, looped, volume }, mid + 5))
            } else {
                None
            }
        },
        None => None,
    }
}

fn parse_stop_sound(bytes: &[u8], pos: usize) -> (r: Option<(Command, usize)>)
    requires
        pos < bytes@.len(),
    ensures
        parsed_as(r, decode_stop_sound(bytes@.skip(pos as int)), bytes@, pos),
{
    let len: usize = bytes.len();
    proof {
        lemma_str_at_skip(bytes@, pos as int, 1);
    }
    match read_str(bytes, pos + 1) {
        Some((name, end)) => Some((Command::StopSound { name }, end)),
        None => None,
    }
}

fn parse_set_volume(bytes: &[u8], pos: usize) -> (r: Option<(Command, usize)>)
    requires
        pos < bytes@.len(),
    ensures
        parsed_as(r, decode_set_volume(bytes@.skip(pos as int)), bytes@, pos),
{
    let len: usize = bytes.len();
    proof {
        lemma_str_at_skip(bytes@, pos as int, 1);
    }
    match read_str(bytes, pos + 1) {
        Some((name, mid)) => {
            if len - mid >= 4 {
                proof {
                    lemma_u32_at_skip(bytes@, pos as int, mid - pos);
                }
                let volume = read_u32(bytes, mid);
                Some((Command::SetVolume { name, volume }, mid + 4))
            } else {
                None
            }
        },
        None => None,
    }
}

/// What it means for the parser's answer at `pos` to agree with the decoder's
/// answer on the bytes from `pos` on.
spec fn parsed_as(
    r: Option<(Command, usize)>,
    d: Option<(CommandView, int)>,
    b: Seq<u8>,
    pos: usize,
) -> bool {
    match r {
        Some((c, next)) => pos < next <= b.len() && d == Some((c@, next - pos)),
        None => d is None,
    }
}

/// Reads the record that starts at `pos`.
fn parse_command(bytes: &[u8], pos: usize) -> (r: Option<(Command, usize)>)
    requires
        pos < bytes@.len(),
    ensures
        parsed_as(r, decode_command(bytes@.skip(pos as int)), bytes@, pos),
{
    let op: u8 = bytes[pos];
    assert(bytes@.skip(pos as int)[0] == op);
    if op == OP_CLEAR {
        parse_clear(bytes, pos)
    } else if op == OP_SET_COLOR {
        parse_set_color(bytes, pos)
    } else if op == OP_FILL_RECT {
        parse_fill_rect(bytes, pos)
    } else if op == OP_DRAW_LINE {
        parse_draw_line(bytes, pos)
    } else if op == OP_DRAW_TEXT {
        parse_draw_text(bytes, pos)
    } else if op == OP_LOAD_SOUND {
        parse_load_sound(bytes, pos)
    } else if op == OP_PLAY_SOUND {
        parse_play_sound(bytes, pos)
    } else if op == OP_STOP_SOUND {
        parse_stop_sound(bytes, pos)
    } else if op == OP_SET_VOLUME {
        parse_set_volume(bytes, pos)
    } else {
        None
    }
}

proof fn lemma_decode_step(b: Seq<u8>, pos: int, next: int, c: CommandView)
    requires
        0 <= pos < next <= b.len(),
        decode_command(b.skip(pos)) == Some((c, next - pos)),
    ensures
        decode_commands(b.skip(pos)) == (match decode_commands(b.skip(next)) {
            Some(rest) => Some(seq![c] + rest),
            None => None,
        }),
{
    assert(b.skip(pos).skip(next - pos) =~= b.skip(next));
}

/// Splits a frame into its records. Returns the list that the frame is the
/// encoding of, and `None` exactly where the frame is not a concatenation of
/// whole records.
pub fn parse_commands(bytes: &[u8]) -> (r: Option<Vec<Command>>)
    ensures
        match r {
            Some(cs) => decode_commands(bytes@) == Some(views(cs@)),
            None => decode_commands(bytes@) is None,
        },
{
    let mut out: Vec<Command> = Vec::new();
    let mut pos: usize = 0;
    assert(bytes@.skip(0) =~= bytes@);
    assert(views(out@) =~= Seq::<CommandView>::empty());
    while pos < bytes.len()
        invariant
            pos <= bytes@.len(),
            decode_commands(bytes@) == (match decode_commands(bytes@.skip(pos as int)) {
                Some(rest) => Some(views(out@) + rest),
                None => None,
            }),
        decreases bytes@.len() - pos,
    {
        match parse_command(bytes, pos) {
            None => {
                assert(decode_commands(bytes@.skip(pos as int)) is None);
                return None;
            },
            Some((c, next)) => {
                proof {
                    lemma_decode_step(bytes@, pos as int, next as int, c@);
                    assert(views(out@.push(c)) =~= views(out@) + seq![c@]);
                    match decode_commands(bytes@.skip(next as int)) {
                        Some(rest) => {
                            assert(views(out@) + (seq![c@] + rest) =~= views(out@.push(c)) + rest);
                        },
                        None => {},
                    }
                }
                out.push(c);
                pos = next;
            },
        }
    }
    assert(views(out@) + Seq::<CommandView>::empty() =~= views(out@));
    Some(out)
}

// ---------------------------------------------------------------------------
// Laws of the format
// ---------------------------------------------------------------------------

/// The little-endian form of a 32-bit integer has four bytes.
pub proof fn lemma_le32_len(n: u32)
    ensures
        le32(n).len() == 4,
{
    reveal(le32);
}

/// A string on the wire takes two bytes more than what is kept of it.
pub proof fn lemma_encode_str_len(s: Seq<u8>)
    ensures
        encode_str(s).len() == 2 + clip(s).len(),
        clip(s).len() <= MAX_STRING_LEN,
        clip(s).len() <= s.len(),
{
    reveal(le16);
}

/// The number of bytes that a record takes up on the wire.
pub open spec fn encoded_len(c: CommandView) -> nat {
    match c {
        CommandView::Clear { .. } => 4,
        CommandView::SetColor { .. } => 5,
        CommandView::FillRect { .. } => 17,
        CommandView::DrawLine { .. } => 21,
        CommandView::DrawText { text, .. } => 11 + clip(text).len(),
        CommandView::LoadSound { name, url } => 5 + clip(name).len() + clip(url).len(),
        CommandView::PlaySound { name, .. } => 8 + clip(name).len(),
        CommandView::StopSound { name } => 3 + clip(name).len(),
        CommandView::SetVolume { name, .. } => 7 + clip(name).len(),
    }
}

/// A record's encoding has exactly [`encoded_len`] bytes.
pub proof fn lemma_encoded_len(c: CommandView)
    ensures
        encode_command(c).len() == encoded_len(c),
{
    reveal(le32);
    reveal(le16);
}

proof fn lemma_digits_of_sum(b0: int, b1: int, b2: int, b3: int)
    requires
        0 <= b0 < 256,
        0 <= b1 < 256,
        0 <= b2 < 256,
        0 <= b3 < 256,
    ensures
        0 <= b0 + 256 * b1 + 65536 * b2 + 16777216 * b3 < 0x1_0000_0000,
        (b0 + 256 * b1 + 65536 * b2 + 16777216 * b3) % 256 == b0,
        ((b0 + 256 * b1 + 65536 * b2 + 16777216 * b3) / 256) % 256 == b1,
        ((b0 + 256 * b1 + 65536 * b2 + 16777216 * b3) / 65536) % 256 == b2,
        (b0 + 256 * b1 + 65536 * b2 + 16777216 * b3) / 16777216 == b3,
{
    let n = b0 + 256 * b1 + 65536 * b2 + 16777216 * b3;
    let m1 = b1 + 256 * b2 + 65536 * b3;
    let m2 = b2 + 256 * b3;
    vstd::arithmetic::div_mod::lemma_fundamental_div_mod_converse(n, 256, m1, b0);
    vstd::arithmetic::div_mod::lemma_fundamental_div_mod_converse(m1, 256, m2, b1);
    vstd::arithmetic::div_mod::lemma_fundamental_div_mod_converse(n, 65536, m2, b0 + 256 * b1);
    vstd::arithmetic::div_mod::lemma_fundamental_div_mod_converse(m2, 256, b3, b2);
    vstd::arithmetic::div_mod::lemma_fundamental_div_mod_converse(
        n,
        16777216,
        b3,
        b0 + 256 * b1 + 65536 * b2,
    );
}

proof fn lemma_sum_of_digits(n: int)
    requires
        0 <= n < 0x1_0000_0000,
    ensures
        n % 256 + 256 * ((n / 256) % 256) + 65536 * ((n / 65536) % 256) + 16777216 * (n
            / 16777216) == n,
        0 <= n / 16777216 < 256,
{
    let b0 = n % 256;
    let m1 = n / 256;
    let b1 = m1 % 256;
    let m2 = m1 / 256;
    let b2 = m2 % 256;
    let b3 = m2 / 256;
    assert(n == 256 * m1 + b0);
    assert(m1 == 256 * m2 + b1);
    assert(m2 == 256 * b3 + b2);
    assert(0 <= b3 < 256);
    lemma_digits_of_sum(b0, b1, b2, b3);
}

proof fn lemma_u32_at_le32(pre: Seq<u8>, n: u32, post: Seq<u8>)
    ensures
        u32_at(pre + le32(n) + post, pre.len() as int) == n,
{
    reveal(le32);
    let s = pre + le32(n) + post;
    let at = pre.len() as int;
    assert(s[at] == le32(n)[0]);
    assert(s[at + 1] == le32(n)[1]);
    assert(s[at + 2] == le32(n)[2]);
    assert(s[at + 3] == le32(n)[3]);
    lemma_sum_of_digits(n as int);
}

proof fn lemma_str_at_encode(pre: Seq<u8>, t: Seq<u8>, post: Seq<u8>)
    requires
        t.len() <= MAX_STRING_LEN,
    ensures
        str_at(pre + encode_str(t) + post, pre.len() as int) == Some(
            (t, (pre.len() + 2 + t.len()) as int),
        ),
{
    reveal(le16);
    let s = pre + encode_str(t) + post;
    let at = pre.len() as int;
    let n = clip(t).len() as u16;
    assert(clip(t) == t);
    assert(n == t.len());
    assert(encode_str(t).len() == 2 + t.len());
    assert(s[at] == encode_str(t)[0]);
    assert(s[at + 1] == encode_str(t)[1]);
    assert(encode_str(t)[0] == le16(n)[0]);
    assert(encode_str(t)[1] == le16(n)[1]);
    assert(u16_at(s, at) == n);
    assert(s.subrange(at + 2, at + 2 + t.len()) =~= t);
}

proof fn lemma_le32_u32_at(b: Seq<u8>, at: int)
    requires
        0 <= at,
        at + 4 <= b.len(),
    ensures
        le32(u32_at(b, at)) == b.subrange(at, at + 4),
{
    reveal(le32);
    lemma_digits_of_sum(b[at] as int, b[at + 1] as int, b[at + 2] as int, b[at + 3] as int);
    let n = u32_at(b, at);
    assert(le32(n)[0] == b[at]);
    assert(le32(n)[1] == b[at + 1]);
    assert(le32(n)[2] == b[at + 2]);
    assert(le32(n)[3] == b[at + 3]);
    assert(le32(n) =~= b.subrange(at, at + 4));
}

proof fn lemma_encode_str_at(b: Seq<u8>, at: int)
    requires
        0 <= at,
        str_at(b, at) is Some,
    ensures
        encode_str(str_at(b, at).unwrap().0) == b.subrange(at, str_at(b, at).unwrap().1),
        str_at(b, at).unwrap().0.len() <= MAX_STRING_LEN,
        at + 2 <= str_at(b, at).unwrap().1 <= b.len(),
{
    reveal(le16);
    let t = str_at(b, at).unwrap().0;
    let end = str_at(b, at).unwrap().1;
    assert(t.len() == u16_at(b, at));
    assert(clip(t) == t);
    assert(encode_str(t) =~= b.subrange(at, end));
}

proof fn lemma_decode_encoded_fill_rect(x: u32, y: u32, w: u32, h: u32, rest: Seq<u8>)
    ensures
        decode_fill_rect(encode_command(CommandView::FillRect { x, y, w, h }) + rest) == Some(
            (CommandView::FillRect { x, y, w, h }, 17int),
        ),
        encode_command(CommandView::FillRect { x, y, w, h }).len() == 17,
        (encode_command(CommandView::FillRect { x, y, w, h }) + rest)[0] == OP_FILL_RECT,
{
    lemma_le32_len(x);
    lemma_le32_len(y);
    lemma_le32_len(w);
    lemma_le32_len(h);
    let e = encode_command(CommandView::FillRect { x, y, w, h }) + rest;
    let op = seq![OP_FILL_RECT];
    assert(e =~= op + le32(x) + (le32(y) + le32(w) + le32(h) + rest));
    lemma_u32_at_le32(op, x, le32(y) + le32(w) + le32(h) + rest);
    assert(e =~= (op + le32(x)) + le32(y) + (le32(w) + le32(h) + rest));
    lemma_u32_at_le32(op + le32(x), y, le32(w) + le32(h) + rest);
    assert(e =~= (op + le32(x) + le32(y)) + le32(w) + (le32(h) + rest));
    lemma_u32_at_le32(op + le32(x) + le32(y), w, le32(h) + rest);
    assert(e =~= (op + le32(x) + le32(y) + le32(w)) + le32(h) + rest);
    lemma_u32_at_le32(op + le32(x) + le32(y) + le32(w), h, rest);
}

proof fn lemma_decode_encoded_draw_line(
    x1: u32,
    y1: u32,
    x2: u32,
    y2: u32,
    width: u32,
    rest: Seq<u8>,
)
    ensures
        decode_draw_line(encode_command(CommandView::DrawLine { x1, y1, x2, y2, width }) + rest)
            == Some((CommandView::DrawLine { x1, y1, x2, y2, width }, 21int)),
        encode_command(CommandView::DrawLine { x1, y1, x2, y2, width }).len() == 21,
        (encode_command(CommandView::DrawLine { x1, y1, x2, y2, width }) + rest)[0]
            == OP_DRAW_LINE,
{
    lemma_le32_len(x1);
    lemma_le32_len(y1);
    lemma_le32_len(x2);
    lemma_le32_len(y2);
    lemma_le32_len(width);
    let e = encode_command(CommandView::DrawLine { x1, y1, x2, y2, width }) + rest;
    let op = seq![OP_DRAW_LINE];
    let t1 = le32(y1) + le32(x2) + le32(y2) + le32(width) + rest;
    assert(e =~= op + le32(x1) + t1);
    lemma_u32_at_le32(op, x1, t1);
    let t2 = le32(x2) + le32(y2) + le32(width) + rest;
    assert(e =~= (op + le32(x1)) + le32(y1) + t2);
    lemma_u32_at_le32(op + le32(x1), y1, t2);
    let t3 = le32(y2) + le32(width) + rest;
    assert(e =~= (op + le32(x1) + le32(y1)) + le32(x2) + t3);
    lemma_u32_at_le32(op + le32(x1) + le32(y1), x2, t3);
    let t4 = le32(width) + rest;
    assert(e =~= (op + le32(x1) + le32(y1) + le32(x2)) + le32(y2) + t4);
    lemma_u32_at_le32(op + le32(x1) + le32(y1) + le32(x2), y2, t4);
    assert(e =~= (op + le32(x1) + le32(y1) + le32(x2) + le32(y2)) + le32(width) + rest);
    lemma_u32_at_le32(op + le32(x1) + le32(y1) + le32(x2) + le32(y2), width, rest);
}

proof fn lemma_decode_encoded_draw_text(x: u32, y: u32, text: Seq<u8>, rest: Seq<u8>)
    requires
        text.len() <= MAX_STRING_LEN,
    ensures
        decode_draw_text(encode_command(CommandView::DrawText { x, y, text }) + rest) == Some(
            (CommandView::DrawText { x, y, text }, 11 + text.len() as int),
        ),
        encode_command(CommandView::DrawText { x, y, text }).len() == 11 + text.len(),
        (encode_command(CommandView::DrawText { x, y, text }) + rest)[0] == OP_DRAW_TEXT,
{
    lemma_le32_len(x);
    lemma_le32_len(y);
    lemma_encode_str_len(text);
    let e = encode_command(CommandView::DrawText { x, y, text }) + rest;
    let op = seq![OP_DRAW_TEXT];
    assert(e =~= op + le32(x) + (le32(y) + encode_str(text) + rest));
    lemma_u32_at_le32(op, x, le32(y) + encode_str(text) + rest);
    assert(e =~= (op + le32(x)) + le32(y) + (encode_str(text) + rest));
    lemma_u32_at_le32(op + le32(x), y, encode_str(text) + rest);
    assert(e =~= (op + le32(x) + le32(y)) + encode_str(text) + rest);
    lemma_str_at_encode(op + le32(x) + le32(y), text, rest);
}

proof fn lemma_decode_encoded_load_sound(name: Seq<u8>, url: Seq<u8>, rest: Seq<u8>)
    requires
        name.len() <= MAX_STRING_LEN,
        url.len() <= MAX_STRING_LEN,
    ensures
        decode_load_sound(encode_command(CommandView::LoadSound { name, url }) + rest) == Some(
            (CommandView::LoadSound { name, url }, 5 + name.len() + url.len() as int),
        ),
        encode_command(CommandView::LoadSound { name, url }).len() == 5 + name.len() + url.len(),
        (encode_command(CommandView::LoadSound { name, url }) + rest)[0] == OP_LOAD_SOUND,
{
    lemma_encode_str_len(name);
    lemma_encode_str_len(url);
    let e = encode_command(CommandView::LoadSound { name, url }) + rest;
    let op = seq![OP_LOAD_SOUND];
    let head = op + encode_str(name);
    assert(encode_str(name).len() == 2 + name.len());
    assert(encode_str(url).len() == 2 + url.len());
    assert(head.len() == 3 + name.len());
    assert(e =~= op + encode_str(name) + (encode_str(url) + rest));
    lemma_str_at_encode(op, name, encode_str(url) + rest);
    assert(str_at(e, 1) == Some((name, 3 + name.len() as int)));
    assert(e =~= head + encode_str(url) + rest);
    lemma_str_at_encode(head, url, rest);
    assert(str_at(e, 3 + name.len() as int) == Some((url, 5 + name.len() + url.len() as int)));
}

proof fn lemma_decode_encoded_play_sound(name: Seq<u8>, looped: bool, volume: u32, rest: Seq<u8>)
    requires
        name.len() <= MAX_STRING_LEN,
    ensures
        decode_play_sound(encode_command(CommandView::PlaySound { name, looped, volume }) + rest)
            == Some((CommandView::PlaySound { name, looped, volume }, 8 + name.len() as int)),
        encode_command(CommandView::PlaySound { name, looped, volume }).len() == 8 + name.len(),
        (encode_command(CommandView::PlaySound { name, looped, volume }) + rest)[0]
            == OP_PLAY_SOUND,
{
    lemma_le32_len(volume);
    lemma_encode_str_len(name);
    let e = encode_command(CommandView::PlaySound { name, looped, volume }) + rest;
    let op = seq![OP_PLAY_SOUND];
    assert(e =~= op + encode_str(name) + (encode_flag(looped) + le32(volume) + rest));
    lemma_str_at_encode(op, name, encode_flag(looped) + le32(volume) + rest);
    let mid = 1 + 2 + name.len() as int;
    assert(e[mid] == encode_flag(looped)[0]);
    assert(e =~= (op + encode_str(name) + encode_flag(looped)) + le32(volume) + rest);
    lemma_u32_at_le32(op + encode_str(name) + encode_flag(looped), volume, rest);
}

proof fn lemma_decode_encoded_stop_sound(name: Seq<u8>, rest: Seq<u8>)
    requires
        name.len() <= MAX_STRING_LEN,
    ensures
        decode_stop_sound(encode_command(CommandView::StopSound { name }) + rest) == Some(
            (CommandView::StopSound { name }, 3 + name.len() as int),
        ),
        encode_command(CommandView::StopSound { name }).len() == 3 + name.len(),
        (encode_command(CommandView::StopSound { name }) + rest)[0] == OP_STOP_SOUND,
{
    lemma_encode_str_len(name);
    let e = encode_command(CommandView::StopSound { name }) + rest;
    let op = seq![OP_STOP_SOUND];
    assert(e =~= op + encode_str(name) + rest);
    lemma_str_at_encode(op, name, rest);
}

proof fn lemma_decode_encoded_set_volume(name: Seq<u8>, volume: u32, rest: Seq<u8>)
    requires
        name.len() <= MAX_STRING_LEN,
    ensures
        decode_set_volume(encode_command(CommandView::SetVolume { name, volume }) + rest) == Some(
            (CommandView::SetVolume { name, volume }, 7 + name.len() as int),
        ),
        encode_command(CommandView::SetVolume { name, volume }).len() == 7 + name.len(),
        (encode_command(CommandView::SetVolume { name, volume }) + rest)[0] == OP_SET_VOLUME,
{
    lemma_le32_len(volume);
    lemma_encode_str_len(name);
    let e = encode_command(CommandView::SetVolume { name, volume }) + rest;
    let op = seq![OP_SET_VOLUME];
    let head = op + encode_str(name);
    assert(encode_str(name).len() == 2 + name.len());
    assert(head.len() == 3 + name.len());
    assert(e =~= op + encode_str(name) + (le32(volume) + rest));
    lemma_str_at_encode(op, name, le32(volume) + rest);
    assert(str_at(e, 1) == Some((name, 3 + name.len() as int)));
    assert(e =~= head + le32(volume) + rest);
    lemma_u32_at_le32(head, volume, rest);
    assert(u32_at(e, 3 + name.len() as int) == volume);
    assert(e.len() == head.len() + 4 + rest.len());
}

proof fn lemma_decode_encoded_command(c: CommandView, rest: Seq<u8>)
    requires
        command_fits(c),
    ensures
        decode_command(encode_command(c) + rest) == Some((c, encode_command(c).len() as int)),
        encode_command(c).len() > 0,
{
    match c {
        CommandView::Clear { r, g, b } => {},
        CommandView::SetColor { r, g, b, a } => {},
        CommandView::FillRect { x, y, w, h } => {
            lemma_decode_encoded_fill_rect(x, y, w, h, rest);
        },
        CommandView::DrawLine { x1, y1, x2, y2, width } => {
            lemma_decode_encoded_draw_line(x1, y1, x2, y2, width, rest);
        },
        CommandView::DrawText { x, y, text } => {
            lemma_decode_encoded_draw_text(x, y, text, rest);
        },
        CommandView::LoadSound { name, url } => {
            lemma_decode_encoded_load_sound(name, url, rest);
        },
        CommandView::PlaySound { name, looped, volume } => {
            lemma_decode_encoded_play_sound(name, looped, volume, rest);
        },
        CommandView::StopSound { name } => {
            lemma_decode_encoded_stop_sound(name, rest);
        },
        CommandView::SetVolume { name, volume } => {
            lemma_decode_encoded_set_volume(name, volume, rest);
        },
    }
}

/// Whether what was read from the front of `b`, if anything, is written as
/// the bytes it was read from.
spec fn written_as_read(d: Option<(CommandView, int)>, b: Seq<u8>) -> bool {
    d is Some ==> {
        &&& 0 < d.unwrap().1 <= b.len()
        &&& command_fits(d.unwrap().0)
        &&& encode_command(d.unwrap().0) == b.subrange(0, d.unwrap().1)
    }
}

proof fn lemma_encode_decoded_clear(b: Seq<u8>)
    requires
        b.len() > 0,
        b[0] == OP_CLEAR,
    ensures
        written_as_read(decode_clear(b), b),
{
    if decode_clear(b) is Some {
        let c = decode_clear(b).unwrap().0;
        let n = decode_clear(b).unwrap().1;
        let op = seq![b[0]];
        assert(encode_command(c) =~= b.subrange(0, n));
    }
}

proof fn lemma_encode_decoded_set_color(b: Seq<u8>)
    requires
        b.len() > 0,
        b[0] == OP_SET_COLOR,
    ensures
        written_as_read(decode_set_color(b), b),
{
    if decode_set_color(b) is Some {
        let c = decode_set_color(b).unwrap().0;
        let n = decode_set_color(b).unwrap().1;
        let op = seq![b[0]];
        assert(encode_command(c) =~= b.subrange(0, n));
    }
}

proof fn lemma_encode_decoded_fill_rect(b: Seq<u8>)
    requires
        b.len() > 0,
        b[0] == OP_FILL_RECT,
    ensures
        written_as_read(decode_fill_rect(b), b),
{
    if decode_fill_rect(b) is Some {
        let c = decode_fill_rect(b).unwrap().0;
        let n = decode_fill_rect(b).unwrap().1;
        let op = seq![b[0]];
        lemma_le32_u32_at(b, 1);
        lemma_le32_u32_at(b, 5);
        lemma_le32_u32_at(b, 9);
        lemma_le32_u32_at(b, 13);
        assert(op + b.subrange(1, 5) + b.subrange(5, 9) + b.subrange(9, 13) + b.subrange(13, 17)
            =~= b.subrange(0, 17));
    }
}

proof fn lemma_encode_decoded_draw_line(b: Seq<u8>)
    requires
        b.len() > 0,
        b[0] == OP_DRAW_LINE,
    ensures
        written_as_read(decode_draw_line(b), b),
{
    if decode_draw_line(b) is Some {
        let c = decode_draw_line(b).unwrap().0;
        let n = decode_draw_line(b).unwrap().1;
        let op = seq![b[0]];
        lemma_le32_u32_at(b, 1);
        lemma_le32_u32_at(b, 5);
        lemma_le32_u32_at(b, 9);
        lemma_le32_u32_at(b, 13);
        lemma_le32_u32_at(b, 17);
        assert(op + b.subrange(1, 5) + b.subrange(5, 9) + b.subrange(9, 13) + b.subrange(13, 17)
            + b.subrange(17, 21) =~= b.subrange(0, 21));
    }
}

proof fn lemma_encode_decoded_draw_text(b: Seq<u8>)
    requires
        b.len() > 0,
        b[0] == OP_DRAW_TEXT,
    ensures
        written_as_read(decode_draw_text(b), b),
{
    if decode_draw_text(b) is Some {
        let c = decode_draw_text(b).unwrap().0;
        let n = decode_draw_text(b).unwrap().1;
        let op = seq![b[0]];
        lemma_le32_u32_at(b, 1);
        lemma_le32_u32_at(b, 5);
        lemma_encode_str_at(b, 9);
        assert(op + b.subrange(1, 5) + b.subrange(5, 9) + b.subrange(9, n) =~= b.subrange(0, n));
    }
}

proof fn lemma_encode_decoded_load_sound(b: Seq<u8>)
    requires
        b.len() > 0,
        b[0] == OP_LOAD_SOUND,
    ensures
        written_as_read(decode_load_sound(b), b),
{
    if decode_load_sound(b) is Some {
        let c = decode_load_sound(b).unwrap().0;
        let n = decode_load_sound(b).unwrap().1;
        let op = seq![b[0]];
        lemma_encode_str_at(b, 1);
        let mid = str_at(b, 1).unwrap().1;
        lemma_encode_str_at(b, mid);
        assert(op + b.subrange(1, mid) + b.subrange(mid, n) =~= b.subrange(0, n));
    }
}

proof fn lemma_encode_decoded_play_sound(b: Seq<u8>)
    requires
        b.len() > 0,
        b[0] == OP_PLAY_SOUND,
    ensures
        written_as_read(decode_play_sound(b), b),
{
    if decode_play_sound(b) is Some {
        let c = decode_play_sound(b).unwrap().0;
        let n = decode_play_sound(b).unwrap().1;
        let op = seq![b[0]];
        lemma_encode_str_at(b, 1);
        let mid = str_at(b, 1).unwrap().1;
        lemma_le32_u32_at(b, mid + 1);
        assert(encode_flag(b[mid] == 1) =~= b.subrange(mid, mid + 1));
        assert(op + b.subrange(1, mid) + b.subrange(mid, mid + 1) + b.subrange(mid + 1, mid + 5)
            =~= b.subrange(0, n));
    }
}

proof fn lemma_encode_decoded_stop_sound(b: Seq<u8>)
    requires
        b.len() > 0,
        b[0] == OP_STOP_SOUND,
    ensures
        written_as_read(decode_stop_sound(b), b),
{
    if decode_stop_sound(b) is Some {
        let c = decode_stop_sound(b).unwrap().0;
        let n = decode_stop_sound(b).unwrap().1;
        let op = seq![b[0]];
        lemma_encode_str_at(b, 1);
        assert(op + b.subrange(1, n) =~= b.subrange(0, n));
    }
}

proof fn lemma_encode_decoded_set_volume(b: Seq<u8>)
    requires
        b.len() > 0,
        b[0] == OP_SET_VOLUME,
    ensures
        written_as_read(decode_set_volume(b), b),
{
    if decode_set_volume(b) is Some {
        let c = decode_set_volume(b).unwrap().0;
        let n = decode_set_volume(b).unwrap().1;
        let op = seq![b[0]];
        lemma_encode_str_at(b, 1);
        let mid = str_at(b, 1).unwrap().1;
        lemma_le32_u32_at(b, mid);
        assert(op + b.subrange(1, mid) + b.subrange(mid, mid + 4) =~= b.subrange(0, n));
    }
}

proof fn lemma_encode_decoded_command(b: Seq<u8>)
    requires
        decode_command(b) is Some,
    ensures
        0 < decode_command(b).unwrap().1 <= b.len(),
        command_fits(decode_command(b).unwrap().0),
        encode_command(decode_command(b).unwrap().0) == b.subrange(0, decode_command(b).unwrap().1),
{
    if b[0] == OP_CLEAR {
        lemma_encode_decoded_clear(b);
    } else if b[0] == OP_SET_COLOR {
        lemma_encode_decoded_set_color(b);
    } else if b[0] == OP_FILL_RECT {
        lemma_encode_decoded_fill_rect(b);
    } else if b[0] == OP_DRAW_LINE {
        lemma_encode_decoded_draw_line(b);
    } else if b[0] == OP_DRAW_TEXT {
        lemma_encode_decoded_draw_text(b);
    } else if b[0] == OP_LOAD_SOUND {
        lemma_encode_decoded_load_sound(b);
    } else if b[0] == OP_PLAY_SOUND {
        lemma_encode_decoded_play_sound(b);
    } else if b[0] == OP_STOP_SOUND {
        lemma_encode_decoded_stop_sound(b);
    } else {
        lemma_encode_decoded_set_volume(b);
    }
}

/// Encoding distributes over concatenation: the bytes of two lists written
/// one after the other are the bytes of the joined list.
pub proof fn lemma_encode_commands_concat(a: Seq<CommandView>, b: Seq<CommandView>)
    ensures
        encode_commands(a + b) == encode_commands(a) + encode_commands(b),
    decreases a.len(),
{
    if a.len() == 0 {
        assert(a + b =~= b);
        assert(encode_commands(a) + encode_commands(b) =~= encode_commands(b));
    } else {
        assert((a + b).drop_first() =~= a.drop_first() + b);
        lemma_encode_commands_concat(a.drop_first(), b);
        assert(encode_command(a[0]) + (encode_commands(a.drop_first()) + encode_commands(b))
            =~= (encode_command(a[0]) + encode_commands(a.drop_first())) + encode_commands(b));
    }
}

/// The bytes of a one-record list are the bytes of the record.
pub proof fn lemma_encode_commands_single(c: CommandView)
    ensures
        encode_commands(seq![c]) == encode_command(c),
{
    assert(seq![c].drop_first() =~= Seq::<CommandView>::empty());
    assert(encode_command(c) + encode_commands(Seq::<CommandView>::empty()) =~= encode_command(c));
}

/// Counting `PLAY_SOUND` records distributes over concatenation.
pub proof fn lemma_count_play_sound_concat(a: Seq<CommandView>, b: Seq<CommandView>)
    ensures
        count_play_sound(a + b) == count_play_sound(a) + count_play_sound(b),
    decreases a.len(),
{
    if a.len() == 0 {
        assert(a + b =~= b);
    } else {
        assert((a + b).drop_first() =~= a.drop_first() + b);
        lemma_count_play_sound_concat(a.drop_first(), b);
    }
}

/// Cutting what is cut already changes nothing.
proof fn lemma_clip_is_idempotent(s: Seq<u8>)
    ensures
        clip(clip(s)) == clip(s),
        clip(s).len() <= MAX_STRING_LEN,
        encode_str(clip(s)) == encode_str(s),
{
}

/// A command is written as its clipped form is, and the clipped form fits.
pub proof fn lemma_encode_clipped(c: CommandView)
    ensures
        encode_command(clipped(c)) == encode_command(c),
        command_fits(clipped(c)),
        command_fits(c) ==> clipped(c) == c,
{
    match c {
        CommandView::DrawText { x, y, text } => {
            lemma_clip_is_idempotent(text);
        },
        CommandView::LoadSound { name, url } => {
            lemma_clip_is_idempotent(name);
            lemma_clip_is_idempotent(url);
        },
        CommandView::PlaySound { name, looped, volume } => {
            lemma_clip_is_idempotent(name);
        },
        CommandView::StopSound { name } => {
            lemma_clip_is_idempotent(name);
        },
        CommandView::SetVolume { name, volume } => {
            lemma_clip_is_idempotent(name);
        },
        _ => {},
    }
}

/// A list whose strings all fit goes on the wire as it is.
pub proof fn lemma_clipped_all_of_fitting(cs: Seq<CommandView>)
    requires
        commands_fit(cs),
    ensures
        clipped_all(cs) == cs,
{
    assert forall|i: int| 0 <= i < cs.len() implies clipped_all(cs)[i] == cs[i] by {
        lemma_encode_clipped(cs[i]);
    }
    assert(clipped_all(cs) =~= cs);
}

/// Clipping changes no command's kind: a list holds as many `PLAY_SOUND`
/// records after it as before.
pub proof fn lemma_count_play_sound_clipped(cs: Seq<CommandView>)
    ensures
        count_play_sound(clipped_all(cs)) == count_play_sound(cs),
    decreases cs.len(),
{
    if cs.len() > 0 {
        assert(clipped_all(cs).drop_first() =~= clipped_all(cs.drop_first()));
        lemma_count_play_sound_clipped(cs.drop_first());
        assert(clipped_all(cs)[0] == clipped(cs[0]));
    }
}

/// Reading back what was written gives the list that was written: for every
/// list of commands, decoding the encoding returns the list, each string cut
/// to what its length prefix can tell. A list whose strings all fit comes
/// back unchanged.
pub proof fn lemma_decode_encode_roundtrip(cs: Seq<CommandView>)
    ensures
        decode_commands(encode_commands(cs)) == Some(clipped_all(cs)),
        commands_fit(cs) ==> decode_commands(encode_commands(cs)) == Some(cs),
    decreases cs.len(),
{
    if cs.len() == 0 {
        assert(clipped_all(cs) =~= Seq::<CommandView>::empty());
        assert(cs =~= Seq::<CommandView>::empty());
    } else {
        let first = encode_command(cs[0]);
        let rest = encode_commands(cs.drop_first());
        lemma_encode_clipped(cs[0]);
        lemma_decode_encoded_command(clipped(cs[0]), rest);
        lemma_decode_encode_roundtrip(cs.drop_first());
        assert((first + rest).skip(first.len() as int) =~= rest);
        assert(seq![clipped(cs[0])] + clipped_all(cs.drop_first()) =~= clipped_all(cs));
    }
    if commands_fit(cs) {
        lemma_clipped_all_of_fitting(cs);
    }
}

/// Writing what was read gives the same bytes: whenever a frame decodes to a
/// list, every string of the list fits its length prefix and the encoding of
/// the list is the frame, byte for byte.
pub proof fn lemma_encode_decode_roundtrip(b: Seq<u8>)
    requires
        decode_commands(b) is Some,
    ensures
        encode_commands(decode_commands(b)->0) == b,
        commands_fit(decode_commands(b)->0),
    decreases b.len(),
{
    if b.len() == 0 {
        assert(b =~= Seq::<u8>::empty());
    } else {
        let c = decode_command(b).unwrap().0;
        let n = decode_command(b).unwrap().1;
        lemma_encode_decoded_command(b);
        lemma_encode_decode_roundtrip(b.skip(n));
        let rest = decode_commands(b.skip(n))->0;
        let cs = seq![c] + rest;
        assert(cs.drop_first() =~= rest);
        assert(b.subrange(0, n) + b.skip(n) =~= b);
        assert forall|i: int| 0 <= i < cs.len() implies command_fits(#[trigger] cs[i]) by {
            if i > 0 {
                assert(cs[i] == rest[i - 1]);
            }
        }
    }
}

/// A frame has at most one reading: two lists with the same encoding are the
/// same list once their strings are cut to what goes on the wire, and the
/// same list outright where all their strings fit.
pub proof fn lemma_encoding_is_injective(a: Seq<CommandView>, b: Seq<CommandView>)
    requires
        encode_commands(a) == encode_commands(b),
    ensures
        clipped_all(a) == clipped_all(b),
        commands_fit(a) && commands_fit(b) ==> a == b,
{
    lemma_decode_encode_roundtrip(a);
    lemma_decode_encode_roundtrip(b);
    if commands_fit(a) && commands_fit(b) {
        lemma_clipped_all_of_fitting(a);
        lemma_clipped_all_of_fitting(b);
    }
}

/// A record written behind a frame that reads back keeps the frame reading
/// back: the frame's list comes back with the new command at its end, its
/// strings cut to what their length prefixes can tell.
pub proof fn lemma_append_reads_back(b: Seq<u8>, c: CommandView)
    requires
        decode_commands(b) is Some,
    ensures
        decode_commands(b + encode_command(c)) == Some(decode_commands(b).unwrap().push(clipped(c))),
{
    let l = decode_commands(b).unwrap();
    lemma_encode_decode_roundtrip(b);
    lemma_encode_commands_concat(l, seq![c]);
    lemma_encode_commands_single(c);
    lemma_decode_encode_roundtrip(l + seq![c]);
    lemma_clipped_all_of_fitting(l);
    assert(clipped_all(l + seq![c]) =~= clipped_all(l).push(clipped(c)));
}

} // verus!
