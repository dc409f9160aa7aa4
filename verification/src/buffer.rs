//! The append-only sink that command records are written into.
//!
//! The bytes live in a `bytes::BytesMut`. What that type does is taken on
//! trust, one small function per method used; everything a record is made of
//! is then proved against the format in [`crate::wire`].
use crate::wire::{
    clip, encode_command, encode_str, encoded_len, le16, le32, lemma_encode_str_len,
    lemma_encoded_len, Command, MAX_STRING_LEN,
    CommandView, OP_CLEAR, OP_DRAW_LINE, OP_DRAW_TEXT, OP_FILL_RECT, OP_LOAD_SOUND, OP_PLAY_SOUND,
    OP_SET_COLOR, OP_SET_VOLUME, OP_STOP_SOUND,
};
use bytes::{BufMut, Bytes, BytesMut};
use vstd::prelude::*;

verus! {

/// `bytes::BytesMut`, a growable buffer of bytes, taken as it is: nothing of
/// its inside is looked at.
#[verifier::external_type_specification]
#[verifier::external_body]
pub struct ExBytesMut(bytes::BytesMut);

/// `bytes::Bytes`, an immutable buffer of bytes, taken as it is: nothing of
/// its inside is looked at.
#[verifier::external_type_specification]
#[verifier::external_body]
pub struct ExBytes(bytes::Bytes);

/// The bytes that a `BytesMut` holds, first to last.
pub uninterp spec fn buffered(b: BytesMut) -> Seq<u8>;

/// The bytes that a `Bytes` holds, first to last.
pub uninterp spec fn frozen(b: Bytes) -> Seq<u8>;

/// Whether `extra` more bytes can join `used` bytes in one allocation.
pub open spec fn has_room(used: nat, extra: nat) -> bool {
    used + extra <= isize::MAX
}

/// `BytesMut::with_capacity`: a buffer that holds no bytes. The capacity is
/// only a hint to the allocator and must itself be allocatable.
#[verifier::external_body]
fn bytes_with_capacity(capacity: usize) -> (b: BytesMut)
    requires
        capacity <= isize::MAX,
    ensures
        buffered(b) == Seq::<u8>::empty(),
{
    BytesMut::with_capacity(capacity)
}

/// `BytesMut::len`: the number of bytes held.
#[verifier::external_body]
fn bytes_len(b: &BytesMut) -> (n: usize)
    ensures
        n == buffered(*b).len(),
{
    b.len()
}

/// `BytesMut::clear`: afterwards the buffer holds no bytes.
#[verifier::external_body]
fn bytes_clear(b: &mut BytesMut)
    ensures
        buffered(*final(b)) == Seq::<u8>::empty(),
{
    b.clear()
}

/// `BufMut::put_u8` on a `BytesMut`: the byte is appended. The buffer grows
/// as needed, which fails only when the new length cannot be allocated.
#[verifier::external_body]
fn bytes_put_u8(b: &mut BytesMut, n: u8)
    requires
        has_room(buffered(*old(b)).len(), 1),
    ensures
        buffered(*final(b)) == buffered(*old(b)).push(n),
{
    b.put_u8(n)
}

/// `BufMut::put_u16_le` on a `BytesMut`: the two bytes of `n` are appended,
/// low byte first.
#[verifier::external_body]
fn bytes_put_u16_le(b: &mut BytesMut, n: u16)
    requires
        has_room(buffered(*old(b)).len(), 2),
    ensures
        buffered(*final(b)) == buffered(*old(b)) + le16(n),
{
    b.put_u16_le(n)
}

/// `BufMut::put_u32_le` on a `BytesMut`: the four bytes of `n` are appended,
/// low byte first. Writing a single-precision number in little-endian order
/// is this call on its bit pattern.
#[verifier::external_body]
fn bytes_put_u32_le(b: &mut BytesMut, n: u32)
    requires
        has_room(buffered(*old(b)).len(), 4),
    ensures
        buffered(*final(b)) == buffered(*old(b)) + le32(n),
{
    b.put_u32_le(n)
}

/// `BufMut::put_slice` on a `BytesMut`: the bytes of `src` are appended in
/// order.
#[verifier::external_body]
fn bytes_put_slice(b: &mut BytesMut, src: &[u8])
    requires
        has_room(buffered(*old(b)).len(), src@.len()),
    ensures
        buffered(*final(b)) == buffered(*old(b)) + src@,
{
    b.put_slice(src)
}

/// `BytesMut::extend_from_slice`: the bytes of `src` are appended in order.
#[verifier::external_body]
fn bytes_extend_from_slice(b: &mut BytesMut, src: &[u8])
    requires
        has_room(buffered(*old(b)).len(), src@.len()),
    ensures
        buffered(*final(b)) == buffered(*old(b)) + src@,
{
    b.extend_from_slice(src)
}

/// `AsRef<[u8]>` of a `BytesMut`: the bytes held, as a slice.
#[verifier::external_body]
fn bytes_as_slice(b: &BytesMut) -> (s: &[u8])
    ensures
        s@ == buffered(*b),
{
    b.as_ref()
}

/// `Clone` of a `BytesMut`: a buffer of its own with the same bytes.
#[verifier::external_body]
fn bytes_clone(b: &BytesMut) -> (c: BytesMut)
    ensures
        buffered(c) == buffered(*b),
{
    b.clone()
}

/// `BytesMut::freeze`: the same bytes, from now on immutable.
#[verifier::external_body]
fn bytes_freeze(b: BytesMut) -> (f: Bytes)
    ensures
        frozen(f) == buffered(b),
{
    b.freeze()
}

/// An ordered sequence of command records, kept as the bytes that go out.
pub struct CommandBuffer {
    data: BytesMut,
}

impl View for CommandBuffer {
    type V = Seq<u8>;

    closed spec fn view(&self) -> Seq<u8> {
        buffered(self.data)
    }
}

impl CommandBuffer {
    /// An empty buffer.
    pub fn new() -> (r: Self)
        ensures
            r@ == Seq::<u8>::empty(),
    {
        CommandBuffer { data: bytes_with_capacity(1024) }
    }

    /// Drops every record.
    pub fn clear(&mut self)
        ensures
            final(self)@ == Seq::<u8>::empty(),
    {
        bytes_clear(&mut self.data);
    }

    /// The number of bytes held.
    pub fn len(&self) -> (n: usize)
        ensures
            n == self@.len(),
    {
        bytes_len(&self.data)
    }

    /// A frozen copy of the bytes held; the buffer itself is unchanged.
    pub fn get_bytes(&self) -> (r: Bytes)
        ensures
            frozen(r) == self@,
    {
        bytes_freeze(bytes_clone(&self.data))
    }

    /// A copy of the bytes held, as a vector.
    pub fn to_vec(&self) -> (r: Vec<u8>)
        ensures
            r@ == self@,
    {
        vstd::slice::slice_to_vec(bytes_as_slice(&self.data))
    }

    /// Appends the bytes of `other` behind the bytes held.
    pub fn append(&mut self, other: &CommandBuffer)
        requires
            has_room(old(self)@.len(), other@.len()),
        ensures
            final(self)@ == old(self)@ + other@,
    {
        bytes_extend_from_slice(&mut self.data, bytes_as_slice(&other.data));
    }

    /// Appends a string: the number of bytes kept of it, then those bytes.
    /// What lies beyond [`MAX_STRING_LEN`] bytes is left out.
    fn put_str(&mut self, s: &[u8])
        requires
            has_room(old(self)@.len(), 2 + clip(s@).len()),
        ensures
            final(self)@ == old(self)@ + encode_str(s@),
    {
        let n: usize = if s.len() > MAX_STRING_LEN {
            MAX_STRING_LEN
        } else {
            s.len()
        };
        let kept = vstd::slice::slice_subrange(s, 0, n);
        proof {
            lemma_encode_str_len(s@);
            assert(kept@ =~= clip(s@));
        }
        bytes_put_u16_le(&mut self.data, n as u16);
        bytes_put_slice(&mut self.data, kept);
        assert(self@ =~= old(self)@ + encode_str(s@));
    }

    /// Appends a `CLEAR` record.
    pub fn cmd_clear_screen(&mut self, r: u8, g: u8, b: u8)
        requires
            has_room(old(self)@.len(), 4),
        ensures
            final(self)@ == old(self)@ + encode_command(CommandView::Clear { r, g, b }),
    {
        proof {
            lemma_encoded_len(CommandView::Clear { r, g, b });
            reveal(le32);
        }
        bytes_put_u8(&mut self.data, OP_CLEAR);
        bytes_put_u8(&mut self.data, r);
        bytes_put_u8(&mut self.data, g);
        bytes_put_u8(&mut self.data, b);
        assert(self@ =~= old(self)@ + encode_command(CommandView::Clear { r, g, b }));
    }

    /// Appends a `SET_COLOR` record.
    pub fn cmd_set_color(&mut self, r: u8, g: u8, b: u8, a: u8)
        requires
            has_room(old(self)@.len(), 5),
        ensures
            final(self)@ == old(self)@ + encode_command(CommandView::SetColor { r, g, b, a }),
    {
        proof {
            lemma_encoded_len(CommandView::SetColor { r, g, b, a });
            reveal(le32);
        }
        bytes_put_u8(&mut self.data, OP_SET_COLOR);
        bytes_put_u8(&mut self.data, r);
        bytes_put_u8(&mut self.data, g);
        bytes_put_u8(&mut self.data, b);
        bytes_put_u8(&mut self.data, a);
        assert(self@ =~= old(self)@ + encode_command(CommandView::SetColor { r, g, b, a }));
    }

    /// Appends a `FILL_RECT` record.
    pub fn cmd_fill_rect(&mut self, x: u32, y: u32, w: u32, h: u32)
        requires
            has_room(old(self)@.len(), 17),
        ensures
            final(self)@ == old(self)@ + encode_command(CommandView::FillRect { x, y, w, h }),
    {
        proof {
            lemma_encoded_len(CommandView::FillRect { x, y, w, h });
            reveal(le32);
        }
        bytes_put_u8(&mut self.data, OP_FILL_RECT);
        bytes_put_u32_le(&mut self.data, x);
        bytes_put_u32_le(&mut self.data, y);
        bytes_put_u32_le(&mut self.data, w);
        bytes_put_u32_le(&mut self.data, h);
        assert(self@ =~= old(self)@ + encode_command(CommandView::FillRect { x, y, w, h }));
    }

    /// Appends a `DRAW_LINE` record.
    pub fn cmd_draw_line(&mut self, x1: u32, y1: u32, x2: u32, y2: u32, width: u32)
        requires
            has_room(old(self)@.len(), 21),
        ensures
            final(self)@ == old(self)@ + encode_command(
                CommandView::DrawLine { x1, y1, x2, y2, width },
            ),
    {
        proof {
            lemma_encoded_len(CommandView::DrawLine { x1, y1, x2, y2, width });
            reveal(le32);
        }
        bytes_put_u8(&mut self.data, OP_DRAW_LINE);
        bytes_put_u32_le(&mut self.data, x1);
        bytes_put_u32_le(&mut self.data, y1);
        bytes_put_u32_le(&mut self.data, x2);
        bytes_put_u32_le(&mut self.data, y2);
        bytes_put_u32_le(&mut self.data, width);
        assert(self@ =~= old(self)@ + encode_command(
            CommandView::DrawLine { x1, y1, x2, y2, width },
        ));
    }

    /// Appends a `DRAW_TEXT` record.
    pub fn cmd_draw_text(&mut self, text: &[u8], x: u32, y: u32)
        requires
            has_room(
                old(self)@.len(),
                encoded_len(CommandView::DrawText { x, y, text: text@ }),
            ),
        ensures
            final(self)@ == old(self)@ + encode_command(
                CommandView::DrawText { x, y, text: text@ },
            ),
    {
        proof {
            lemma_encoded_len(CommandView::DrawText { x, y, text: text@ });
            reveal(le32);
        }
        bytes_put_u8(&mut self.data, OP_DRAW_TEXT);
        bytes_put_u32_le(&mut self.data, x);
        bytes_put_u32_le(&mut self.data, y);
        self.put_str(text);
        assert(self@ =~= old(self)@ + encode_command(
            CommandView::DrawText { x, y, text: text@ },
        ));
    }

    /// Appends a `LOAD_SOUND` record.
    pub fn cmd_load_sound(&mut self, name: &[u8], url: &[u8])
        requires
            has_room(
                old(self)@.len(),
                encoded_len(CommandView::LoadSound { name: name@, url: url@ }),
            ),
        ensures
            final(self)@ == old(self)@ + encode_command(
                CommandView::LoadSound { name: name@, url: url@ },
            ),
    {
        proof {
            lemma_encoded_len(CommandView::LoadSound { name: name@, url: url@ });
            reveal(le32);
        }
        proof {
            lemma_encode_str_len(name@);
        }
        bytes_put_u8(&mut self.data, OP_LOAD_SOUND);
        self.put_str(name);
        self.put_str(url);
        assert(self@ =~= old(self)@ + encode_command(
            CommandView::LoadSound { name: name@, url: url@ },
        ));
    }

    /// Appends a `PLAY_SOUND` record.
    pub fn cmd_play_sound(&mut self, name: &[u8], loop_sound: bool, volume: u32)
        requires
            has_room(
                old(self)@.len(),
                encoded_len(CommandView::PlaySound { name: name@, looped: loop_sound, volume }),
            ),
        ensures
            final(self)@ == old(self)@ + encode_command(
                CommandView::PlaySound { name: name@, looped: loop_sound, volume },
            ),
    {
        proof {
            lemma_encoded_len(CommandView::PlaySound { name: name@, looped: loop_sound, volume });
            reveal(le32);
        }
        bytes_put_u8(&mut self.data, OP_PLAY_SOUND);
        self.put_str(name);
        bytes_put_u8(
            &mut self.data,
            if loop_sound {
                1
            } else {
                0
            },
        );
        bytes_put_u32_le(&mut self.data, volume);
        assert(self@ =~= old(self)@ + encode_command(
            CommandView::PlaySound { name: name@, looped: loop_sound, volume },
        ));
    }

    /// Appends a `STOP_SOUND` record.
    pub fn cmd_stop_sound(&mut self, name: &[u8])
        requires
            has_room(old(self)@.len(), encoded_len(CommandView::StopSound { name: name@ })),
        ensures
            final(self)@ == old(self)@ + encode_command(CommandView::StopSound { name: name@ }),
    {
        proof {
            lemma_encoded_len(CommandView::StopSound { name: name@ });
            reveal(le32);
        }
        bytes_put_u8(&mut self.data, OP_STOP_SOUND);
        self.put_str(name);
        assert(self@ =~= old(self)@ + encode_command(CommandView::StopSound { name: name@ }));
    }

    /// Appends a `SET_VOLUME` record.
    pub fn cmd_set_volume(&mut self, name: &[u8], volume: u32)
        requires
            has_room(
                old(self)@.len(),
                encoded_len(CommandView::SetVolume { name: name@, volume }),
            ),
        ensures
            final(self)@ == old(self)@ + encode_command(
                CommandView::SetVolume { name: name@, volume },
            ),
    {
        proof {
            lemma_encoded_len(CommandView::SetVolume { name: name@, volume });
            reveal(le32);
        }
        bytes_put_u8(&mut self.data, OP_SET_VOLUME);
        self.put_str(name);
        bytes_put_u32_le(&mut self.data, volume);
        assert(self@ =~= old(self)@ + encode_command(
            CommandView::SetVolume { name: name@, volume },
        ));
    }

    /// Appends one record.
    pub fn push_command(&mut self, c: &Command)
        requires
            has_room(old(self)@.len(), encode_command(c@).len()),
        ensures
            final(self)@ == old(self)@ + encode_command(c@),
    {
        proof {
            lemma_encoded_len(c@);
            reveal(le32);
        }
        match c {
            Command::Clear { r, g, b } => self.cmd_clear_screen(*r, *g, *b),
            Command::SetColor { r, g, b, a } => self.cmd_set_color(*r, *g, *b, *a),
            Command::FillRect { x, y, w, h } => self.cmd_fill_rect(*x, *y, *w, *h),
            Command::DrawLine { x1, y1, x2, y2, width } => self.cmd_draw_line(
                *x1,
                *y1,
                *x2,
                *y2,
                *width,
            ),
            Command::DrawText { x, y, text } => self.cmd_draw_text(text.as_slice(), *x, *y),
            Command::LoadSound { name, url } => self.cmd_load_sound(
                name.as_slice(),
                url.as_slice(),
            ),
            Command::PlaySound { name, looped, volume } => self.cmd_play_sound(
                name.as_slice(),
                *looped,
                *volume,
            ),
            Command::StopSound { name } => self.cmd_stop_sound(name.as_slice()),
            Command::SetVolume { name, volume } => self.cmd_set_volume(name.as_slice(), *volume),
        }
    }
}

} // verus!
