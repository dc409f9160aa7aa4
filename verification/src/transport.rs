//! What goes over the wire besides the command stream itself: the two-byte
//! input records that clients send, the compression of outgoing frames, the
//! choice between the datagram channel and the reliable one, and the id of a
//! session.
use vstd::prelude::*;

verus! {

/// The length of an input record: a code and a flag.
pub const INPUT_LEN: usize = 2;

/// The level that frames are compressed at: the compressor's default.
pub const COMPRESSION_LEVEL: i32 = 0;

/// The input that a record carries: a code, and whether it is active. A
/// record of any other length than two bytes carries none.
pub open spec fn input_of(data: Seq<u8>) -> Option<(u8, bool)> {
    if data.len() == INPUT_LEN {
        Some((data[0], data[1] != 0))
    } else {
        None
    }
}

/// Reads one input record; a malformed one is dropped.
pub fn decode_input(data: &[u8]) -> (r: Option<(u8, bool)>)
    ensures
        r == input_of(data@),
{
    if data.len() == INPUT_LEN {
        Some((data[0], data[1] != 0))
    } else {
        None
    }
}

/// The zstd frame that the compressor makes of `data` at `level`.
pub uninterp spec fn zstd_frame(data: Seq<u8>, level: i32) -> Seq<u8>;

/// `zstd::stream::encode_all` on a byte slice: the whole input compressed
/// into one zstd frame, as a streaming encoder at that level would write it.
/// The call reports an error where the compressor cannot be set up or fails;
/// nothing is claimed of when.
#[verifier::external_body]
fn zstd_encode(data: &[u8], level: i32) -> (r: Option<Vec<u8>>)
    ensures
        match r {
            Some(packed) => packed@ == zstd_frame(data@, level),
            None => true,
        },
{
    zstd::stream::encode_all(data, level).ok()
}

/// Compresses one frame for the wire. There is no result where the
/// compressor failed; such a frame is not sent.
pub fn pack_frame(frame: &[u8]) -> (r: Option<Vec<u8>>)
    ensures
        match r {
            Some(packed) => packed@ == zstd_frame(frame@, COMPRESSION_LEVEL),
            None => true,
        },
{
    zstd_encode(frame, COMPRESSION_LEVEL)
}

/// A way to the client.
#[derive(Clone, Copy, Debug, PartialEq, Eq, Structural)]
pub enum Route {
    /// The datagram channel: fast, and free to lose a frame.
    Datagram,
    /// The reliable channel, as a binary message.
    Reliable,
}

/// The way on which a frame is tried first: the datagram channel where it is
/// open, the reliable channel otherwise.
pub fn first_route(datagram_open: bool) -> (r: Route)
    ensures
        r == (if datagram_open {
            Route::Datagram
        } else {
            Route::Reliable
        }),
{
    if datagram_open {
        Route::Datagram
    } else {
        Route::Reliable
    }
}

/// The way on which a frame is tried next: the reliable channel after the
/// datagram channel failed, and none otherwise.
pub fn next_route(tried: Route, sent: bool) -> (r: Option<Route>)
    ensures
        r == (if tried == Route::Datagram && !sent {
            Some(Route::Reliable)
        } else {
            None::<Route>
        }),
{
    match tried {
        Route::Datagram => if sent {
            None
        } else {
            Some(Route::Reliable)
        },
        Route::Reliable => None,
    }
}

/// What is sent for a frame, and on which way first: the packed frame where
/// packing worked, and nothing where it failed.
pub fn outgoing(packed: Option<Vec<u8>>, datagram_open: bool) -> (r: Option<(Route, Vec<u8>)>)
    ensures
        match packed {
            Some(bytes) => r == Some(
                (
                    if datagram_open {
                        Route::Datagram
                    } else {
                        Route::Reliable
                    },
                    bytes,
                ),
            ),
            None => r is None,
        },
{
    match packed {
        Some(bytes) => Some((first_route(datagram_open), bytes)),
        None => None,
    }
}

/// Whether a character is a digit of lower-case hexadecimal.
pub open spec fn is_hex_digit(c: char) -> bool {
    ('0' <= c && c <= '9') || ('a' <= c && c <= 'f')
}

/// Whether a string has the shape of a hyphenated id: 36 characters, hyphens
/// after the 8th, 12th, 16th and 20th digit, lower-case hexadecimal digits
/// everywhere else.
pub open spec fn is_hyphenated_id(s: Seq<char>) -> bool {
    &&& s.len() == 36
    &&& forall|i: int|
        0 <= i < 36 ==> if i == 8 || i == 13 || i == 18 || i == 23 {
            #[trigger] s[i] == '-'
        } else {
            is_hex_digit(s[i])
        }
}

/// `uuid::Uuid::new_v4`, written out by its `Display`: an id drawn at random,
/// in the hyphenated lower-case form. Which id comes is not claimed, only
/// the shape that every one of them has.
#[verifier::external_body]
fn random_id() -> (id: String)
    ensures
        is_hyphenated_id(id@),
{
    uuid::Uuid::new_v4().to_string()
}

/// The id of a session: the one that the client asked for, and a fresh
/// random one in the hyphenated form where it asked for none.
pub fn session_id_for(requested: Option<String>) -> (id: String)
    ensures
        match requested {
            Some(asked) => id == asked,
            None => is_hyphenated_id(id@),
        },
{
    match requested {
        Some(asked) => asked,
        None => random_id(),
    }
}

} // verus!
