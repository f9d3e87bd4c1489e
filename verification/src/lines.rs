//! A newline-delimited framing codec.
//!
//! `encode` appends a frame's UTF-8 bytes followed by a single newline
//! delimiter to an outgoing buffer. `decode` scans an incoming buffer for the
//! first newline: if one is present it consumes the frame bytes plus the
//! delimiter and returns the frame as text (or a [`DecodeError`] when the
//! consumed bytes are not valid UTF-8); if none is present it consumes
//! nothing, so partial reads can accumulate across calls.

use vstd::prelude::*;
use vstd::utf8::*;
use vstd::string::StrSliceExecFns;

verus! {

broadcast use vstd::utf8::group_utf8_lib, vstd::string::group_string_axioms;

/// The byte that terminates every frame on the wire.
pub open spec fn delimiter() -> u8 {
    10u8
}

/// Whether the buffer holds at least one complete frame.
pub open spec fn has_newline(b: Seq<u8>) -> bool {
    exists|i: int| 0 <= i < b.len() && b[i] == delimiter()
}

/// The position of the first delimiter byte in the buffer.
pub open spec fn newline_pos(b: Seq<u8>) -> int
    recommends
        has_newline(b),
    decreases b.len(),
{
    if b.len() == 0 {
        0
    } else if b[0] == delimiter() {
        0
    } else {
        1 + newline_pos(b.drop_first())
    }
}

/// The bytes a frame of text occupies on the wire: its UTF-8 encoding
/// followed by the delimiter.
pub open spec fn frame_encoding(t: Seq<char>) -> Seq<u8> {
    encode_utf8(t).push(delimiter())
}

/// What one decode step consumes: the bytes of the first frame (without the
/// delimiter) and the remainder of the buffer, or nothing when no complete
/// frame has arrived yet.
pub open spec fn decoded_split(b: Seq<u8>) -> Option<(Seq<u8>, Seq<u8>)> {
    if has_newline(b) {
        let n = newline_pos(b);
        Some((b.take(n), b.skip(n + 1)))
    } else {
        None
    }
}

/// The text of a frame's bytes, or nothing when they are not valid UTF-8.
pub open spec fn frame_text(line: Seq<u8>) -> Option<Seq<char>> {
    if valid_utf8(line) {
        Some(decode_utf8(line))
    } else {
        None
    }
}

/// A frame's bytes were not valid UTF-8. The malformed frame counts as
/// consumed: the buffer is not rolled back.
#[derive(Debug, Clone, Copy, PartialEq, Eq, Structural)]
pub struct DecodeError;

/// The outgoing and incoming byte buffers are `bytes::BytesMut`, the buffer
/// type the surrounding transport hands to the codec.
#[verifier::external_type_specification]
#[verifier::external_body]
pub struct ExBytesMut(bytes::BytesMut);

/// The bytes a `bytes::BytesMut` buffer holds, in order.
pub uninterp spec fn bytes_of(b: bytes::BytesMut) -> Seq<u8>;

/// Relies on `bytes::BytesMut::len`: the number of bytes in the buffer.
#[verifier::external_body]
fn buf_len(b: &bytes::BytesMut) -> (n: usize)
    ensures
        n == bytes_of(*b).len(),
{
    b.len()
}

/// Relies on `bytes::BytesMut`'s `Deref` to `[u8]`: the byte at position `i`.
#[verifier::external_body]
fn buf_byte(b: &bytes::BytesMut, i: usize) -> (x: u8)
    requires
        i < bytes_of(*b).len(),
    ensures
        x == bytes_of(*b)[i as int],
{
    b[i]
}

/// Relies on `bytes::BytesMut::split_to`: the first `at` bytes move to the
/// returned buffer and the rest stay. It panics when `at` exceeds the length.
#[verifier::external_body]
fn buf_split_to(b: &mut bytes::BytesMut, at: usize) -> (front: bytes::BytesMut)
    requires
        at <= bytes_of(*old(b)).len(),
    ensures
        bytes_of(front) == bytes_of(*old(b)).take(at as int),
        bytes_of(*final(b)) == bytes_of(*old(b)).skip(at as int),
{
    b.split_to(at)
}

/// Relies on `bytes::BytesMut::extend_from_slice`: appends the slice's bytes,
/// growing the buffer as needed.
#[verifier::external_body]
fn buf_extend(b: &mut bytes::BytesMut, s: &[u8])
    ensures
        bytes_of(*final(b)) == bytes_of(*old(b)) + s@,
{
    b.extend_from_slice(s)
}

/// Relies on `core::str::from_utf8`: it succeeds exactly on valid UTF-8 input
/// and returns the text whose encoding the input is.
#[verifier::external_body]
fn bytes_text(b: &bytes::BytesMut) -> (r: Option<String>)
    ensures
        match r {
            Some(s) => valid_utf8(bytes_of(*b)) && s@ == decode_utf8(bytes_of(*b)),
            None => !valid_utf8(bytes_of(*b)),
        },
{
    match core::str::from_utf8(&b[..]) {
        Ok(s) => Some(s.to_string()),
        Err(_) => None,
    }
}

/// An empty struct that serves as a hook to hang the codec on.
pub struct LineCodec;

impl LineCodec {
    pub fn new() -> (c: LineCodec) {
        LineCodec {}
    }

    /// Appends the frame's bytes followed by a single newline delimiter to
    /// the buffer. Never fails.
    pub fn encode(&mut self, msg: String, buf: &mut bytes::BytesMut)
        ensures
            bytes_of(*final(buf)) == bytes_of(*old(buf)) + frame_encoding(msg@),
    {
        let mut fb = msg.as_str().as_bytes_vec();
        fb.push(10u8);
        buf_extend(buf, fb.as_slice());
    }

    /// Scans the buffer for the first newline. If one is present, consumes
    /// the frame bytes plus the delimiter and returns the frame as text,
    /// leaving the remainder for the next call; a frame whose bytes are not
    /// valid UTF-8 is still consumed and reported as a [`DecodeError`]. If no
    /// delimiter is present, returns no frame and consumes nothing.
    pub fn decode(&mut self, buf: &mut bytes::BytesMut) -> (r: Result<
        Option<String>,
        DecodeError,
    >)
        ensures
            decoded_split(bytes_of(*old(buf))) is None ==> (r matches Ok(f) && f is None
                && bytes_of(*final(buf)) == bytes_of(*old(buf))),
            decoded_split(bytes_of(*old(buf))) matches Some(p) ==> {
                &&& bytes_of(*final(buf)) == p.1
                &&& match frame_text(p.0) {
                    Some(t) => r matches Ok(f) && f matches Some(s) && s@ == t,
                    None => r matches Err(e) && e == DecodeError,
                }
            },
    {
        let ghost b0 = bytes_of(*buf);
        match find_newline(buf) {
            None => Ok(None),
            Some(n) => {
                proof {
                    lemma_newline_pos_unique(b0, n as int);
                }
                let line = buf_split_to(buf, n);
                let _delim = buf_split_to(buf, 1);
                proof {
                    assert(bytes_of(*buf) =~= b0.skip(n + 1));
                }
                match bytes_text(&line) {
                    Some(s) => Ok(Some(s)),
                    None => Err(DecodeError),
                }
            },
        }
    }
}

/// The position of the first delimiter byte, or nothing when the buffer holds
/// no complete frame.
fn find_newline(buf: &bytes::BytesMut) -> (r: Option<usize>)
    ensures
        match r {
            Some(n) => n < bytes_of(*buf).len() && bytes_of(*buf)[n as int] == delimiter()
                && (forall|j: int| 0 <= j < n ==> bytes_of(*buf)[j] != delimiter()),
            None => !has_newline(bytes_of(*buf)),
        },
{
    let len = buf_len(buf);
    let mut i: usize = 0;
    while i < len
        invariant
            i <= len,
            len == bytes_of(*buf).len(),
            forall|j: int| 0 <= j < i ==> bytes_of(*buf)[j] != delimiter(),
        decreases len - i,
    {
        if buf_byte(buf, i) == 10u8 {
            return Some(i);
        }
        i = i + 1;
    }
    None
}

/// No single scalar other than the delimiter itself encodes to bytes that
/// contain the delimiter: one-byte encodings are the scalar itself, and every
/// byte of a wider encoding has its high bit set.
proof fn lemma_scalar_no_delimiter(s: u32)
    requires
        is_scalar(s),
        s != 10,
    ensures
        forall|i: int| 0 <= i < encode_scalar(s).len() ==> encode_scalar(s)[i] != delimiter(),
{
    if has_width_1_encoding(s) {
        assert((s & 0x7F) as u8 != 10u8) by (bit_vector)
            requires
                s <= 0x7F && s != 10,
        ;
    } else if has_width_2_encoding(s) {
        assert(0xC0u8 | ((s >> 6) & 0x1F) as u8 != 10u8) by (bit_vector);
        assert(0x80u8 | (s & 0x3F) as u8 != 10u8) by (bit_vector);
    } else if has_width_3_encoding(s) {
        assert(0xE0u8 | ((s >> 12) & 0x0F) as u8 != 10u8) by (bit_vector);
        assert(0x80u8 | ((s >> 6) & 0x3F) as u8 != 10u8) by (bit_vector);
        assert(0x80u8 | (s & 0x3F) as u8 != 10u8) by (bit_vector);
    } else {
        assert(0xF0u8 | ((s >> 18) & 0x7) as u8 != 10u8) by (bit_vector);
        assert(0x80u8 | ((s >> 12) & 0x3F) as u8 != 10u8) by (bit_vector);
        assert(0x80u8 | ((s >> 6) & 0x3F) as u8 != 10u8) by (bit_vector);
        assert(0x80u8 | (s & 0x3F) as u8 != 10u8) by (bit_vector);
    }
}

/// The encoding of text without a newline character holds no delimiter byte.
pub proof fn lemma_encode_no_delimiter(t: Seq<char>)
    requires
        !t.contains('\n'),
    ensures
        forall|i: int| 0 <= i < encode_utf8(t).len() ==> encode_utf8(t)[i] != delimiter(),
    decreases t.len(),
{
    if t.len() == 0 {
    } else {
        let c = t[0];
        assert(c != '\n');
        char_is_scalar(c);
        if c as u32 == 10 {
            char_u32_cast(c, 10);
            char_u32_cast('\n', 10);
            assert(false);
        }
        lemma_scalar_no_delimiter(c as u32);
        assert(!t.drop_first().contains('\n')) by {
            if t.drop_first().contains('\n') {
                let j = choose|j: int| 0 <= j < t.drop_first().len() && t.drop_first()[j] == '\n';
                assert(t[j + 1] == '\n');
            }
        }
        lemma_encode_no_delimiter(t.drop_first());
        let head = encode_scalar(c as u32);
        let tail = encode_utf8(t.drop_first());
        assert forall|i: int| 0 <= i < encode_utf8(t).len() implies encode_utf8(t)[i]
            != delimiter() by {
            if i < head.len() {
                assert(encode_utf8(t)[i] == head[i]);
            } else {
                assert(encode_utf8(t)[i] == tail[i - head.len()]);
            }
        }
    }
}

/// Codec round trip: a frame of text without a newline, once encoded, decodes
/// back to exactly that frame, with nothing left in the buffer.
pub proof fn lemma_codec_round_trip(t: Seq<char>)
    requires
        !t.contains('\n'),
    ensures
        decoded_split(frame_encoding(t)) matches Some(p) && frame_text(p.0) == Some(t) && p.1
            == Seq::<u8>::empty(),
{
    let e = encode_utf8(t);
    let b = frame_encoding(t);
    lemma_encode_no_delimiter(t);
    assert(b[e.len() as int] == delimiter());
    lemma_newline_pos_unique(b, e.len() as int);
    assert(b.take(e.len() as int) =~= e);
    assert(b.skip(e.len() as int + 1) =~= Seq::<u8>::empty());
    assert(valid_utf8(e));
    assert(decode_utf8(e) == t);
}

/// Partial frames: every strict prefix of an encoded frame lacks the
/// delimiter, so decoding it yields no frame yet.
pub proof fn lemma_partial_frame(t: Seq<char>, k: int)
    requires
        !t.contains('\n'),
        0 <= k < frame_encoding(t).len(),
    ensures
        decoded_split(frame_encoding(t).take(k)) is None,
{
    lemma_encode_no_delimiter(t);
    let b = frame_encoding(t);
    assert forall|i: int| 0 <= i < k implies b.take(k)[i] != delimiter() by {
        assert(b.take(k)[i] == b[i]);
        assert(b[i] == encode_utf8(t)[i]);
    }
}

/// An empty frame: a buffer that starts with the delimiter decodes to the
/// empty text and consumes exactly that one byte.
pub proof fn lemma_empty_frame(b: Seq<u8>)
    requires
        b.len() > 0,
        b[0] == delimiter(),
    ensures
        decoded_split(b) matches Some(p) && p.0 == Seq::<u8>::empty() && frame_text(p.0) == Some(
            Seq::<char>::empty(),
        ) && p.1 == b.skip(1),
{
    lemma_newline_pos_unique(b, 0);
    assert(b.take(0) =~= Seq::<u8>::empty());
    assert(valid_utf8(Seq::<u8>::empty()));
    assert(decode_utf8(Seq::<u8>::empty()) =~= Seq::<char>::empty());
}

/// An invalid frame: bytes that are not valid UTF-8, followed by the
/// delimiter, are still consumed as one frame and reported as malformed.
pub proof fn lemma_invalid_frame(line: Seq<u8>, rest: Seq<u8>)
    requires
        !valid_utf8(line),
        !line.contains(delimiter()),
    ensures
        decoded_split(line + seq![delimiter()] + rest) matches Some(p) && p.0 == line && frame_text(
            p.0,
        ) is None && p.1 == rest,
{
    let b = line + seq![delimiter()] + rest;
    assert(b[line.len() as int] == delimiter());
    assert forall|j: int| 0 <= j < line.len() implies b[j] != delimiter() by {
        assert(b[j] == line[j]);
    }
    lemma_newline_pos_unique(b, line.len() as int);
    assert(b.take(line.len() as int) =~= line);
    assert(b.skip(line.len() as int + 1) =~= rest);
}

/// A position at a delimiter byte with no delimiter before it is the first
/// delimiter.
pub proof fn lemma_newline_pos_unique(b: Seq<u8>, n: int)
    requires
        0 <= n < b.len(),
        b[n] == delimiter(),
        forall|j: int| 0 <= j < n ==> b[j] != delimiter(),
    ensures
        has_newline(b),
        newline_pos(b) == n,
    decreases n,
{
    assert(has_newline(b));
    if n == 0 {
    } else {
        assert(b.drop_first()[n - 1] == delimiter());
        assert forall|j: int| 0 <= j < n - 1 implies b.drop_first()[j] != delimiter() by {
            assert(b[j + 1] != delimiter());
        }
        lemma_newline_pos_unique(b.drop_first(), n - 1);
    }
}

} // verus!
