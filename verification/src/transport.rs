//! Length-prefixed, multiplexed frame transport.
//!
//! Everything between client and daemon travels as [`Frame`]s over a single
//! byte stream: the stdin/stdout pair of an `ssh host rbuildd serve` child
//! process, so no extra ports are ever opened.
//!
//! Each frame carries a `stream` id so independent logical channels (file
//! sync, build I/O) can share the one connection. Control frames carry an
//! encoded [`Message`](crate::proto::Message); data frames carry opaque bytes
//! (already compressed by the caller) to avoid the cost of encoding bulk
//! payloads.
//!
//! Wire layout: `len: u32` (covers everything after it), `kind: u8`,
//! `stream: u32`, `payload`. All integers big-endian.

use vstd::prelude::*;
use vstd::string::StringExecFns;

use crate::text::{decimal, has_text, law_prefix_suffix_and_infix, to_decimal};

verus! {

/// Largest frame body accepted off the wire, a guard against a corrupt length
/// prefix forcing a huge allocation. Bulk file data is chunked well below this.
pub const MAX_FRAME_LEN: u32 = 64 * 1024 * 1024;

/// The shortest frame body: a kind and a stream id.
pub const MIN_FRAME_LEN: u32 = 5;

#[derive(Debug, Clone, Copy, PartialEq, Eq, Structural)]
pub enum FrameKind {
    Control,
    Data,
    Close,
}

/// Why a frame could not be written or read.
#[derive(Debug, Clone, Copy, PartialEq, Eq, Structural)]
pub enum FrameError {
    /// The frame to write exceeds `MAX_FRAME_LEN`.
    TooLarge,
    /// The length prefix read is out of range.
    InvalidLength(u32),
    /// The kind byte read names no kind.
    UnknownKind(u8),
    /// The input ended inside a frame.
    UnexpectedEof,
}

impl FrameError {
    /// What went wrong, in words.
    pub open spec fn text(self) -> Seq<char> {
        match self {
            FrameError::TooLarge => "frame exceeds MAX_FRAME_LEN"@,
            FrameError::InvalidLength(n) => "invalid frame length "@ + decimal(n as nat),
            FrameError::UnknownKind(b) => "unknown frame kind "@ + decimal(b as nat),
            FrameError::UnexpectedEof => "input ended inside a frame"@,
        }
    }

    /// What went wrong, in words.
    pub fn message(&self) -> (text: String)
        ensures
            text@ == self.text(),
    {
        match self {
            FrameError::TooLarge => "frame exceeds MAX_FRAME_LEN".to_owned(),
            FrameError::InvalidLength(n) => "invalid frame length ".to_owned().concat(
                to_decimal(*n as u64).as_str(),
            ),
            FrameError::UnknownKind(b) => "unknown frame kind ".to_owned().concat(
                to_decimal(*b as u64).as_str(),
            ),
            FrameError::UnexpectedEof => "input ended inside a frame".to_owned(),
        }
    }
}

/// The byte that names a kind.
pub open spec fn kind_byte(kind: FrameKind) -> u8 {
    match kind {
        FrameKind::Control => 1,
        FrameKind::Data => 2,
        FrameKind::Close => 3,
    }
}

impl FrameKind {
    pub fn to_byte(self) -> (b: u8)
        ensures
            b == kind_byte(self),
    {
        match self {
            FrameKind::Control => 1,
            FrameKind::Data => 2,
            FrameKind::Close => 3,
        }
    }

    pub fn from_byte(b: u8) -> (kind: Result<FrameKind, FrameError>)
        ensures
            match kind {
                Ok(k) => b == kind_byte(k),
                Err(e) => e == FrameError::UnknownKind(b) && forall|k: FrameKind| #[trigger]
                    kind_byte(k) != b,
            },
    {
        match b {
            1 => Ok(FrameKind::Control),
            2 => Ok(FrameKind::Data),
            3 => Ok(FrameKind::Close),
            other => Err(FrameError::UnknownKind(other)),
        }
    }
}

#[derive(Debug)]
pub struct Frame {
    pub stream: u32,
    pub kind: FrameKind,
    pub payload: Vec<u8>,
}

/// A frame as contracts speak of it.
#[verifier::ext_equal]
pub struct FrameView {
    pub stream: u32,
    pub kind: FrameKind,
    pub payload: Seq<u8>,
}

impl View for Frame {
    type V = FrameView;

    open spec fn view(&self) -> FrameView {
        FrameView { stream: self.stream, kind: self.kind, payload: self.payload@ }
    }
}

impl Clone for Frame {
    fn clone(&self) -> (copy: Self)
        ensures
            copy@ == self@,
    {
        let mut payload: Vec<u8> = Vec::new();
        payload.extend_from_slice(self.payload.as_slice());
        assert(payload@ =~= self.payload@);
        Frame { stream: self.stream, kind: self.kind, payload }
    }
}

impl Frame {
    /// A control frame for a message that has been encoded as `payload`.
    pub fn control(stream: u32, payload: Vec<u8>) -> (frame: Frame)
        ensures
            frame@ == (FrameView { stream, kind: FrameKind::Control, payload: payload@ }),
    {
        Frame { stream, kind: FrameKind::Control, payload }
    }

    pub fn data(stream: u32, payload: Vec<u8>) -> (frame: Frame)
        ensures
            frame@ == (FrameView { stream, kind: FrameKind::Data, payload: payload@ }),
    {
        Frame { stream, kind: FrameKind::Data, payload }
    }

    pub fn close(stream: u32) -> (frame: Frame)
        ensures
            frame@ == (FrameView { stream, kind: FrameKind::Close, payload: Seq::empty() }),
    {
        Frame { stream, kind: FrameKind::Close, payload: Vec::new() }
    }
}

/// A 32-bit number as four bytes, most significant first.
pub open spec fn big_endian(n: int) -> Seq<u8> {
    seq![
        (n / 0x1000000) as u8,
        (n / 0x10000 % 0x100) as u8,
        (n / 0x100 % 0x100) as u8,
        (n % 0x100) as u8,
    ]
}

/// The number that four bytes spell, most significant first.
pub open spec fn number(b: Seq<u8>) -> int {
    b[0] * 0x1000000 + b[1] * 0x10000 + b[2] * 0x100 + b[3]
}

/// Four bytes hold a 32-bit number exactly.
pub proof fn law_big_endian_round_trip(n: u32)
    ensures
        big_endian(n as int).len() == 4,
        number(big_endian(n as int)) == n,
{
}

fn push_u32(out: &mut Vec<u8>, n: u32)
    ensures
        final(out)@ == old(out)@ + big_endian(n as int),
{
    out.push((n / 0x1000000) as u8);
    out.push((n / 0x10000 % 0x100) as u8);
    out.push((n / 0x100 % 0x100) as u8);
    out.push((n % 0x100) as u8);
    assert(out@ =~= old(out)@ + big_endian(n as int));
}

/// Reads a big-endian number off four bytes.
pub fn read_u32(b: &[u8]) -> (n: u32)
    requires
        b@.len() == 4,
    ensures
        n == number(b@),
{
    let hi: u32 = b[0] as u32 * 0x1000000 + b[1] as u32 * 0x10000;
    let lo: u32 = b[2] as u32 * 0x100 + b[3] as u32;
    hi + lo
}

/// The bytes of a frame on the wire.
#[verifier::opaque]
pub open spec fn wire(frame: FrameView) -> Seq<u8> {
    big_endian(5 + frame.payload.len() as int).push(kind_byte(frame.kind)) + big_endian(
        frame.stream as int,
    ) + frame.payload
}

/// Whether a frame is short enough to be sent.
pub open spec fn fits(frame: FrameView) -> bool {
    5 + frame.payload.len() <= MAX_FRAME_LEN
}

/// The bytes to send for one frame.
pub fn write_frame(frame: &Frame) -> (bytes: Result<Vec<u8>, FrameError>)
    ensures
        match bytes {
            Ok(b) => fits(frame@) && b@ == wire(frame@),
            Err(e) => !fits(frame@) && e == FrameError::TooLarge,
        },
{
    if frame.payload.len() as u64 > (MAX_FRAME_LEN - 5) as u64 {
        return Err(FrameError::TooLarge);
    }
    let body_len: u32 = 5 + frame.payload.len() as u32;
    let mut out: Vec<u8> = Vec::new();
    push_u32(&mut out, body_len);
    out.push(frame.kind.to_byte());
    push_u32(&mut out, frame.stream);
    let ghost head = out@;
    out.extend_from_slice(frame.payload.as_slice());
    assert(out@ =~= head + frame.payload@);
    proof {
        reveal(wire);
        assert(out@ =~= wire(frame@));
    }
    Ok(out)
}

/// The kind that a byte names, if it names one.
pub open spec fn kind_of(b: u8) -> Option<FrameKind> {
    if b == 1 {
        Some(FrameKind::Control)
    } else if b == 2 {
        Some(FrameKind::Data)
    } else if b == 3 {
        Some(FrameKind::Close)
    } else {
        None
    }
}

/// The frame at the start of the bytes that remain before the end of input,
/// with the number of bytes it takes up. `None` is the end of input at a frame
/// boundary; an end anywhere inside a frame, its length prefix too, is an error.
#[verifier::opaque]
pub open spec fn unwire(input: Seq<u8>) -> Result<Option<(FrameView, int)>, FrameError> {
    let len = number(input.take(4));
    if input.len() == 0 {
        Ok(None)
    } else if input.len() < 4 {
        Err(FrameError::UnexpectedEof)
    } else if !(MIN_FRAME_LEN <= len <= MAX_FRAME_LEN) {
        Err(FrameError::InvalidLength(len as u32))
    } else if input.len() < 5 {
        Err(FrameError::UnexpectedEof)
    } else if kind_of(input[4]) is None {
        Err(FrameError::UnknownKind(input[4]))
    } else if input.len() < 4 + len {
        Err(FrameError::UnexpectedEof)
    } else {
        let frame = FrameView {
            stream: number(input.subrange(5, 9)) as u32,
            kind: kind_of(input[4])->0,
            payload: input.subrange(9, 4 + len),
        };
        Ok(Some((frame, 4 + len)))
    }
}

/// Checks the length prefix of a frame and returns the length of its body.
pub fn read_length(prefix: &[u8]) -> (len: Result<u32, FrameError>)
    requires
        prefix@.len() == 4,
    ensures
        match len {
            Ok(n) => n == number(prefix@) && MIN_FRAME_LEN <= n <= MAX_FRAME_LEN,
            Err(e) => !(MIN_FRAME_LEN <= number(prefix@) <= MAX_FRAME_LEN) && e
                == FrameError::InvalidLength(number(prefix@) as u32),
        },
{
    let n = read_u32(prefix);
    if n < MIN_FRAME_LEN || n > MAX_FRAME_LEN {
        Err(FrameError::InvalidLength(n))
    } else {
        Ok(n)
    }
}

/// Puts a frame together from its kind and the rest of its body.
pub fn read_body(kind: FrameKind, body: &[u8]) -> (frame: Frame)
    requires
        body@.len() >= 4,
    ensures
        frame@ == (FrameView {
            stream: number(body@.take(4)) as u32,
            kind,
            payload: body@.skip(4),
        }),
{
    assert(body@.subrange(0, 4) =~= body@.take(4));
    let stream = read_u32(&body[0..4]);
    let mut payload: Vec<u8> = Vec::new();
    payload.extend_from_slice(&body[4..body.len()]);
    assert(payload@ =~= body@.skip(4));
    Frame { stream, kind, payload }
}

/// Reads one frame off `input`, the bytes up to the end of input, and says how
/// many bytes it took. Returns `Ok(None)` on a clean end at a frame boundary,
/// which is how a peer signals it closed the connection.
pub fn read_frame(input: &[u8]) -> (frame: Result<Option<(Frame, usize)>, FrameError>)
    ensures
        match unwire(input@) {
            Ok(Some((f, n))) => frame matches Ok(Some(got)) && got.0@ == f && got.1 == n,
            Ok(None) => frame matches Ok(None),
            Err(e) => frame matches Err(got) && got == e,
        },
{
    proof {
        reveal(unwire);
    }
    if input.len() == 0 {
        return Ok(None);
    }
    if input.len() < 4 {
        return Err(FrameError::UnexpectedEof);
    }
    assert(input@.subrange(0, 4) =~= input@.take(4));
    let len = match read_length(&input[0..4]) {
        Ok(n) => n as usize,
        Err(e) => {
            return Err(e);
        },
    };
    if input.len() < 5 {
        return Err(FrameError::UnexpectedEof);
    }
    let kind = match FrameKind::from_byte(input[4]) {
        Ok(k) => k,
        Err(e) => {
            assert(kind_byte(FrameKind::Control) != input@[4]);
            assert(kind_byte(FrameKind::Data) != input@[4]);
            assert(kind_byte(FrameKind::Close) != input@[4]);
            return Err(e);
        },
    };
    if input.len() - 4 < len {
        return Err(FrameError::UnexpectedEof);
    }
    let frame = read_body(kind, &input[5..4 + len]);
    proof {
        let body = input@.subrange(5, 4 + len);
        assert(body.take(4) =~= input@.subrange(5, 9));
        assert(body.skip(4) =~= input@.subrange(9, 4 + len));
    }
    Ok(Some((frame, 4 + len)))
}

/// A frame that was written is read back as it was, whatever follows it, and
/// the reader stops exactly where the next frame begins.
pub proof fn law_frame_round_trip(frame: FrameView, rest: Seq<u8>)
    requires
        fits(frame),
    ensures
        unwire(wire(frame) + rest) == Ok::<Option<(FrameView, int)>, FrameError>(
            Some((frame, wire(frame).len() as int)),
        ),
{
    reveal(wire);
    reveal(unwire);
    let input = wire(frame) + rest;
    let len = 5 + frame.payload.len() as int;
    law_big_endian_round_trip(len as u32);
    law_big_endian_round_trip(frame.stream);
    assert(input.take(4) =~= big_endian(len));
    assert(input[4] == kind_byte(frame.kind));
    assert(input.subrange(5, 9) =~= big_endian(frame.stream as int));
    assert(input.subrange(9, 4 + len) =~= frame.payload);
}

/// The bytes of several frames, one after the other.
pub open spec fn wire_all(frames: Seq<FrameView>) -> Seq<u8>
    decreases frames.len(),
{
    if frames.len() == 0 {
        Seq::empty()
    } else {
        wire(frames[0]) + wire_all(frames.skip(1))
    }
}

/// The frames read off an input up to its end.
pub open spec fn unwire_all(input: Seq<u8>) -> Result<Seq<FrameView>, FrameError>
    decreases input.len(),
{
    match unwire(input) {
        Err(e) => Err(e),
        Ok(None) => Ok(Seq::empty()),
        Ok(Some((frame, n))) => if 0 < n <= input.len() {
            match unwire_all(input.skip(n)) {
                Ok(later) => Ok(seq![frame] + later),
                Err(e) => Err(e),
            }
        } else {
            Ok(Seq::empty())
        },
    }
}

proof fn lemma_unwire_all_step(input: Seq<u8>, frame: FrameView, n: int, rest: Seq<u8>)
    requires
        unwire(input) == Ok::<Option<(FrameView, int)>, FrameError>(Some((frame, n))),
        0 < n <= input.len(),
        input.skip(n) =~= rest,
        unwire_all(rest) is Ok,
    ensures
        unwire_all(input) == Ok::<Seq<FrameView>, FrameError>(seq![frame] + unwire_all(rest)->Ok_0),
{
}

proof fn lemma_wire_len(frame: FrameView)
    ensures
        wire(frame).len() > 0,
{
    reveal(wire);
}

/// Frames sent over one connection arrive complete and in order.
pub proof fn law_frames_arrive_in_order(frames: Seq<FrameView>)
    requires
        forall|i: int| 0 <= i < frames.len() ==> fits(#[trigger] frames[i]),
    ensures
        unwire_all(wire_all(frames)) == Ok::<Seq<FrameView>, FrameError>(frames),
    decreases frames.len(),
{
    if frames.len() > 0 {
        let rest = wire_all(frames.skip(1));
        assert forall|i: int| 0 <= i < frames.skip(1).len() implies fits(
            #[trigger] frames.skip(1)[i],
        ) by {
            assert(fits(frames[i + 1]));
        }
        law_frames_arrive_in_order(frames.skip(1));
        let input = wire_all(frames);
        let n = wire(frames[0]).len() as int;
        assert(unwire(input) == Ok::<Option<(FrameView, int)>, FrameError>(Some((frames[0], n))))
            by {
            law_frame_round_trip(frames[0], rest);
        }
        assert(0 < n) by {
            lemma_wire_len(frames[0]);
        }
        lemma_unwire_all_step(input, frames[0], n, rest);
        assert(seq![frames[0]] + frames.skip(1) =~= frames);
    } else {
        assert(frames =~= Seq::<FrameView>::empty());
        assert(unwire(wire_all(frames)) matches Ok(None)) by {
            reveal(unwire);
        }
    }
}

/// What a frame looks like on the wire, byte by byte: four bytes that spell the
/// length of what follows, one for the kind, four that spell the stream, and the
/// payload. A frame can be sent if what follows the length is at most 64 MiB.
pub proof fn law_wire_layout(frame: FrameView)
    ensures
        fits(frame) <==> 5 + frame.payload.len() <= 67108864,
        fits(frame) ==> {
            let b = wire(frame);
            &&& b.len() == 9 + frame.payload.len()
            &&& 16777216 * b[0] + 65536 * b[1] + 256 * b[2] + b[3] == 5 + frame.payload.len()
            &&& b[4] == match frame.kind {
                FrameKind::Control => 1u8,
                FrameKind::Data => 2u8,
                FrameKind::Close => 3u8,
            }
            &&& 16777216 * b[5] + 65536 * b[6] + 256 * b[7] + b[8] == frame.stream
            &&& b.skip(9) == frame.payload
        },
{
    if fits(frame) {
        reveal(wire);
        let b = wire(frame);
        let len = 5 + frame.payload.len() as int;
        law_big_endian_round_trip(len as u32);
        law_big_endian_round_trip(frame.stream);
        assert(b.take(4) =~= big_endian(len));
        assert(b.subrange(5, 9) =~= big_endian(frame.stream as int));
        assert(b.take(4)[0] == b[0] && b.take(4)[1] == b[1] && b.take(4)[2] == b[2] && b.take(4)[3]
            == b[3]);
        assert(b.subrange(5, 9)[0] == b[5] && b.subrange(5, 9)[1] == b[6] && b.subrange(5, 9)[2]
            == b[7] && b.subrange(5, 9)[3] == b[8]);
        assert(b.skip(9) =~= frame.payload);
    }
}

proof fn lemma_digits_of(p: int, q: int, r: int, s: int)
    requires
        0 <= p < 0x100,
        0 <= q < 0x100,
        0 <= r < 0x100,
        0 <= s < 0x100,
    ensures
        ({
            let n = p * 0x1000000 + q * 0x10000 + r * 0x100 + s;
            &&& 0 <= n <= u32::MAX
            &&& n / 0x1000000 == p
            &&& n / 0x10000 % 0x100 == q
            &&& n / 0x100 % 0x100 == r
            &&& n % 0x100 == s
        }),
{
    let n = p * 0x1000000 + q * 0x10000 + r * 0x100 + s;
    assert(n / 0x100 == p * 0x10000 + q * 0x100 + r);
    assert(n / 0x10000 == p * 0x100 + q);
    assert(n / 0x1000000 == p);
}

proof fn lemma_big_endian_of(b: Seq<u8>)
    requires
        b.len() == 4,
    ensures
        0 <= number(b) <= u32::MAX,
        big_endian(number(b)) == b,
{
    let n = number(b);
    let (p, q, r, s) = (b[0] as int, b[1] as int, b[2] as int, b[3] as int);
    lemma_digits_of(p, q, r, s);
    assert(n == p * 0x1000000 + q * 0x10000 + r * 0x100 + s);
    assert(big_endian(n) =~= b);
}

/// The reader takes a frame just where one was written: what it takes up is, byte
/// for byte, what the writer makes of the frame that it returns.
pub proof fn law_reader_takes_only_written_frames(input: Seq<u8>, frame: FrameView, n: int)
    ensures
        unwire(input) == Ok::<Option<(FrameView, int)>, FrameError>(Some((frame, n))) <==> fits(
            frame,
        ) && n == wire(frame).len() && n <= input.len() && input.take(n) == wire(frame),
{
    if fits(frame) && n == wire(frame).len() && n <= input.len() && input.take(n) == wire(frame) {
        assert(input =~= wire(frame) + input.skip(n));
        law_frame_round_trip(frame, input.skip(n));
    }
    if unwire(input) == Ok::<Option<(FrameView, int)>, FrameError>(Some((frame, n))) {
        reveal(unwire);
        reveal(wire);
        let len = number(input.take(4));
        lemma_big_endian_of(input.take(4));
        lemma_big_endian_of(input.subrange(5, 9));
        assert(5 + frame.payload.len() == len);
        assert(big_endian(frame.stream as int) == input.subrange(5, 9));
        assert(input.take(n) =~= wire(frame));
    }
}

/// What the reader refuses: an end inside a frame, a length outside the limits,
/// and a kind byte that names no kind. Only an input without a byte is a clean
/// end.
pub proof fn law_reader_refuses_everything_else(input: Seq<u8>)
    ensures
        unwire(input) == Ok::<Option<(FrameView, int)>, FrameError>(None) <==> input.len() == 0,
        0 < input.len() < 4 ==> unwire(input) == Err::<Option<(FrameView, int)>, FrameError>(
            FrameError::UnexpectedEof,
        ),
        input.len() >= 4 ==> {
            let len = 16777216 * input[0] + 65536 * input[1] + 256 * input[2] + input[3];
            &&& (len < 5 || len > 67108864) ==> unwire(input) == Err::<
                Option<(FrameView, int)>,
                FrameError,
            >(FrameError::InvalidLength(len as u32))
            &&& 5 <= len <= 67108864 && input.len() == 4 ==> unwire(input) == Err::<
                Option<(FrameView, int)>,
                FrameError,
            >(FrameError::UnexpectedEof)
            &&& 5 <= len <= 67108864 && input.len() > 4 && !(1 <= input[4] <= 3) ==> unwire(input)
                == Err::<Option<(FrameView, int)>, FrameError>(FrameError::UnknownKind(input[4]))
            &&& 5 <= len <= 67108864 && input.len() > 4 && 1 <= input[4] <= 3 ==> if input.len() < 4
                + len {
                unwire(input) == Err::<Option<(FrameView, int)>, FrameError>(
                    FrameError::UnexpectedEof,
                )
            } else {
                unwire(input) matches Ok(Some((_, n))) && n == 4 + len
            }
        },
{
    reveal(unwire);
    if input.len() >= 4 {
        let head = input.take(4);
        assert(head[0] == input[0] && head[1] == input[1] && head[2] == input[2] && head[3]
            == input[3]);
    }
}

/// An error names the number that was read.
pub proof fn law_frame_errors_name_the_number(e: FrameError)
    ensures
        e matches FrameError::InvalidLength(n) ==> has_text(e.text(), decimal(n as nat)),
        e matches FrameError::UnknownKind(b) ==> has_text(e.text(), decimal(b as nat)),
{
    let none = Seq::<char>::empty();
    match e {
        FrameError::InvalidLength(n) => {
            assert(e.text() =~= "invalid frame length "@ + decimal(n as nat) + none);
            law_prefix_suffix_and_infix(e.text(), decimal(n as nat));
        },
        FrameError::UnknownKind(b) => {
            assert(e.text() =~= "unknown frame kind "@ + decimal(b as nat) + none);
            law_prefix_suffix_and_infix(e.text(), decimal(b as nat));
        },
        _ => {},
    }
}

} // verus!
