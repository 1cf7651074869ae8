//! The frame codec: an incremental decoder from a chunked byte stream to
//! protocol frames.
//!
//! A transport hands bytes to [`FrameCodec::feed`] in whatever pieces they
//! arrive; [`FrameCodec::step`] then consumes complete frames from the
//! front of the accumulator. A `PUB` header line switches the codec into
//! payload mode, where it waits for the declared number of bytes plus the
//! closing line terminator and synthesizes the finished publication
//! without touching the payload bytes. Everything else comes out as one
//! decoded line for the command parser.

use vstd::prelude::*;
use vstd::pervasive::unreached;
use vstd::string::StringExecFns;

use crate::nats::errors::ErrMessages;
use crate::nats::parse_utils::{parse_uint, parse_usize, spec_tokens, split_whitespace, upper_seq};

verus! {

/// What `String::from_utf8_lossy` returns for `bytes`: a function of the
/// bytes alone.
pub uninterp spec fn lossy_decode(bytes: Seq<u8>) -> Seq<char>;

/// Relies on `String::from_utf8_lossy`: the result depends on the bytes
/// alone, and valid UTF-8 (so in particular ASCII) decodes to itself.
#[verifier::external_body]
fn bytes_to_string_lossy(v: &Vec<u8>) -> (r: String)
    ensures
        r@ == lossy_decode(v@),
        vstd::utf8::valid_utf8(v@) ==> vstd::utf8::encode_utf8(r@) == v@,
{
    String::from_utf8_lossy(v).into_owned()
}

/// Per-connection decoding state: between frames, or inside a `PUB` frame
/// waiting for `expected_len` payload bytes.
pub enum ReadState {
    Command,
    Payload { subject: String, expected_len: usize },
}

/// One decoded frame, or a framing violation.
pub enum CodecEvent {
    /// A complete command line, terminator included, ready for the parser.
    Line(String),
    /// A finished publication: header and payload fully framed.
    PubMessage { subject: String, payload: String },
    /// A malformed `PUB` header or a missing payload terminator.
    Error(ErrMessages),
}

/// What one call of [`FrameCodec::step`] did.
pub enum StepOutcome {
    /// The accumulator holds no complete frame: read more bytes first.
    NeedMoreData,
    /// The state advanced without completing a frame: step again.
    Advanced,
    /// A frame (or a framing violation) came out: handle it, then step
    /// again.
    Event(CodecEvent),
}

/// The incremental frame decoder: a byte accumulator and the state that
/// says how its front is to be read.
pub struct FrameCodec {
    state: ReadState,
    buffer: Vec<u8>,
}

/// Index of the first line feed in `b`; `b.len()` if absent.
pub open spec fn find_lf(b: Seq<u8>) -> int
    decreases b.len(),
{
    if b.len() == 0 {
        0
    } else if b[0] == 10 {
        0
    } else {
        1 + find_lf(b.drop_first())
    }
}

pub proof fn lemma_find_lf(b: Seq<u8>)
    ensures
        0 <= find_lf(b) <= b.len(),
        forall|j: int| 0 <= j < find_lf(b) ==> b[j] != 10,
        find_lf(b) < b.len() ==> b[find_lf(b)] == 10,
    decreases b.len(),
{
    if b.len() > 0 && b[0] != 10 {
        lemma_find_lf(b.drop_first());
        assert forall|j: int| 0 <= j < find_lf(b) implies b[j] != 10 by {
            if j > 0 {
                assert(b.drop_first()[j - 1] == b[j]);
            }
        }
        if find_lf(b) < b.len() {
            assert(b.drop_first()[find_lf(b) - 1] == b[find_lf(b)]);
        }
    }
}

pub proof fn lemma_find_lf_unique(b: Seq<u8>, i: int)
    requires
        0 <= i <= b.len(),
        forall|j: int| 0 <= j < i ==> b[j] != 10,
        i < b.len() ==> b[i] == 10,
    ensures
        i == find_lf(b),
{
    lemma_find_lf(b);
    let f = find_lf(b);
    if i < f {
        assert(b[i] != 10);
    } else if f < i {
        assert(b[f] != 10);
    }
}

/// Whether a decoded command line announces a payload: its first
/// whitespace token is `PUB`, up to ASCII case.
pub open spec fn is_pub_line(line: Seq<char>) -> bool {
    spec_tokens(line).len() > 0 && upper_seq(spec_tokens(line)[0]) == "PUB"@
}

/// Whether a `PUB` header line is well-formed: a subject and a byte count
/// that reads as a number a buffer can hold.
pub open spec fn pub_header_ok(line: Seq<char>) -> bool {
    &&& spec_tokens(line).len() >= 3
    &&& parse_uint(spec_tokens(line)[2]) is Some
    &&& parse_uint(spec_tokens(line)[2])->Some_0 <= usize::MAX
}

/// The subject a well-formed `PUB` header announces.
pub open spec fn pub_header_subject(line: Seq<char>) -> Seq<char> {
    spec_tokens(line)[1]
}

/// The byte count a well-formed `PUB` header declares.
pub open spec fn pub_header_count(line: Seq<char>) -> nat {
    parse_uint(spec_tokens(line)[2])->Some_0
}

/// What stepping in command state from buffer `b` must do to the codec
/// and produce. With no complete line it suspends; a complete line is
/// consumed, and either opens a payload (`PUB` header), is rejected
/// (malformed `PUB` header), or comes out whole for the parser.
pub open spec fn command_step_result(b: Seq<u8>, post: FrameCodec, r: StepOutcome) -> bool {
    let i = find_lf(b);
    if i >= b.len() {
        &&& r is NeedMoreData
        &&& post.spec_state() is Command
        &&& post.spec_buffer() == b
    } else {
        let line = lossy_decode(b.take(i + 1));
        &&& post.spec_buffer() == b.skip(i + 1)
        &&& if !is_pub_line(line) {
            &&& post.spec_state() is Command
            &&& r matches StepOutcome::Event(CodecEvent::Line(s)) && s@ == line
        } else if pub_header_ok(line) {
            &&& r is Advanced
            &&& post.spec_state() matches ReadState::Payload { subject, expected_len } && (subject@
                == pub_header_subject(line) && expected_len == pub_header_count(line))
        } else {
            &&& post.spec_state() is Command
            &&& r == StepOutcome::Event(CodecEvent::Error(ErrMessages::UnknownProtocalOperation))
        }
    }
}

/// What stepping in payload state must do: suspend until the declared
/// bytes and their terminator are in, then consume exactly them; the
/// payload bytes pass through untouched, and a missing terminator is a
/// protocol error.
pub open spec fn payload_step_result(
    subject: Seq<char>,
    expected_len: usize,
    b: Seq<u8>,
    post: FrameCodec,
    r: StepOutcome,
) -> bool {
    if b.len() < expected_len + 2 {
        &&& r is NeedMoreData
        &&& post.spec_state() matches ReadState::Payload { subject: s, expected_len: e } && (s@
            == subject && e == expected_len)
        &&& post.spec_buffer() == b
    } else {
        &&& post.spec_buffer() == b.skip(expected_len + 2)
        &&& post.spec_state() is Command
        &&& if b[expected_len as int] == 13 && b[expected_len as int + 1] == 10 {
            r matches StepOutcome::Event(CodecEvent::PubMessage { subject: s, payload: p }) && (s@
                == subject && p@ == lossy_decode(b.take(expected_len as int)))
        } else {
            r == StepOutcome::Event(CodecEvent::Error(ErrMessages::UnknownProtocalOperation))
        }
    }
}

/// Copies the first `count` bytes out of `buffer` and leaves the rest.
fn take_front(buffer: &mut Vec<u8>, count: usize) -> (r: Vec<u8>)
    requires
        count <= old(buffer)@.len(),
    ensures
        r@ == old(buffer)@.take(count as int),
        final(buffer)@ == old(buffer)@.skip(count as int),
{
    let mut front: Vec<u8> = Vec::new();
    let mut k: usize = 0;
    while k < count
        invariant
            count <= buffer@.len(),
            k <= count,
            front@ == buffer@.take(k as int),
            buffer@ == old(buffer)@,
        decreases count - k,
    {
        front.push(buffer[k]);
        proof {
            assert(front@ =~= buffer@.take(k as int + 1));
        }
        k = k + 1;
    }
    let len = buffer.len();
    let mut rest: Vec<u8> = Vec::new();
    let mut m: usize = count;
    while m < len
        invariant
            count <= m <= len,
            len == buffer@.len(),
            rest@ == buffer@.subrange(count as int, m as int),
            buffer@ == old(buffer)@,
        decreases len - m,
    {
        rest.push(buffer[m]);
        proof {
            assert(rest@ =~= buffer@.subrange(count as int, m as int + 1));
        }
        m = m + 1;
    }
    proof {
        assert(rest@ =~= old(buffer)@.skip(count as int));
        assert(front@ =~= old(buffer)@.take(count as int));
    }
    *buffer = rest;
    front
}

impl FrameCodec {
    /// The decoding state, as an abstract value.
    pub closed spec fn spec_state(&self) -> ReadState {
        self.state
    }

    /// The bytes accumulated and not yet consumed, oldest first.
    pub closed spec fn spec_buffer(&self) -> Seq<u8> {
        self.buffer@
    }

    /// A fresh codec: between frames, nothing buffered.
    pub fn new() -> (r: Self)
        ensures
            r.spec_state() is Command,
            r.spec_buffer() == Seq::<u8>::empty(),
    {
        FrameCodec { state: ReadState::Command, buffer: Vec::new() }
    }

    /// Appends one raw read to the accumulator. Frames may cross read
    /// boundaries freely: only the accumulated sequence matters, never how
    /// it arrived.
    pub fn feed(&mut self, data: &[u8])
        ensures
            final(self).spec_state() == old(self).spec_state(),
            final(self).spec_buffer() == old(self).spec_buffer() + data@,
    {
        self.buffer.extend_from_slice(data);
    }

    /// Tries to consume one frame from the front of the accumulator.
    pub fn step(&mut self) -> (r: StepOutcome)
        ensures
            old(self).spec_state() is Command ==> command_step_result(
                old(self).spec_buffer(),
                *final(self),
                r,
            ),
            old(self).spec_state() matches ReadState::Payload { subject, expected_len }
                ==> payload_step_result(
                subject@,
                expected_len,
                old(self).spec_buffer(),
                *final(self),
                r,
            ),
    {
        let in_command = match &self.state {
            ReadState::Command => true,
            ReadState::Payload { .. } => false,
        };
        if in_command {
            self.step_command()
        } else {
            self.step_payload()
        }
    }

    fn step_command(&mut self) -> (r: StepOutcome)
        requires
            old(self).spec_state() is Command,
        ensures
            command_step_result(old(self).spec_buffer(), *final(self), r),
    {
        let ghost b = self.buffer@;
        let len = self.buffer.len();
        let mut i: usize = 0;
        loop
            invariant
                len == self.buffer@.len(),
                self == old(self),
                i <= len,
                forall|j: int| 0 <= j < i ==> self.buffer@[j] != 10,
            ensures
                self == old(self),
                i <= len,
                forall|j: int| 0 <= j < i ==> self.buffer@[j] != 10,
                i < len ==> self.buffer@[i as int] == 10,
            decreases len - i,
        {
            if i >= len {
                break ;
            }
            if self.buffer[i] == 10 {
                break ;
            }
            i = i + 1;
        }
        proof {
            lemma_find_lf_unique(b, i as int);
        }
        if i >= len {
            return StepOutcome::NeedMoreData;
        }
        let line_bytes = take_front(&mut self.buffer, i + 1);
        let line = bytes_to_string_lossy(&line_bytes);
        let tokens = split_whitespace(line.as_str());
        let is_pub = if tokens.len() > 0 {
            crate::nats::parse_utils::eq_ignore_case(tokens[0].as_str(), "PUB")
        } else {
            false
        };
        proof {
            reveal_strlit("PUB");
            assert(upper_seq("PUB"@) =~= "PUB"@);
            assert(tokens.deep_view() == spec_tokens(line@));
            if tokens@.len() > 0 {
                assert(tokens@[0]@ == spec_tokens(line@)[0]);
            }
            assert(is_pub == is_pub_line(line@));
        }
        if !is_pub {
            return StepOutcome::Event(CodecEvent::Line(line));
        }
        if tokens.len() < 3 {
            return StepOutcome::Event(CodecEvent::Error(ErrMessages::UnknownProtocalOperation));
        }
        proof {
            assert(tokens@[1]@ == spec_tokens(line@)[1]);
            assert(tokens@[2]@ == spec_tokens(line@)[2]);
        }
        match parse_usize(tokens[2].as_str()) {
            Some(expected_len) => {
                let subject = tokens[1].clone();
                self.state = ReadState::Payload { subject, expected_len };
                StepOutcome::Advanced
            },
            None => StepOutcome::Event(CodecEvent::Error(ErrMessages::UnknownProtocalOperation)),
        }
    }

    fn step_payload(&mut self) -> (r: StepOutcome)
        requires
            old(self).spec_state() is Payload,
        ensures
            old(self).spec_state() matches ReadState::Payload { subject, expected_len }
                ==> payload_step_result(
                subject@,
                expected_len,
                old(self).spec_buffer(),
                *final(self),
                r,
            ),
    {
        let (subject, expected_len): (String, usize) = match &self.state {
            ReadState::Payload { subject, expected_len } => (subject.clone(), *expected_len),
            ReadState::Command => unreached(),
        };
        let blen = self.buffer.len();
        if blen < expected_len || blen - expected_len < 2 {
            return StepOutcome::NeedMoreData;
        }
        let ghost b = self.buffer@;
        let payload_bytes = take_front(&mut self.buffer, expected_len);
        let delim = take_front(&mut self.buffer, 2);
        proof {
            assert(delim@[0] == b[expected_len as int]);
            assert(delim@[1] == b[expected_len as int + 1]);
            assert(self.buffer@ =~= b.skip(expected_len + 2));
        }
        self.state = ReadState::Command;
        if delim[0] == 13 && delim[1] == 10 {
            let payload = bytes_to_string_lossy(&payload_bytes);
            StepOutcome::Event(CodecEvent::PubMessage { subject, payload })
        } else {
            StepOutcome::Event(CodecEvent::Error(ErrMessages::UnknownProtocalOperation))
        }
    }
}

/// The accumulator left by feeding `chunks` in order, starting from
/// `buf`: the spec-level fold of [`FrameCodec::feed`].
pub open spec fn fed_buffer(buf: Seq<u8>, chunks: Seq<Seq<u8>>) -> Seq<u8>
    decreases chunks.len(),
{
    if chunks.len() == 0 {
        buf
    } else {
        fed_buffer(buf + chunks[0], chunks.drop_first())
    }
}

/// The bytes of `chunks`, concatenated.
pub open spec fn concat_chunks(chunks: Seq<Seq<u8>>) -> Seq<u8>
    decreases chunks.len(),
{
    if chunks.len() == 0 {
        Seq::<u8>::empty()
    } else {
        chunks[0] + concat_chunks(chunks.drop_first())
    }
}

/// Law: framing is boundary-independent. However a byte stream is cut
/// into reads, feeding the pieces in order leaves exactly the
/// concatenated bytes in the accumulator; and `step` is, by its contract,
/// a function of the state and the accumulated bytes alone, so the same
/// frames come out.
pub proof fn lemma_feed_boundary_independent(buf: Seq<u8>, chunks: Seq<Seq<u8>>)
    ensures
        fed_buffer(buf, chunks) == buf + concat_chunks(chunks),
    decreases chunks.len(),
{
    if chunks.len() == 0 {
        assert(buf + Seq::<u8>::empty() =~= buf);
    } else {
        lemma_feed_boundary_independent(buf + chunks[0], chunks.drop_first());
        assert((buf + chunks[0]) + concat_chunks(chunks.drop_first()) =~= buf + (chunks[0]
            + concat_chunks(chunks.drop_first())));
    }
}

} // verus!
