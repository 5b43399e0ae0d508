//! The encrypted framed stream: every message is a 16-bit big-endian
//! length followed by that many bytes of Noise ciphertext.
//!
//! The byte-moving side of the stream (polling the socket) lives with the
//! caller; this module holds the state machines that decide what to read,
//! what to decrypt, what to send and what to hand out, and the handshake
//! steps.

use vstd::prelude::*;
use crate::framing::{be16, be16_value, frame_bytes, FramedStream};

verus! {

#[verifier::external_type_specification]
#[verifier::external_body]
pub struct ExTransportState(snow::TransportState);

#[verifier::external_type_specification]
#[verifier::external_body]
pub struct ExHandshakeState(snow::HandshakeState);

#[verifier::external_type_specification]
#[verifier::external_body]
pub struct ExSnowError(snow::Error);

/// Length of the AEAD tag that every transport message carries.
pub const TAG_LEN: usize = 16;

/// Largest Noise message, and so the largest frame.
pub const MAX_MESSAGE_LEN: usize = 65535;

/// Largest plaintext of one frame.
pub const MAX_PAYLOAD_LEN: usize = MAX_MESSAGE_LEN - TAG_LEN;

/// Relies on snow::TransportState::write_message: encrypts `payload` into
/// the front of `out` and returns the ciphertext length, the payload length
/// plus the 16-byte tag; fails when that exceeds 65535 or `out`.
#[verifier::external_body]
fn encrypt(t: &mut snow::TransportState, payload: &[u8], out: &mut Vec<u8>) -> (r: Result<usize, snow::Error>)
    ensures
        final(out)@.len() == old(out)@.len(),
        match r {
            Ok(n) => n == payload@.len() + TAG_LEN && n <= old(out)@.len(),
            Err(_) => true,
        },
{
    t.write_message(payload, out.as_mut_slice())
}

/// Relies on snow::TransportState::read_message: decrypts `message` into
/// the front of `out` and returns the plaintext length, the message length
/// less the 16-byte tag; fails on a bad tag or a short `out`.
#[verifier::external_body]
fn decrypt(t: &mut snow::TransportState, message: &[u8], out: &mut Vec<u8>) -> (r: Result<usize, snow::Error>)
    ensures
        final(out)@.len() == old(out)@.len(),
        match r {
            Ok(n) => n + TAG_LEN == message@.len() && n <= old(out)@.len(),
            Err(_) => true,
        },
{
    t.read_message(message, out.as_mut_slice())
}

/// Relies on snow::HandshakeState::is_handshake_finished.
#[verifier::external_body]
fn handshake_finished(h: &snow::HandshakeState) -> bool {
    h.is_handshake_finished()
}

/// Relies on snow::HandshakeState::is_my_turn.
#[verifier::external_body]
fn handshake_my_turn(h: &snow::HandshakeState) -> bool {
    h.is_my_turn()
}

/// Relies on snow::HandshakeState::write_message: writes the next handshake
/// message (with an empty payload) into the front of `out` and returns its
/// length.
#[verifier::external_body]
fn handshake_write(h: &mut snow::HandshakeState, out: &mut Vec<u8>) -> (r: Result<usize, snow::Error>)
    requires
        old(out)@.len() == MAX_MESSAGE_LEN,
    ensures
        final(out)@.len() == old(out)@.len(),
        match r {
            Ok(n) => n <= old(out)@.len(),
            Err(_) => true,
        },
{
    h.write_message(&[], out.as_mut_slice())
}

/// Relies on snow::HandshakeState::read_message: processes one handshake
/// message from the other side.
#[verifier::external_body]
fn handshake_read(h: &mut snow::HandshakeState, message: &[u8], out: &mut Vec<u8>) -> (r: Result<usize, snow::Error>)
    requires
        old(out)@.len() == MAX_MESSAGE_LEN,
    ensures
        final(out)@.len() == old(out)@.len(),
{
    h.read_message(message, out.as_mut_slice())
}

/// Relies on snow::HandshakeState::into_transport_mode.
#[verifier::external_body]
fn into_transport(h: snow::HandshakeState) -> (r: Result<snow::TransportState, snow::Error>) {
    h.into_transport_mode()
}

/// `n` zero bytes.
fn zeroes(n: usize) -> (r: Vec<u8>)
    ensures
        r@.len() == n,
{
    let mut r: Vec<u8> = Vec::new();
    let mut i: usize = 0;
    while i < n
        invariant
            i <= n,
            r@.len() == i,
        decreases n - i,
    {
        r.push(0);
        i = i + 1;
    }
    r
}

/// What the handshake needs next.
#[derive(Clone, Copy, Debug, PartialEq, Eq, Structural)]
pub enum HandshakeStep {
    /// Both messages are exchanged: switch to transport mode.
    Done,
    /// Send a frame made by [`handshake_frame`].
    Send,
    /// Read one frame and pass its body to [`handshake_absorb`].
    Receive,
}

/// The next handshake step, from whether the handshake is finished and
/// whether it is this side's turn to send.
pub fn next_handshake_step(finished: bool, my_turn: bool) -> (r: HandshakeStep)
    ensures
        r == if finished {
            HandshakeStep::Done
        } else if my_turn {
            HandshakeStep::Send
        } else {
            HandshakeStep::Receive
        },
{
    if finished {
        HandshakeStep::Done
    } else if my_turn {
        HandshakeStep::Send
    } else {
        HandshakeStep::Receive
    }
}

/// The next step of the handshake `h`.
pub fn handshake_step(h: &snow::HandshakeState) -> (r: HandshakeStep) {
    let finished = handshake_finished(h);
    let my_turn = handshake_my_turn(h);
    next_handshake_step(finished, my_turn)
}

/// The next handshake message, framed like a data frame.
pub fn handshake_frame(h: &mut snow::HandshakeState) -> (r: Result<Vec<u8>, snow::Error>)
    ensures
        match r {
            Ok(f) => f@.len() >= 2 && f@.len() <= 2 + MAX_MESSAGE_LEN && f@ == frame_bytes(f@.skip(2)),
            Err(_) => true,
        },
{
    let mut message = zeroes(MAX_MESSAGE_LEN);
    let len = match handshake_write(h, &mut message) {
        Ok(n) => n,
        Err(e) => return Err(e),
    };
    message.truncate(len);
    let f = FramedStream::<()>::frame(message.as_slice());
    proof {
        crate::framing::lemma_frame_body(message@);
    }
    Ok(f)
}

/// Processes the body of a handshake frame from the other side.
pub fn handshake_absorb(h: &mut snow::HandshakeState, message: &[u8]) -> (r: Result<(), snow::Error>) {
    let mut payload = zeroes(MAX_MESSAGE_LEN);
    match handshake_read(h, message, &mut payload) {
        Ok(_) => Ok(()),
        Err(e) => Err(e),
    }
}

/// Progress of the reading side.
#[derive(Clone, Copy, Debug, PartialEq, Eq, Structural)]
pub enum ReadState {
    ShuttingDown,
    Idle,
    /// Collecting the two length bytes.
    ReadingLen,
    /// Collecting the ciphertext; so many bytes are in.
    ReadingMessage(usize),
    /// Handing out the plaintext; so many bytes are out.
    ServingPayload(usize),
}

/// Progress of the writing side.
#[derive(Clone, Copy, Debug, PartialEq, Eq, Structural)]
pub enum WriteState {
    ShuttingDown,
    Idle,
    /// A frame is being sent: bytes sent so far, payload bytes it carries.
    WritingMessage(usize, usize),
}

/// What the reading side needs before it can hand out bytes.
#[derive(Clone, Copy, Debug, PartialEq, Eq, Structural)]
pub enum ReadDemand {
    /// Read at most this many bytes (at least one) from the socket and
    /// pass them to [`NoiseStream::read_input`].
    Input(usize),
    /// This many plaintext bytes are ready for [`NoiseStream::take_payload`].
    Ready(usize),
    /// The stream is closed: report end of file.
    Closed,
}

/// How a read from the socket ended.
#[derive(Clone, Copy, Debug, PartialEq, Eq, Structural)]
pub enum InputOutcome {
    Progress,
    /// End of file between frames.
    Eof,
    /// End of file inside a frame: a protocol violation.
    Truncated,
}

/// A duplex Noise transport over a byte stream `T`.
pub struct NoiseStream<T> {
    inner: T,
    transport: snow::TransportState,
    read_state: ReadState,
    len_buf: Vec<u8>,
    read_message_buffer: Vec<u8>,
    read_payload_buffer: Vec<u8>,
    write_state: WriteState,
    write_message_buffer: Vec<u8>,
    /// The bytes of the frame being read, as far as they came in.
    frame_in: Ghost<Seq<u8>>,
    /// The last ciphertext handed to decryption.
    opened: Ghost<Seq<u8>>,
    /// The last plaintext handed to encryption.
    sealed: Ghost<Seq<u8>>,
}

impl<T> NoiseStream<T> {
    pub closed spec fn wf(&self) -> bool {
        &&& self.read_message_buffer@.len() <= MAX_MESSAGE_LEN
        &&& self.read_payload_buffer@.len() <= MAX_MESSAGE_LEN
        &&& match self.read_state {
            ReadState::ReadingLen => self.len_buf@.len() < 2 && self.frame_in@ == self.len_buf@,
            ReadState::ReadingMessage(s) => s <= self.read_message_buffer@.len()
                && self.frame_in@ == be16(self.read_message_buffer@.len())
                    + self.read_message_buffer@.take(s as int),
            ReadState::ServingPayload(s) => s < self.read_payload_buffer@.len(),
            _ => true,
        }
        &&& match self.write_state {
            WriteState::WritingMessage(start, payload_len) => start < self.write_message_buffer@.len()
                && payload_len <= MAX_PAYLOAD_LEN,
            _ => true,
        }
    }

    /// The reading side's state.
    pub closed spec fn spec_read_state(&self) -> ReadState {
        self.read_state
    }

    /// The writing side's state.
    pub closed spec fn spec_write_state(&self) -> WriteState {
        self.write_state
    }

    /// The bytes of the incoming frame received so far.
    pub closed spec fn spec_frame_in(&self) -> Seq<u8> {
        self.frame_in@
    }

    /// The last ciphertext handed to decryption.
    pub closed spec fn spec_opened(&self) -> Seq<u8> {
        self.opened@
    }

    /// The last plaintext handed to encryption.
    pub closed spec fn spec_sealed(&self) -> Seq<u8> {
        self.sealed@
    }

    /// The plaintext of the last frame read.
    pub closed spec fn spec_payload(&self) -> Seq<u8> {
        self.read_payload_buffer@
    }

    /// The frame being sent.
    pub closed spec fn spec_frame_out(&self) -> Seq<u8> {
        self.write_message_buffer@
    }

    /// A transport over `inner`, after a finished handshake.
    pub fn from_handshake(inner: T, h: snow::HandshakeState) -> (r: Result<NoiseStream<T>, snow::Error>)
        ensures
            match r {
                Ok(s) => s.wf() && s.spec_read_state() == ReadState::Idle && s.spec_write_state() == WriteState::Idle,
                Err(_) => true,
            },
    {
        let transport = match into_transport(h) {
            Ok(t) => t,
            Err(e) => return Err(e),
        };
        Ok(NoiseStream {
            inner,
            transport,
            read_state: ReadState::Idle,
            len_buf: Vec::new(),
            read_message_buffer: Vec::new(),
            read_payload_buffer: Vec::new(),
            write_state: WriteState::Idle,
            write_message_buffer: Vec::new(),
            frame_in: Ghost(Seq::empty()),
            opened: Ghost(Seq::empty()),
            sealed: Ghost(Seq::empty()),
        })
    }

    /// The underlying stream.
    pub closed spec fn spec_inner(&self) -> T {
        self.inner
    }

    /// The underlying stream.
    pub fn get_inner(&self) -> (r: &T)
        ensures
            *r == self.spec_inner(),
    {
        &self.inner
    }

    /// The underlying stream, to move bytes through.
    pub fn get_inner_mut(&mut self) -> (r: &mut T)
        ensures
            *r == old(self).spec_inner(),
    {
        &mut self.inner
    }

    /// Drives the reading side to its next need. A ciphertext that is
    /// complete is decrypted here; a crypto failure shuts the side down.
    pub fn read_demand(&mut self) -> (r: Result<ReadDemand, snow::Error>)
        requires
            old(self).wf(),
        ensures
            final(self).wf(),
            match old(self).spec_read_state() {
                ReadState::ShuttingDown => r == Ok::<ReadDemand, snow::Error>(ReadDemand::Closed)
                    && final(self).spec_read_state() == ReadState::ShuttingDown,
                ReadState::Idle => r == Ok::<ReadDemand, snow::Error>(ReadDemand::Input(2))
                    && final(self).spec_read_state() == ReadState::ReadingLen
                    && final(self).spec_frame_in() == Seq::<u8>::empty(),
                ReadState::ReadingLen => r == Ok::<ReadDemand, snow::Error>(
                        ReadDemand::Input((2 - old(self).spec_frame_in().len()) as usize))
                    && final(self).spec_read_state() == ReadState::ReadingLen
                    && final(self).spec_frame_in() == old(self).spec_frame_in(),
                ReadState::ServingPayload(s) => r == Ok::<ReadDemand, snow::Error>(
                        ReadDemand::Ready((old(self).spec_payload().len() - s) as usize))
                    && final(self).spec_read_state() == old(self).spec_read_state()
                    && final(self).spec_payload() == old(self).spec_payload(),
                ReadState::ReadingMessage(_) => {
                    let f = old(self).spec_frame_in();
                    &&& f.len() >= 2
                    &&& if f.len() < 2 + be16_value(f[0], f[1]) {
                        r == Ok::<ReadDemand, snow::Error>(ReadDemand::Input((2 + be16_value(f[0], f[1]) - f.len()) as usize))
                        && final(self).spec_read_state() == old(self).spec_read_state()
                        && final(self).spec_frame_in() == f
                    } else {
                        &&& final(self).spec_opened() == f.skip(2)
                        &&& match r {
                            Ok(ReadDemand::Ready(n)) => n >= 1 && n == final(self).spec_payload().len()
                                && final(self).spec_read_state() == ReadState::ServingPayload(0),
                            Ok(ReadDemand::Input(n)) => n == 2 && final(self).spec_payload().len() == 0
                                && final(self).spec_read_state() == ReadState::ReadingLen
                                && final(self).spec_frame_in() == Seq::<u8>::empty(),
                            Ok(ReadDemand::Closed) => false,
                            Err(_) => final(self).spec_read_state() == ReadState::ShuttingDown,
                        }
                    }
                },
            },
    {
        match self.read_state {
            ReadState::ShuttingDown => Ok(ReadDemand::Closed),
            ReadState::Idle => {
                self.len_buf = Vec::new();
                self.read_state = ReadState::ReadingLen;
                proof {
                    self.frame_in@ = Seq::empty();
                    assert(self.frame_in@ =~= self.len_buf@);
                }
                Ok(ReadDemand::Input(2))
            },
            ReadState::ReadingLen => Ok(ReadDemand::Input(2 - self.len_buf.len())),
            ReadState::ServingPayload(s) => Ok(ReadDemand::Ready(self.read_payload_buffer.len() - s)),
            ReadState::ReadingMessage(s) => {
                let len = self.read_message_buffer.len();
                proof {
                    assert(self.frame_in@[0] == be16(len as nat)[0]);
                    assert(self.frame_in@[1] == be16(len as nat)[1]);
                    assert(be16_value((len / 256) as u8, (len % 256) as u8) == len);
                }
                if s < len {
                    return Ok(ReadDemand::Input(len - s));
                }
                let mut payload = zeroes(MAX_MESSAGE_LEN);
                proof {
                    assert(self.read_message_buffer@.take(s as int) =~= self.read_message_buffer@);
                    assert(self.frame_in@.skip(2) =~= self.read_message_buffer@);
                    self.opened@ = self.read_message_buffer@;
                }
                match decrypt(&mut self.transport, self.read_message_buffer.as_slice(), &mut payload) {
                    Ok(n) => {
                        payload.truncate(n);
                        self.read_payload_buffer = payload;
                        if n == 0 {
                            self.len_buf = Vec::new();
                            self.read_state = ReadState::ReadingLen;
                            proof {
                                self.frame_in@ = Seq::empty();
                                assert(self.frame_in@ =~= self.len_buf@);
                            }
                            Ok(ReadDemand::Input(2))
                        } else {
                            self.read_state = ReadState::ServingPayload(0);
                            Ok(ReadDemand::Ready(n))
                        }
                    },
                    Err(e) => {
                        self.read_state = ReadState::ShuttingDown;
                        Err(e)
                    },
                }
            },
        }
    }

    /// Takes in bytes read from the socket after [`Self::read_demand`]
    /// asked for input; no bytes means the socket reached end of file.
    #[verifier::loop_isolation(false)]
    pub fn read_input(&mut self, data: &[u8]) -> (r: InputOutcome)
        requires
            old(self).wf(),
            match old(self).spec_read_state() {
                ReadState::ReadingLen => data@.len() + old(self).spec_frame_in().len() <= 2,
                ReadState::ReadingMessage(s) => old(self).spec_frame_in().len() >= 2
                    && data@.len() + old(self).spec_frame_in().len()
                        <= 2 + be16_value(old(self).spec_frame_in()[0], old(self).spec_frame_in()[1]),
                _ => false,
            },
        ensures
            final(self).wf(),
            data@.len() == 0 ==> final(self).spec_read_state() == ReadState::ShuttingDown
                && (r == InputOutcome::Eof) == (old(self).spec_frame_in().len() == 0)
                && (r == InputOutcome::Truncated) == (old(self).spec_frame_in().len() != 0),
            data@.len() > 0 ==> r == InputOutcome::Progress
                && final(self).spec_frame_in() == old(self).spec_frame_in() + data@,
    {
        if data.len() == 0 {
            let outcome = if matches!(self.read_state, ReadState::ReadingLen) && self.len_buf.len() == 0 {
                InputOutcome::Eof
            } else {
                proof {
                    if let ReadState::ReadingMessage(s) = self.read_state {
                        assert(self.frame_in@.len() >= 2);
                    }
                }
                InputOutcome::Truncated
            };
            self.read_state = ReadState::ShuttingDown;
            return outcome;
        }
        match self.read_state {
            ReadState::ReadingLen => {
                let mut i: usize = 0;
                while i < data.len()
                    invariant
                        i <= data@.len(),
                        data@.len() + old(self).len_buf@.len() <= 2,
                        self.read_state == old(self).read_state,
                        self.read_message_buffer@ == old(self).read_message_buffer@,
                        self.read_payload_buffer@ == old(self).read_payload_buffer@,
                        self.write_state == old(self).write_state,
                        self.write_message_buffer@ == old(self).write_message_buffer@,
                        self.len_buf@ == old(self).len_buf@ + data@.take(i as int),
                    decreases data@.len() - i,
                {
                    self.len_buf.push(data[i]);
                    i = i + 1;
                    proof {
                        assert(self.len_buf@ =~= old(self).len_buf@ + data@.take(i as int));
                    }
                }
                proof {
                    assert(data@.take(i as int) =~= data@);
                    self.frame_in@ = self.len_buf@;
                }
                if self.len_buf.len() == 2 {
                    let hi = self.len_buf[0];
                    let lo = self.len_buf[1];
                    let len = hi as usize * 256 + lo as usize;
                    self.read_message_buffer = zeroes(len);
                    self.read_state = ReadState::ReadingMessage(0);
                    proof {
                        assert((len / 256) as u8 == hi && (len % 256) as u8 == lo) by (nonlinear_arith)
                            requires
                                len == hi as nat * 256 + lo as nat,
                        {}
                        assert(be16(len as nat) =~= self.len_buf@);
                        assert(self.read_message_buffer@.take(0) =~= Seq::<u8>::empty());
                        assert(self.frame_in@ =~= be16(len as nat) + self.read_message_buffer@.take(0));
                    }
                }

                InputOutcome::Progress
            },
            ReadState::ReadingMessage(s) => {
                let ghost len = self.read_message_buffer@.len();
                proof {
                    assert(self.frame_in@[0] == be16(len)[0]);
                    assert(self.frame_in@[1] == be16(len)[1]);
                    assert(be16_value((len / 256) as u8, (len % 256) as u8) == len);
                }
                let ghost f0 = self.frame_in@;
                let ghost b0 = self.read_message_buffer@;
                proof {
                    assert(f0 == be16(len) + b0.take(s as int));
                }
                let mut i: usize = 0;
                while i < data.len()
                    invariant
                        i <= data@.len(),
                        s + data@.len() <= len,
                        len == self.read_message_buffer@.len(),
                        self.read_payload_buffer@ == old(self).read_payload_buffer@,
                        self.write_state == old(self).write_state,
                        self.write_message_buffer@ == old(self).write_message_buffer@,
                        self.read_message_buffer@.take(s as int + i) == old(self).read_message_buffer@.take(s as int) + data@.take(i as int),
                    decreases data@.len() - i,
                {
                    let ghost before = self.read_message_buffer@;
                    self.read_message_buffer.set(s + i, data[i]);
                    i = i + 1;
                    proof {
                        assert(self.read_message_buffer@.take(s as int + i) =~= before.take(s as int + i - 1).push(data@[i - 1]));
                        assert(data@.take(i as int) =~= data@.take(i - 1).push(data@[i - 1]));
                    }
                }
                self.read_state = ReadState::ReadingMessage(s + data.len());
                proof {
                    assert(data@.take(i as int) =~= data@);
                    self.frame_in@ = f0 + data@;
                    assert(self.read_message_buffer@.take((s + data@.len()) as int) == b0.take(s as int) + data@);
                    assert(self.frame_in@ =~= be16(len) + self.read_message_buffer@.take((s + data@.len()) as int));
                }
                InputOutcome::Progress
            },
            _ => InputOutcome::Progress,
        }
    }

    /// Hands out at most `max` plaintext bytes of the current frame.
    #[verifier::loop_isolation(false)]
    pub fn take_payload(&mut self, max: usize) -> (r: Vec<u8>)
        requires
            old(self).wf(),
            old(self).spec_read_state() is ServingPayload,
            max >= 1,
        ensures
            final(self).wf(),
            final(self).spec_payload() == old(self).spec_payload(),
            ({
                let s = old(self).spec_read_state()->ServingPayload_0;
                let available = old(self).spec_payload().len() - s;
                let n = if available < max { available } else { max as int };
                &&& 1 <= n
                &&& r@ == old(self).spec_payload().subrange(s as int, s + n)
                &&& final(self).spec_read_state() == if n == available {
                    ReadState::Idle
                } else {
                    ReadState::ServingPayload((s + n) as usize)
                }
            }),
    {
        let s = match self.read_state {
            ReadState::ServingPayload(s) => s,
            _ => 0,
        };
        let available = self.read_payload_buffer.len() - s;
        let n = if available < max { available } else { max };
        let mut r: Vec<u8> = Vec::new();
        let mut i: usize = 0;
        while i < n
            invariant
                i <= n,
                s + n <= self.read_payload_buffer@.len(),
                r@ == self.read_payload_buffer@.subrange(s as int, s + i),
            decreases n - i,
        {
            r.push(self.read_payload_buffer[s + i]);
            i = i + 1;
            proof {
                assert(r@ =~= self.read_payload_buffer@.subrange(s as int, s + i));
            }
        }
        if n == available {
            self.read_state = ReadState::Idle;
        } else {
            self.read_state = ReadState::ServingPayload(s + n);
        }
        r
    }

    /// Starts sending `buf`: encrypts as much of it as fits in one frame.
    /// Returns how many bytes of `buf` the frame carries; they count as
    /// written once the frame is out (see [`Self::frame_written`]).
    #[verifier::loop_isolation(false)]
    pub fn begin_write(&mut self, buf: &[u8]) -> (r: Result<usize, WriteFailure>)
        requires
            old(self).wf(),
            old(self).spec_write_state() == WriteState::Idle,
        ensures
            final(self).wf(),
            final(self).spec_read_state() == old(self).spec_read_state(),
            match r {
                Ok(n) => n == (if buf@.len() < MAX_PAYLOAD_LEN { buf@.len() } else { MAX_PAYLOAD_LEN as nat })
                    && final(self).spec_sealed() == buf@.take(n as int)
                    && final(self).spec_write_state() == WriteState::WritingMessage(0, n)
                    && final(self).spec_frame_out().len() == 2 + n + TAG_LEN
                    && final(self).spec_frame_out() == frame_bytes(final(self).spec_frame_out().skip(2)),
                Err(_) => final(self).spec_sealed() == buf@.take(
                        (if buf@.len() < MAX_PAYLOAD_LEN { buf@.len() } else { MAX_PAYLOAD_LEN as nat }) as int)
                    && final(self).spec_write_state() == WriteState::ShuttingDown,
            },
    {
        let payload_len = if buf.len() < MAX_PAYLOAD_LEN { buf.len() } else { MAX_PAYLOAD_LEN };
        let mut payload: Vec<u8> = Vec::new();
        let mut i: usize = 0;
        while i < payload_len
            invariant
                i <= payload_len <= buf@.len(),
                payload@ == buf@.take(i as int),
            decreases payload_len - i,
        {
            payload.push(buf[i]);
            i = i + 1;
            proof {
                assert(payload@ =~= buf@.take(i as int));
            }
        }
        proof {
            self.sealed@ = payload@;
        }
        let mut message = zeroes(MAX_MESSAGE_LEN);
        let len = match encrypt(&mut self.transport, payload.as_slice(), &mut message) {
            Ok(n) => n,
            Err(e) => {
                self.write_state = WriteState::ShuttingDown;
                return Err(WriteFailure::Crypto(e));
            },
        };
        message.truncate(len);
        let frame = FramedStream::<()>::frame(message.as_slice());
        proof {
            crate::framing::lemma_frame_body(message@);
        }
        self.write_message_buffer = frame;
        self.write_state = WriteState::WritingMessage(0, payload_len);
        Ok(payload_len)
    }

    /// The frame being sent, and how much of it is out.
    pub fn pending_frame(&self) -> (r: (&Vec<u8>, usize))
        requires
            self.wf(),
            self.spec_write_state() is WritingMessage,
        ensures
            r.0@ == self.spec_frame_out(),
            r.1 < r.0@.len(),
            self.spec_write_state() == WriteState::WritingMessage(r.1, self.spec_write_state()->WritingMessage_1),
    {
        match self.write_state {
            WriteState::WritingMessage(start, _) => (&self.write_message_buffer, start),
            _ => (&self.write_message_buffer, 0),
        }
    }

    /// Records that `n` more bytes of the frame went out. When the whole
    /// frame is out the writing side is idle again and the payload length
    /// is returned, to be reported as written.
    pub fn frame_written(&mut self, n: usize) -> (r: Option<usize>)
        requires
            old(self).wf(),
            old(self).spec_write_state() is WritingMessage,
            old(self).spec_write_state()->WritingMessage_0 + n <= old(self).spec_frame_out().len(),
        ensures
            final(self).wf(),
            final(self).spec_frame_out() == old(self).spec_frame_out(),
            ({
                let start = old(self).spec_write_state()->WritingMessage_0;
                let payload_len = old(self).spec_write_state()->WritingMessage_1;
                if start + n == old(self).spec_frame_out().len() {
                    r == Some(payload_len) && final(self).spec_write_state() == WriteState::Idle
                } else {
                    r is None && final(self).spec_write_state() == WriteState::WritingMessage((start + n) as usize, payload_len)
                }
            }),
    {
        match self.write_state {
            WriteState::WritingMessage(start, payload_len) => {
                proof {
                    assert(start + n <= self.write_message_buffer@.len());
                }
                if n == self.write_message_buffer.len() - start {
                    self.write_state = WriteState::Idle;
                    Some(payload_len)
                } else {
                    self.write_state = WriteState::WritingMessage(start + n, payload_len);
                    None
                }
            },
            _ => None,
        }
    }

    /// Closes the writing side: later writes fail with a broken pipe.
    pub fn shutdown_write(&mut self)
        requires
            old(self).wf(),
        ensures
            final(self).wf(),
            final(self).spec_write_state() == WriteState::ShuttingDown,
            final(self).spec_read_state() == old(self).spec_read_state(),
    {
        self.write_state = WriteState::ShuttingDown;
    }

    pub fn read_state(&self) -> (r: ReadState)
        ensures
            r == self.spec_read_state(),
    {
        self.read_state
    }

    pub fn write_state(&self) -> (r: WriteState)
        ensures
            r == self.spec_write_state(),
    {
        self.write_state
    }
}

/// Why a write could not start.
pub enum WriteFailure {
    Crypto(snow::Error),
}

} // verus!
