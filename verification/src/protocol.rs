//! PPRZ v1 transport framing: frame encoding and byte-stream decoding.
//!
//! A frame on the wire is
//! `| STX (0x99) | length | aircraft ID | message ID | payload | checksum A | checksum B |`,
//! where `length` counts the whole frame, its six non-payload bytes included.
//! Both checksum accumulators start at `STX` and take in the length, the two
//! identifiers and the payload in order, with wrapping 8-bit addition:
//! `a += byte; b += a`.
use vstd::prelude::*;

verus! {

/// The start-of-frame marker.
pub const STX: u8 = 0x99;

/// The number of bytes of a frame that are not payload.
pub const FRAME_OVERHEAD: usize = 6;

/// The longest payload whose frame length still fits in the length byte.
pub const MAX_PAYLOAD: usize = 249;

/// A decoded transport frame, before message-specific decoding.
#[derive(Clone, Debug, PartialEq, Eq)]
pub struct Frame {
    /// The sending or receiving aircraft.
    pub aircraft_id: u8,
    /// The message identifier assigned by the selected protocol dictionary.
    pub message_id: u8,
    /// The message payload exactly as received.
    pub payload: Vec<u8>,
}

/// A frame as plain values.
pub struct FrameView {
    pub aircraft_id: u8,
    pub message_id: u8,
    pub payload: Seq<u8>,
}

impl View for Frame {
    type V = FrameView;

    open spec fn view(&self) -> FrameView {
        FrameView { aircraft_id: self.aircraft_id, message_id: self.message_id, payload: self.payload@ }
    }
}

/// Errors raised while encoding a frame.
#[derive(Clone, Copy, Debug, PartialEq, Eq)]
pub enum EncodeError {
    /// The payload, of the given length, does not fit in one frame.
    PayloadTooLong(usize),
}

/// Errors raised for a malformed frame in a byte stream.
#[derive(Clone, Copy, Debug, PartialEq, Eq)]
pub enum FrameError {
    /// The length byte that followed `STX` was below the six-byte minimum.
    InvalidLength(u8),
    /// A complete frame did not carry the checksums of its contents.
    ChecksumMismatch,
}

/// The two checksum accumulators after taking in `bytes` in order.
pub open spec fn checksums(bytes: Seq<u8>) -> (u8, u8)
    decreases bytes.len(),
{
    if bytes.len() == 0 {
        (STX, STX)
    } else {
        let (a, b) = checksums(bytes.drop_last());
        let a2 = ((a + bytes.last()) % 256) as u8;
        (a2, ((b + a2) % 256) as u8)
    }
}

/// The checksummed part of a frame: the length byte, the two identifiers and the payload.
pub open spec fn frame_body(aircraft_id: u8, message_id: u8, payload: Seq<u8>) -> Seq<u8> {
    seq![(payload.len() + FRAME_OVERHEAD) as u8, aircraft_id, message_id] + payload
}

/// The complete wire encoding of a frame.
pub open spec fn frame_bytes(f: FrameView) -> Seq<u8> {
    let body = frame_body(f.aircraft_id, f.message_id, f.payload);
    let (a, b) = checksums(body);
    seq![STX] + body + seq![a, b]
}

impl Frame {
    /// Constructs a frame from its identifiers and payload.
    pub fn new(aircraft_id: u8, message_id: u8, payload: Vec<u8>) -> (frame: Frame)
        ensures
            frame.aircraft_id == aircraft_id,
            frame.message_id == message_id,
            frame.payload@ == payload@,
    {
        Frame { aircraft_id, message_id, payload }
    }

    /// Encodes the frame for the wire.
    ///
    /// Fails when the payload is longer than `MAX_PAYLOAD` bytes, because
    /// the frame length would not fit in the length byte.
    pub fn encode(&self) -> (r: Result<Vec<u8>, EncodeError>)
        ensures
            match r {
                Ok(bytes) => self.payload.len() <= MAX_PAYLOAD && bytes@ == frame_bytes(self@),
                Err(e) => self.payload.len() > MAX_PAYLOAD && e == EncodeError::PayloadTooLong(self.payload.len()),
            },
    {
        let n = self.payload.len();
        if n > MAX_PAYLOAD {
            return Err(EncodeError::PayloadTooLong(n));
        }
        let length = (n + FRAME_OVERHEAD) as u8;
        let mut out: Vec<u8> = Vec::new();
        out.push(STX);
        out.push(length);
        out.push(self.aircraft_id);
        out.push(self.message_id);
        let mut i: usize = 0;
        while i < n
            invariant
                n == self.payload@.len(),
                i <= n,
                out@ == seq![STX, length, self.aircraft_id, self.message_id] + self.payload@.subrange(0, i as int),
            decreases n - i,
        {
            out.push(self.payload[i]);
            i = i + 1;
            assert(out@ == seq![STX, length, self.aircraft_id, self.message_id] + self.payload@.subrange(0, i as int));
        }
        let ghost body = frame_body(self.aircraft_id, self.message_id, self.payload@);
        assert(out@ == seq![STX] + body);
        let (a, b) = checksum_pair(&out, 1);
        assert(out@.subrange(1, out@.len() as int) == body);
        out.push(a);
        out.push(b);
        Ok(out)
    }
}

/// Computes the checksums of `bytes[start..]`.
fn checksum_pair(bytes: &Vec<u8>, start: usize) -> (r: (u8, u8))
    requires
        start <= bytes.len(),
    ensures
        r == checksums(bytes@.subrange(start as int, bytes@.len() as int)),
{
    let mut a: u8 = STX;
    let mut b: u8 = STX;
    let mut i: usize = start;
    while i < bytes.len()
        invariant
            start <= i <= bytes.len(),
            (a, b) == checksums(bytes@.subrange(start as int, i as int)),
        decreases bytes.len() - i,
    {
        let ghost prefix = bytes@.subrange(start as int, i as int + 1);
        assert(prefix.drop_last() == bytes@.subrange(start as int, i as int));
        a = ((a as u16 + bytes[i] as u16) % 256) as u8;
        b = ((b as u16 + a as u16) % 256) as u8;
        i = i + 1;
    }
    (a, b)
}

/// Where the decoder stands in the frame it is reading.
#[derive(Clone, Copy, Debug, PartialEq, Eq)]
pub enum DecoderPhase {
    /// Waiting for `STX`.
    Idle,
    /// `STX` seen; the next byte is the frame length.
    Length,
    /// Reading the identifiers, payload and checksums of a frame.
    Body,
}

/// The decoder's state as plain values.
#[verifier::ext_equal]
pub struct DecoderView {
    pub phase: DecoderPhase,
    pub length: u8,
    /// The bytes of the current frame received after its length byte.
    pub received: Seq<u8>,
}

/// What one byte pushed into the decoder yields.
pub enum PushOutcome {
    /// A complete, well-formed frame.
    Frame(FrameView),
    /// Nothing yet.
    Nothing,
    /// The end of a malformed frame.
    Rejected(FrameError),
}

/// The decoder in its initial state.
pub open spec fn idle_decoder() -> DecoderView {
    DecoderView { phase: DecoderPhase::Idle, length: 0, received: Seq::empty() }
}

/// What a complete frame body yields: `length`, then `received`, which holds
/// the identifiers, the payload and the two checksums.
pub open spec fn complete_frame(length: u8, received: Seq<u8>) -> PushOutcome {
    let n = received.len();
    let (a, b) = checksums(seq![length] + received.subrange(0, n - 2));
    if a == received[n - 2] && b == received[n - 1] {
        PushOutcome::Frame(FrameView {
            aircraft_id: received[0],
            message_id: received[1],
            payload: received.subrange(2, n - 2),
        })
    } else {
        PushOutcome::Rejected(FrameError::ChecksumMismatch)
    }
}

/// One step of the stream decoder: the state after `byte` and what it yields.
pub open spec fn decoder_step(d: DecoderView, byte: u8) -> (DecoderView, PushOutcome) {
    match d.phase {
        DecoderPhase::Idle => {
            if byte == STX {
                (DecoderView { phase: DecoderPhase::Length, ..d }, PushOutcome::Nothing)
            } else {
                (d, PushOutcome::Nothing)
            }
        },
        DecoderPhase::Length => {
            if byte < FRAME_OVERHEAD {
                (idle_decoder(), PushOutcome::Rejected(FrameError::InvalidLength(byte)))
            } else {
                (DecoderView { phase: DecoderPhase::Body, length: byte, received: Seq::empty() }, PushOutcome::Nothing)
            }
        },
        DecoderPhase::Body => {
            let received = d.received.push(byte);
            if received.len() + 2 < d.length {
                (DecoderView { received, ..d }, PushOutcome::Nothing)
            } else {
                (idle_decoder(), complete_frame(d.length, received))
            }
        },
    }
}

/// A PPRZ v1 stream decoder that recovers from malformed frames by waiting
/// for the next `STX`.
pub struct Decoder {
    phase: DecoderPhase,
    length: u8,
    received: Vec<u8>,
}

impl View for Decoder {
    type V = DecoderView;

    closed spec fn view(&self) -> DecoderView {
        DecoderView { phase: self.phase, length: self.length, received: self.received@ }
    }
}

/// The states the decoder can be in.
pub open spec fn decoder_wf(d: DecoderView) -> bool {
    &&& d.phase == DecoderPhase::Body ==> FRAME_OVERHEAD <= d.length && d.received.len() + 2 < d.length
    &&& d.phase != DecoderPhase::Body ==> d.received.len() == 0 && d.length == 0
}

impl Decoder {
    /// The decoder always stands in one of its well-formed states.
    #[verifier::type_invariant]
    spec fn wf(&self) -> bool {
        decoder_wf(self@)
    }

    /// A decoder waiting for the start of a frame.
    pub fn new() -> (d: Decoder)
        ensures
            d@ == idle_decoder(),
    {
        Decoder { phase: DecoderPhase::Idle, length: 0, received: Vec::new() }
    }

    /// Takes in one byte of the stream. Returns the frame it completes, if
    /// any, or the error of the malformed frame it ends.
    pub fn push(&mut self, byte: u8) -> (r: Result<Option<Frame>, FrameError>)
        ensures
            final(self)@ == decoder_step(old(self)@, byte).0,
            match decoder_step(old(self)@, byte).1 {
                PushOutcome::Frame(f) => r matches Ok(Some(g)) && g@ == f,
                PushOutcome::Nothing => r matches Ok(None),
                PushOutcome::Rejected(e) => r == Err::<Option<Frame>, FrameError>(e),
            },
    {
        proof {
            use_type_invariant(&*self);
        }
        match self.phase {
            DecoderPhase::Idle => {
                if byte == STX {
                    self.phase = DecoderPhase::Length;
                }
                Ok(None)
            },
            DecoderPhase::Length => {
                if (byte as usize) < FRAME_OVERHEAD {
                    self.phase = DecoderPhase::Idle;
                    Err(FrameError::InvalidLength(byte))
                } else {
                    *self = Decoder { phase: DecoderPhase::Body, length: byte, received: Vec::new() };
                    Ok(None)
                }
            },
            DecoderPhase::Body => {
                let mut received: Vec<u8> = Vec::new();
                std::mem::swap(&mut received, &mut self.received);
                if received.len() + 3 < self.length as usize {
                    received.push(byte);
                    std::mem::swap(&mut received, &mut self.received);
                    Ok(None)
                } else {
                    let r = finish_frame(self.length, &received, byte);
                    *self = Decoder { phase: DecoderPhase::Idle, length: 0, received: Vec::new() };
                    r
                }
            },
        }
    }
}

/// Checks and unpacks a complete frame: `received` holds every byte after the
/// length byte but the last, which is `last`.
fn finish_frame(length: u8, received: &Vec<u8>, last: u8) -> (r: Result<Option<Frame>, FrameError>)
    requires
        FRAME_OVERHEAD <= length,
        received.len() + 3 == length,
    ensures
        match complete_frame(length, received@.push(last)) {
            PushOutcome::Frame(f) => r matches Ok(Some(g)) && g@ == f,
            PushOutcome::Nothing => false,
            PushOutcome::Rejected(e) => r == Err::<Option<Frame>, FrameError>(e),
        },
{
    let ghost all = received@.push(last);
    let n = received.len();
    let mut body: Vec<u8> = Vec::new();
    body.push(length);
    let mut i: usize = 0;
    while i + 1 < n
        invariant
            n == received@.len(),
            n >= 3,
            i + 1 <= n,
            body@ == seq![length] + received@.subrange(0, i as int),
        decreases n - i,
    {
        body.push(received[i]);
        i = i + 1;
        assert(body@ == seq![length] + received@.subrange(0, i as int));
    }
    assert(all.subrange(0, all.len() - 2) == received@.subrange(0, n - 1));
    let (a, b) = checksum_pair(&body, 0);
    assert(body@.subrange(0, body@.len() as int) == body@);
    if a == received[n - 1] && b == last {
        let mut payload: Vec<u8> = Vec::new();
        let mut j: usize = 2;
        while j + 1 < n
            invariant
                n == received@.len(),
                n >= 3,
                2 <= j,
                j + 1 <= n,
                payload@ == received@.subrange(2, j as int),
            decreases n - j,
        {
            payload.push(received[j]);
            j = j + 1;
            assert(payload@ == received@.subrange(2, j as int));
        }
        assert(all.subrange(2, all.len() - 2) == received@.subrange(2, n - 1));
        Ok(Some(Frame { aircraft_id: received[0], message_id: received[1], payload }))
    } else {
        Err(FrameError::ChecksumMismatch)
    }
}

} // verus!

verus! {

/// Runs the decoder over `bytes` from state `d`: the final state and what
/// each byte yielded, in order.
pub open spec fn run_decoder(d: DecoderView, bytes: Seq<u8>) -> (DecoderView, Seq<PushOutcome>)
    decreases bytes.len(),
{
    if bytes.len() == 0 {
        (d, Seq::empty())
    } else {
        let (d1, outs) = run_decoder(d, bytes.drop_last());
        let (d2, out) = decoder_step(d1, bytes.last());
        (d2, outs.push(out))
    }
}

/// The frames among the outcomes, in order.
pub open spec fn accepted_frames(outs: Seq<PushOutcome>) -> Seq<FrameView>
    decreases outs.len(),
{
    if outs.len() == 0 {
        Seq::empty()
    } else {
        let rest = accepted_frames(outs.drop_last());
        match outs.last() {
            PushOutcome::Frame(f) => rest.push(f),
            _ => rest,
        }
    }
}

/// How many outcomes are rejections.
pub open spec fn rejected_count(outs: Seq<PushOutcome>) -> nat
    decreases outs.len(),
{
    if outs.len() == 0 {
        0
    } else {
        let rest = rejected_count(outs.drop_last());
        match outs.last() {
            PushOutcome::Rejected(_) => rest + 1,
            _ => rest,
        }
    }
}

/// The concatenated wire encodings of `frames`.
pub open spec fn encode_all(frames: Seq<FrameView>) -> Seq<u8>
    decreases frames.len(),
{
    if frames.len() == 0 {
        Seq::empty()
    } else {
        encode_all(frames.drop_last()) + frame_bytes(frames.last())
    }
}

/// `n` outcomes that yield nothing.
pub open spec fn nothing_outcomes(n: nat) -> Seq<PushOutcome> {
    Seq::new(n, |i: int| PushOutcome::Nothing)
}

/// Running the decoder over two byte strings in turn is running it over
/// their concatenation.
pub proof fn lemma_run_concat(d: DecoderView, a: Seq<u8>, b: Seq<u8>)
    ensures
        run_decoder(d, a + b) == ({
            let (d1, o1) = run_decoder(d, a);
            let (d2, o2) = run_decoder(d1, b);
            (d2, o1 + o2)
        }),
    decreases b.len(),
{
    if b.len() == 0 {
        assert(a + b == a);
        assert(run_decoder(d, a).1 + Seq::<PushOutcome>::empty() == run_decoder(d, a).1);
    } else {
        assert((a + b).drop_last() == a + b.drop_last());
        assert((a + b).last() == b.last());
        lemma_run_concat(d, a, b.drop_last());
        let (d1, o1) = run_decoder(d, a);
        let (d2, o2) = run_decoder(d1, b.drop_last());
        assert(o1 + o2.push(decoder_step(d2, b.last()).1) == (o1 + o2).push(decoder_step(d2, b.last()).1));
    }
}

/// The accepted frames of concatenated outcomes are concatenated.
pub proof fn lemma_accepted_concat(a: Seq<PushOutcome>, b: Seq<PushOutcome>)
    ensures
        accepted_frames(a + b) == accepted_frames(a) + accepted_frames(b),
        rejected_count(a + b) == rejected_count(a) + rejected_count(b),
    decreases b.len(),
{
    if b.len() == 0 {
        assert(a + b == a);
        assert(accepted_frames(a) + Seq::<FrameView>::empty() == accepted_frames(a));
    } else {
        assert((a + b).drop_last() == a + b.drop_last());
        assert((a + b).last() == b.last());
        lemma_accepted_concat(a, b.drop_last());
        match b.last() {
            PushOutcome::Frame(f) => {
                assert(accepted_frames(a) + accepted_frames(b.drop_last()).push(f)
                    == (accepted_frames(a) + accepted_frames(b.drop_last())).push(f));
            },
            _ => {},
        }
    }
}

proof fn lemma_nothing_outcomes(n: nat)
    ensures
        accepted_frames(nothing_outcomes(n)) == Seq::<FrameView>::empty(),
        rejected_count(nothing_outcomes(n)) == 0,
    decreases n,
{
    if n > 0 {
        assert(nothing_outcomes(n).drop_last() == nothing_outcomes((n - 1) as nat));
        lemma_nothing_outcomes((n - 1) as nat);
    }
}

/// Feeding the first `j` bytes after the length byte keeps the decoder
/// collecting, with nothing yielded.
proof fn lemma_collect(length: u8, tail: Seq<u8>, j: nat)
    requires
        FRAME_OVERHEAD <= length,
        tail.len() + 2 == length,
        j < tail.len(),
    ensures
        run_decoder(DecoderView { phase: DecoderPhase::Body, length, received: Seq::empty() }, tail.take(j as int))
            == (DecoderView { phase: DecoderPhase::Body, length, received: tail.take(j as int) }, nothing_outcomes(j)),
    decreases j,
{
    let start = DecoderView { phase: DecoderPhase::Body, length, received: Seq::empty() };
    if j == 0 {
        assert(tail.take(0) == Seq::<u8>::empty());
        assert(nothing_outcomes(0) == Seq::<PushOutcome>::empty());
    } else {
        lemma_collect(length, tail, (j - 1) as nat);
        assert(tail.take(j as int).drop_last() == tail.take(j - 1));
        assert(tail.take(j - 1).push(tail[j - 1]) == tail.take(j as int));
        assert(nothing_outcomes((j - 1) as nat).push(PushOutcome::Nothing) == nothing_outcomes(j));
    }
}

/// From an idle decoder, the encoding of a frame yields nothing until its
/// last byte, which yields the frame itself, and leaves the decoder idle.
pub proof fn lemma_frame_roundtrip(f: FrameView)
    requires
        f.payload.len() <= MAX_PAYLOAD,
    ensures
        run_decoder(idle_decoder(), frame_bytes(f)) == (idle_decoder(),
            nothing_outcomes((frame_bytes(f).len() - 1) as nat).push(PushOutcome::Frame(f))),
{
    let length = (f.payload.len() + FRAME_OVERHEAD) as u8;
    let body = frame_body(f.aircraft_id, f.message_id, f.payload);
    let (a, b) = checksums(body);
    let tail = seq![f.aircraft_id, f.message_id] + f.payload + seq![a, b];
    let bytes = frame_bytes(f);
    assert(bytes == seq![STX, length] + tail);
    let body_state = DecoderView { phase: DecoderPhase::Body, length, received: Seq::empty() };
    // the two header bytes
    let head = seq![STX, length];
    assert(head.drop_last() == seq![STX]);
    assert(seq![STX].drop_last() == Seq::<u8>::empty());
    assert(seq![STX].last() == STX);
    assert(head.last() == length);
    assert(run_decoder(idle_decoder(), Seq::<u8>::empty()) == (idle_decoder(), Seq::<PushOutcome>::empty()));
    assert(run_decoder(idle_decoder(), seq![STX]) == (DecoderView { phase: DecoderPhase::Length, ..idle_decoder() },
        Seq::<PushOutcome>::empty().push(PushOutcome::Nothing)));
    assert(Seq::<PushOutcome>::empty().push(PushOutcome::Nothing).push(PushOutcome::Nothing) == nothing_outcomes(2));
    assert(run_decoder(idle_decoder(), head) == (body_state, nothing_outcomes(2)));
    // all but the last byte of the tail
    let n = tail.len();
    lemma_collect(length, tail, (n - 1) as nat);
    lemma_run_concat(idle_decoder(), head, tail.take(n - 1));
    assert(nothing_outcomes(2) + nothing_outcomes((n - 1) as nat) == nothing_outcomes(n + 1));
    // the last byte
    assert(tail.take(n - 1).push(tail[n - 1]) == tail);
    assert(tail.subrange(0, n - 2) == seq![f.aircraft_id, f.message_id] + f.payload);
    assert(seq![length] + tail.subrange(0, n - 2) == body);
    assert(tail.subrange(2, n - 2) == f.payload);
    assert(head + tail.take(n - 1) == bytes.drop_last());
    assert(bytes.last() == tail[n - 1]);
}

/// From an idle decoder, the concatenated encodings of frames yield exactly
/// those frames, in order, and reject nothing.
pub proof fn lemma_stream_roundtrip(frames: Seq<FrameView>)
    requires
        forall|i: int| 0 <= i < frames.len() ==> #[trigger] frames[i].payload.len() <= MAX_PAYLOAD,
    ensures
        run_decoder(idle_decoder(), encode_all(frames)).0 == idle_decoder(),
        accepted_frames(run_decoder(idle_decoder(), encode_all(frames)).1) == frames,
        rejected_count(run_decoder(idle_decoder(), encode_all(frames)).1) == 0,
    decreases frames.len(),
{
    if frames.len() == 0 {
        assert(frames == Seq::<FrameView>::empty());
    } else {
        let init = frames.drop_last();
        let f = frames.last();
        assert(frames[frames.len() - 1] == f);
        lemma_stream_roundtrip(init);
        lemma_run_concat(idle_decoder(), encode_all(init), frame_bytes(f));
        lemma_frame_roundtrip(f);
        let o1 = run_decoder(idle_decoder(), encode_all(init)).1;
        let k = (frame_bytes(f).len() - 1) as nat;
        let o2 = nothing_outcomes(k).push(PushOutcome::Frame(f));
        lemma_accepted_concat(o1, o2);
        lemma_nothing_outcomes(k);
        assert(o2.drop_last() == nothing_outcomes(k));
        assert(init.push(f) == frames);
    }
}

} // verus!

verus! {

/// Every frame the decoder yields is exactly what it read: re-encoding the
/// frame gives `STX`, the length byte and every byte received after it, the
/// last one included.
pub proof fn decoded_frame_reencodes(d: DecoderView, byte: u8)
    requires
        decoder_wf(d),
    ensures
        decoder_step(d, byte).1 matches PushOutcome::Frame(f) ==> {
            &&& d.phase == DecoderPhase::Body
            &&& f.payload.len() <= MAX_PAYLOAD
            &&& frame_bytes(f) == seq![STX, d.length] + d.received.push(byte)
        },
{
    if let PushOutcome::Frame(f) = decoder_step(d, byte).1 {
        let received = d.received.push(byte);
        let n = received.len();
        assert(d.phase == DecoderPhase::Body);
        assert(n + 2 == d.length);
        assert(f.payload.len() + FRAME_OVERHEAD == d.length);
        assert((f.payload.len() + FRAME_OVERHEAD) as u8 == d.length);
        let body = frame_body(f.aircraft_id, f.message_id, f.payload);
        assert(body == seq![d.length] + received.subrange(0, n - 2));
        assert(seq![STX] + body + seq![received[n - 2], received[n - 1]] == seq![STX, d.length] + received);
    }
}

/// The decoder recovers from a malformed frame: the byte that ends it leaves
/// the decoder idle, and a well-formed frame sent next is decoded.
pub proof fn recovers_after_rejection(d: DecoderView, byte: u8, f: FrameView)
    requires
        decoder_step(d, byte).1 is Rejected,
        f.payload.len() <= MAX_PAYLOAD,
    ensures
        decoder_step(d, byte).0 == idle_decoder(),
        run_decoder(decoder_step(d, byte).0, frame_bytes(f)).1.last() == PushOutcome::Frame(f),
{
    lemma_frame_roundtrip(f);
}

/// The checksums are wrapping 8-bit sums: both accumulators start at `STX`,
/// checksum A takes in each byte, and checksum B takes in each new value of A.
pub proof fn checksums_are_wrapping_sums(bytes: Seq<u8>, x: u8)
    ensures
        checksums(Seq::empty()) == (STX, STX),
        checksums(bytes.push(x)).0 as int == (checksums(bytes).0 as int + x as int) % 256,
        checksums(bytes.push(x)).1 as int == (checksums(bytes).1 as int + checksums(bytes.push(x)).0 as int) % 256,
{
    assert(bytes.push(x).drop_last() == bytes);
}

} // verus!
