//! The streaming pipeline: a body goes through the codec chunk by chunk.
//!
//! Each direction is a small state machine, `Idle → Streaming → (Complete |
//! Aborted)`. The program around it reads the source and writes the sink; the
//! machine decides what is emitted and when the stream is over. Nothing is
//! held back but the bytes of a frame that has not arrived whole.

use crate::errors::ProxyError;
use crate::frame::{
    aes256gcm_seal, announced_length, frame_plaintext, frame_span, fresh_nonce, has_whole_frame,
    is_frame_of,
    lemma_decode_inverts_encode, lemma_first_frame_ignores_rest, lemma_prefix_needs_more,
    seals_to, wire_frame, EncryptionCodec, MAX_PLAINTEXT,
};
use vstd::prelude::*;
use vstd::slice::slice_subrange;

verus! {

/// Where a stream stands.
#[derive(Clone, Copy, Debug, PartialEq, Eq, Structural)]
pub enum StreamState {
    /// Nothing has been read yet.
    Idle,
    /// Chunks are being read and emitted.
    Streaming,
    /// The source ended and all of it was emitted.
    Complete,
    /// The stream was given up; it ends without a closing mark.
    Aborted,
}

/// What the program around the machine reports to it.
pub enum StreamEvent {
    /// The source gave a chunk.
    Chunk(Vec<u8>),
    /// The source has ended.
    SourceEnd,
    /// The source failed.
    SourceError,
    /// The sink takes no more.
    SinkClosed,
}

/// What a step asks the program to do: write `emitted` to the sink, in this
/// order, and go on or stop as `state` says.
pub struct StepResult {
    /// The buffers to write to the sink.
    pub emitted: Vec<Vec<u8>>,
    /// The state after the step.
    pub state: StreamState,
    /// Why the stream was aborted, where this step aborted it.
    pub error: Option<ProxyError>,
}

/// Buffers as sequences of bytes.
pub open spec fn buffers_view(bufs: Seq<Vec<u8>>) -> Seq<Seq<u8>> {
    bufs.map_values(|b: Vec<u8>| b@)
}

/// Whether a state is one that a stream does not leave.
pub open spec fn is_terminal(state: StreamState) -> bool {
    state == StreamState::Complete || state == StreamState::Aborted
}

/// What draining a buffer of frames gives.
pub struct Drained {
    /// The plaintexts of the whole frames at the front, in order.
    pub plaintexts: Seq<Seq<u8>>,
    /// What is left: a frame that is not whole yet, or the frame that failed
    /// with all behind it.
    pub rest: Seq<u8>,
    /// Whether a frame did not open.
    pub failed: bool,
}

/// Drains a buffer: opens frame after frame from its front until a frame is
/// not whole or does not open.
pub open spec fn drained(key: Seq<u8>, buf: Seq<u8>) -> Drained
    decreases buf.len(),
{
    if !has_whole_frame(buf) {
        Drained { plaintexts: seq![], rest: buf, failed: false }
    } else {
        match frame_plaintext(key, buf) {
            None => Drained { plaintexts: seq![], rest: buf, failed: true },
            Some(p) => {
                if frame_span(buf) >= 16 {
                    let after = drained(key, buf.skip(frame_span(buf)));
                    Drained {
                        plaintexts: seq![p] + after.plaintexts,
                        rest: after.rest,
                        failed: after.failed,
                    }
                } else {
                    Drained { plaintexts: seq![], rest: buf, failed: true }
                }
            },
        }
    }
}

/// The span of a frame is never less than its header.
pub proof fn lemma_frame_span_at_least_header(buf: Seq<u8>)
    requires
        buf.len() >= 16,
    ensures
        frame_span(buf) >= 16,
{
}

/// What is left after draining without failure holds no whole frame.
pub proof fn lemma_drained_rest(key: Seq<u8>, buf: Seq<u8>)
    ensures
        !drained(key, buf).failed ==> !has_whole_frame(drained(key, buf).rest),
        drained(key, buf).rest.len() <= buf.len(),
    decreases buf.len(),
{
    if has_whole_frame(buf) && frame_plaintext(key, buf) is Some {
        lemma_frame_span_at_least_header(buf);
        lemma_drained_rest(key, buf.skip(frame_span(buf)));
    }
}

/// Streaming reassembly: however a stream of bytes is cut into two
/// deliveries, draining the first and then what is left of it together with
/// the second gives what draining the whole gives at once, as long as no
/// frame of the first failed.
pub proof fn lemma_drain_in_two(key: Seq<u8>, first: Seq<u8>, second: Seq<u8>)
    requires
        !drained(key, first).failed,
    ensures
        drained(key, first + second).plaintexts == drained(key, first).plaintexts + drained(
            key,
            drained(key, first).rest + second,
        ).plaintexts,
        drained(key, first + second).rest == drained(key, drained(key, first).rest + second).rest,
        drained(key, first + second).failed == drained(
            key,
            drained(key, first).rest + second,
        ).failed,
    decreases first.len(),
{
    let whole = first + second;
    if has_whole_frame(first) {
        lemma_first_frame_ignores_rest(first, second);
        lemma_frame_span_at_least_header(first);
        match frame_plaintext(key, first) {
            Some(p) => {
                let span = frame_span(first);
                assert(whole.skip(span) =~= first.skip(span) + second);
                lemma_drain_in_two(key, first.skip(span), second);
                let a = drained(key, first.skip(span));
                let b = drained(key, a.rest + second);
                assert(seq![p] + (a.plaintexts + b.plaintexts) =~= (seq![p] + a.plaintexts)
                    + b.plaintexts);
            },
            None => {},
        }
    } else {
        assert(drained(key, first).plaintexts + drained(key, first + second).plaintexts
            =~= drained(key, first + second).plaintexts);
    }
}

/// A frame alone in a buffer drains to its plaintext, and nothing is left.
pub proof fn lemma_drain_one_frame(key: Seq<u8>, plaintext: Seq<u8>, frame: Seq<u8>)
    requires
        is_frame_of(key, plaintext, frame),
        plaintext.len() <= MAX_PLAINTEXT,
    ensures
        drained(key, frame).plaintexts == seq![plaintext],
        drained(key, frame).rest == Seq::<u8>::empty(),
        !drained(key, frame).failed,
{
    lemma_decode_inverts_encode(key, plaintext, frame);
    let after = frame.skip(frame_span(frame));
    assert(after =~= Seq::<u8>::empty());
    assert(!has_whole_frame(after));
    assert(drained(key, after).plaintexts =~= Seq::<Seq<u8>>::empty());
    assert(drained(key, frame).plaintexts =~= seq![plaintext]);
}

/// Byte by byte: of a frame that arrives in two pieces, the first piece alone
/// gives nothing and is kept whole, and with the second piece the frame
/// gives what it gives when it arrives at once.
pub proof fn lemma_drain_frame_piecewise(
    key: Seq<u8>,
    plaintext: Seq<u8>,
    frame: Seq<u8>,
    cut: int,
)
    requires
        is_frame_of(key, plaintext, frame),
        plaintext.len() <= MAX_PLAINTEXT,
        0 <= cut < frame.len(),
    ensures
        drained(key, frame.subrange(0, cut)).plaintexts == Seq::<Seq<u8>>::empty(),
        drained(key, frame.subrange(0, cut)).rest == frame.subrange(0, cut),
        !drained(key, frame.subrange(0, cut)).failed,
        drained(key, drained(key, frame.subrange(0, cut)).rest + frame.subrange(
            cut,
            frame.len() as int,
        )).plaintexts == seq![plaintext],
{
    lemma_drain_one_frame(key, plaintext, frame);
    let (nonce, ciphertext) = choose|nonce: Seq<u8>, ciphertext: Seq<u8>|
        #[trigger] seals_to(key, nonce, plaintext, ciphertext) && frame
            == wire_frame(nonce, ciphertext);
    lemma_prefix_needs_more(nonce, ciphertext, cut);
    let head = frame.subrange(0, cut);
    let tail = frame.subrange(cut, frame.len() as int);
    assert(head + tail =~= frame);
}

/// What a step of the encrypting direction gives for an event, in a state
/// that is not terminal.
pub open spec fn encrypt_step_spec(key: Seq<u8>, event: StreamEvent, out: StepResult) -> bool {
    match event {
        StreamEvent::Chunk(c) => if c@.len() <= MAX_PLAINTEXT {
            &&& out.state == StreamState::Streaming
            &&& out.error is None
            &&& out.emitted@.len() == 1
            &&& is_frame_of(key, c@, out.emitted@[0]@)
        } else {
            &&& out.state == StreamState::Aborted
            &&& out.error == Some(ProxyError::FormatError)
            &&& out.emitted@.len() == 0
        },
        StreamEvent::SourceEnd => {
            &&& out.state == StreamState::Complete
            &&& out.error is None
            &&& out.emitted@.len() == 0
        },
        StreamEvent::SourceError => {
            &&& out.state == StreamState::Aborted
            &&& out.error == Some(ProxyError::UpstreamError)
            &&& out.emitted@.len() == 0
        },
        StreamEvent::SinkClosed => {
            &&& out.state == StreamState::Aborted
            &&& out.error == Some(ProxyError::StreamAbort)
            &&& out.emitted@.len() == 0
        },
    }
}

/// What a step of the encrypting direction gives for an event when the
/// nonce for the event's chunk is `nonce`, in a state that is not terminal:
/// a chunk becomes the frame of that nonce and of what the cipher makes of
/// the chunk under it.
pub open spec fn encrypt_step_under(
    key: Seq<u8>,
    nonce: Seq<u8>,
    event: StreamEvent,
    out: StepResult,
) -> bool {
    match event {
        StreamEvent::Chunk(c) => if c@.len() <= MAX_PLAINTEXT {
            &&& out.state == StreamState::Streaming
            &&& out.error is None
            &&& out.emitted@.len() == 1
            &&& out.emitted@[0]@ == wire_frame(nonce, aes256gcm_seal(key, nonce, c@))
            &&& seals_to(key, nonce, c@, aes256gcm_seal(key, nonce, c@))
        } else {
            encrypt_step_spec(key, event, out)
        },
        _ => encrypt_step_spec(key, event, out),
    }
}

/// What a step gives under a nonce, it gives under some nonce.
pub proof fn lemma_step_under_a_nonce(
    key: Seq<u8>,
    nonce: Seq<u8>,
    event: StreamEvent,
    out: StepResult,
)
    requires
        encrypt_step_under(key, nonce, event, out),
    ensures
        encrypt_step_spec(key, event, out),
{
    match event {
        StreamEvent::Chunk(c) => {
            if c@.len() <= MAX_PLAINTEXT {
                let ciphertext = aes256gcm_seal(key, nonce, c@);
                assert(seals_to(key, nonce, c@, ciphertext));
                assert(is_frame_of(key, c@, wire_frame(nonce, ciphertext)));
            }
        },
        _ => {},
    }
}

/// What a step of the decrypting direction gives for an event, in a state
/// that is not terminal and with `held` bytes kept from earlier chunks:
/// the result, and the bytes that are kept for the next step.
pub open spec fn decrypt_step_spec(
    key: Seq<u8>,
    held: Seq<u8>,
    event: StreamEvent,
    out: StepResult,
    kept: Seq<u8>,
) -> bool {
    match event {
        StreamEvent::Chunk(c) => {
            let d = drained(key, held + c@);
            &&& buffers_view(out.emitted@) == d.plaintexts
            &&& if d.failed {
                out.state == StreamState::Aborted && out.error == Some(
                    ProxyError::DecryptionFailure,
                )
            } else {
                out.state == StreamState::Streaming && out.error is None && kept == d.rest
            }
        },
        StreamEvent::SourceEnd => {
            &&& out.emitted@.len() == 0
            &&& if held.len() == 0 {
                out.state == StreamState::Complete && out.error is None
            } else {
                out.state == StreamState::Aborted && out.error == Some(ProxyError::FormatError)
            }
        },
        StreamEvent::SourceError => {
            &&& out.state == StreamState::Aborted
            &&& out.error == Some(ProxyError::StreamAbort)
            &&& out.emitted@.len() == 0
        },
        StreamEvent::SinkClosed => {
            &&& out.state == StreamState::Aborted
            &&& out.error == Some(ProxyError::UpstreamError)
            &&& out.emitted@.len() == 0
        },
    }
}

/// The encrypting direction: each chunk of the source becomes one frame.
pub struct Encryptor {
    /// The codec of the stream's key.
    pub codec: EncryptionCodec,
    /// Where the stream stands.
    pub state: StreamState,
}

impl Encryptor {
    /// A stream that has not begun.
    pub fn new(key: [u8; 32]) -> (m: Self)
        ensures
            m.state == StreamState::Idle,
            m.codec.key == key,
    {
        Encryptor { codec: EncryptionCodec::new(key), state: StreamState::Idle }
    }

    /// Takes an event, and the nonce under which a chunk is sealed if the
    /// event is one, and says what to write and whether to go on. A stream
    /// that is complete or aborted stays so and emits nothing. The caller
    /// answers for the nonce: under one key no nonce may be given twice.
    pub fn step_with_nonce(&mut self, event: StreamEvent, nonce: &[u8; 12]) -> (out: StepResult)
        ensures
            final(self).codec.key == old(self).codec.key,
            final(self).state == out.state,
            is_terminal(old(self).state) ==> out.state == old(self).state && out.emitted@.len()
                == 0 && out.error is None,
            !is_terminal(old(self).state) ==> encrypt_step_under(
                old(self).codec.key@,
                nonce@,
                event,
                out,
            ),
    {
        let emitted: Vec<Vec<u8>> = Vec::new();
        match self.state {
            StreamState::Complete | StreamState::Aborted => {
                return StepResult { emitted, state: self.state, error: None };
            },
            _ => {},
        }
        let out = match event {
            StreamEvent::Chunk(chunk) => {
                match self.codec.encode_once_with_nonce(nonce, chunk.as_slice()) {
                    Ok(frame) => {
                        let mut emitted = emitted;
                        emitted.push(frame);
                        StepResult { emitted, state: StreamState::Streaming, error: None }
                    },
                    Err(e) => StepResult {
                        emitted,
                        state: StreamState::Aborted,
                        error: Some(ProxyError::FormatError),
                    },
                }
            },
            StreamEvent::SourceEnd => StepResult {
                emitted,
                state: StreamState::Complete,
                error: None,
            },
            StreamEvent::SourceError => StepResult {
                emitted,
                state: StreamState::Aborted,
                error: Some(ProxyError::UpstreamError),
            },
            StreamEvent::SinkClosed => StepResult {
                emitted,
                state: StreamState::Aborted,
                error: Some(ProxyError::StreamAbort),
            },
        };
        self.state = out.state;
        out
    }

    /// Takes an event and says what to write and whether to go on; a chunk
    /// is sealed under a freshly drawn nonce. A stream that is complete or
    /// aborted stays so and emits nothing.
    pub fn step(&mut self, event: StreamEvent) -> (out: StepResult)
        ensures
            final(self).codec.key == old(self).codec.key,
            final(self).state == out.state,
            is_terminal(old(self).state) ==> out.state == old(self).state && out.emitted@.len()
                == 0 && out.error is None,
            !is_terminal(old(self).state) ==> encrypt_step_spec(old(self).codec.key@, event, out),
    {
        let nonce = fresh_nonce();
        let out = self.step_with_nonce(event, &nonce);
        proof {
            if !is_terminal(old(self).state) {
                lemma_step_under_a_nonce(old(self).codec.key@, nonce@, event, out);
            }
        }
        out
    }
}

/// What opening the frames at the front of a buffer gave.
pub struct Opened {
    /// The plaintexts, in the order of their frames.
    pub plaintexts: Vec<Vec<u8>>,
    /// Whether a frame did not open.
    pub failed: bool,
}

/// The decrypting direction: the source's bytes are gathered until a frame
/// is whole, and each whole frame becomes its plaintext.
pub struct Decryptor {
    /// The codec of the stream's key.
    pub codec: EncryptionCodec,
    /// Where the stream stands.
    pub state: StreamState,
    /// The bytes of a frame that has not arrived whole.
    pub buffer: Vec<u8>,
}

impl Decryptor {
    /// While the stream runs, the bytes that are held are no whole frame:
    /// every step leaves the machine so.
    pub open spec fn wf(&self) -> bool {
        self.state == StreamState::Streaming ==> !has_whole_frame(self.buffer@)
    }

    /// A stream that has not begun.
    pub fn new(key: [u8; 32]) -> (m: Self)
        ensures
            m.state == StreamState::Idle,
            m.codec.key == key,
            m.buffer@ == Seq::<u8>::empty(),
            m.wf(),
    {
        Decryptor { codec: EncryptionCodec::new(key), state: StreamState::Idle, buffer: Vec::new() }
    }

    /// Opens the whole frames at the front of the buffer and keeps the rest.
    fn drain(&mut self) -> (r: Opened)
        ensures
            final(self).codec.key == old(self).codec.key,
            final(self).state == old(self).state,
            buffers_view(r.plaintexts@) == drained(
                old(self).codec.key@,
                old(self).buffer@,
            ).plaintexts,
            r.failed == drained(old(self).codec.key@, old(self).buffer@).failed,
            !r.failed ==> final(self).buffer@ == drained(
                old(self).codec.key@,
                old(self).buffer@,
            ).rest,
            r.plaintexts@.len() > 0 ==> announced_length(old(self).buffer@) >= 16,
    {
        let ghost key = self.codec.key@;
        let ghost all = self.buffer@;
        let mut emitted: Vec<Vec<u8>> = Vec::new();
        let mut failed = false;
        let mut pos: usize = 0;
        proof {
            assert(all.skip(0) =~= all);
            assert(buffers_view(emitted@) + drained(key, all).plaintexts =~= drained(
                key,
                all,
            ).plaintexts);
        }
        loop
            invariant_except_break
                !failed,
            invariant
                pos <= self.buffer@.len(),
                self.buffer@ == all,
                self.codec.key@ == key,
                self.codec.key == old(self).codec.key,
                self.state == old(self).state,
                drained(key, all).plaintexts == buffers_view(emitted@) + drained(
                    key,
                    all.skip(pos as int),
                ).plaintexts,
                drained(key, all).rest == drained(key, all.skip(pos as int)).rest,
                drained(key, all).failed == drained(key, all.skip(pos as int)).failed,
                emitted@.len() == 0 ==> pos == 0,
                emitted@.len() > 0 ==> announced_length(all) >= 16,
            ensures
                pos <= self.buffer@.len(),
                self.buffer@ == all,
                self.codec.key == old(self).codec.key,
                self.state == old(self).state,
                buffers_view(emitted@) == drained(key, all).plaintexts,
                failed == drained(key, all).failed,
                !failed ==> drained(key, all).rest == all.skip(pos as int),
                emitted@.len() > 0 ==> announced_length(all) >= 16,
            decreases self.buffer@.len() - pos,
        {
            let ghost here = all.skip(pos as int);
            let ghost before = buffers_view(emitted@);
            let rest = slice_subrange(self.buffer.as_slice(), pos, self.buffer.len());
            proof {
                assert(rest@ =~= here);
                if pos == 0 {
                    assert(here =~= all);
                }
            }
            match self.codec.decode_step(rest) {
                Ok((Some(plaintext), taken)) => {
                    proof {
                        lemma_frame_span_at_least_header(here);
                        assert(here.skip(taken as int) =~= all.skip(pos + taken));
                        let after = drained(key, here.skip(taken as int));
                        assert(before + (seq![plaintext@] + after.plaintexts) =~= before.push(
                            plaintext@,
                        ) + after.plaintexts);
                    }
                    emitted.push(plaintext);
                    proof {
                        assert(buffers_view(emitted@) =~= before.push(plaintext@));
                    }
                    pos = pos + taken;
                },
                Ok((None, _)) => {
                    proof {
                        assert(before + drained(key, here).plaintexts =~= before);
                    }
                    break ;
                },
                Err(_) => {
                    proof {
                        assert(before + drained(key, here).plaintexts =~= before);
                    }
                    failed = true;
                    break ;
                },
            }
        }
        if !failed {
            let rest = self.buffer.split_off(pos);
            self.buffer = rest;
        }
        Opened { plaintexts: emitted, failed }
    }

    /// Takes an event and says what to write and whether to go on. A stream
    /// that is complete or aborted stays so and emits nothing, and a frame
    /// that holds less than a tag is never opened.
    pub fn step(&mut self, event: StreamEvent) -> (out: StepResult)
        ensures
            final(self).wf(),
            final(self).codec.key == old(self).codec.key,
            final(self).state == out.state,
            is_terminal(old(self).state) ==> out.state == old(self).state && out.emitted@.len()
                == 0 && out.error is None,
            !is_terminal(old(self).state) ==> decrypt_step_spec(
                old(self).codec.key@,
                old(self).buffer@,
                event,
                out,
                final(self).buffer@,
            ),
            event matches StreamEvent::Chunk(c) ==> (out.emitted@.len() > 0 ==> announced_length(
                old(self).buffer@ + c@,
            ) >= 16),
    {
        let emitted: Vec<Vec<u8>> = Vec::new();
        match self.state {
            StreamState::Complete | StreamState::Aborted => {
                return StepResult { emitted, state: self.state, error: None };
            },
            _ => {},
        }
        let out = match event {
            StreamEvent::Chunk(chunk) => {
                self.buffer.extend_from_slice(chunk.as_slice());
                assert(self.buffer@ == old(self).buffer@ + chunk@);
                let opened = self.drain();
                proof {
                    lemma_drained_rest(old(self).codec.key@, old(self).buffer@ + chunk@);
                }
                if opened.failed {
                    StepResult {
                        emitted: opened.plaintexts,
                        state: StreamState::Aborted,
                        error: Some(ProxyError::DecryptionFailure),
                    }
                } else {
                    StepResult {
                        emitted: opened.plaintexts,
                        state: StreamState::Streaming,
                        error: None,
                    }
                }
            },
            StreamEvent::SourceEnd => {
                if self.buffer.len() == 0 {
                    StepResult { emitted, state: StreamState::Complete, error: None }
                } else {
                    StepResult {
                        emitted,
                        state: StreamState::Aborted,
                        error: Some(ProxyError::FormatError),
                    }
                }
            },
            StreamEvent::SourceError => StepResult {
                emitted,
                state: StreamState::Aborted,
                error: Some(ProxyError::StreamAbort),
            },
            StreamEvent::SinkClosed => StepResult {
                emitted,
                state: StreamState::Aborted,
                error: Some(ProxyError::UpstreamError),
            },
        };
        self.state = out.state;
        out
    }
}

} // verus!
