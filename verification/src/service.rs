//! Decisions of the inference worker and of the request handler.
//!
//! The loops that carry these decisions out — the worker's receive loop
//! on its job channel and the handler's awaited reply — live at the
//! process edge; what they decide is computed here, on plain values,
//! with full contracts.

use crate::wav::{encodable, encode_bytes, AudioBuffer};
use vstd::prelude::*;

verus! {

/// The sample rate of the waveforms the inference engine produces.
pub const ENGINE_SAMPLE_RATE: u32 = 32000;

/// Outcome of one engine invocation, as plain values: the raw samples of
/// the synthesized waveform (float bit patterns), or an opaque failure.
pub enum EngineResult {
    Samples(Vec<u32>),
    Failure,
}

/// The worker's handling of one finished engine call. A successful call
/// yields exactly one reply carrying the waveform at the engine's output
/// rate; a failed call yields no reply — the job's reply channel is
/// dropped and the worker returns to its loop, still available.
pub fn worker_reply(result: EngineResult) -> (r: Option<AudioBuffer>)
    ensures
        result matches EngineResult::Samples(s) ==> r matches Some(buf) && buf.samples@ == s@
            && buf.sample_rate == ENGINE_SAMPLE_RATE,
        result is Failure ==> r is None,
{
    match result {
        EngineResult::Samples(samples) => Some(
            AudioBuffer { samples, sample_rate: ENGINE_SAMPLE_RATE },
        ),
        EngineResult::Failure => None,
    }
}

/// How a handler's wait for its reply channel ends: with a delivered
/// waveform, or with the channel closed (the worker failed the job, or
/// the wait was given up) — the two closures are indistinguishable to
/// the handler and surface as one "no result" outcome.
pub enum ReplyOutcome {
    Delivered(AudioBuffer),
    Closed,
}

/// A finished response, ready for the transport layer.
pub enum TtsResponse {
    /// The encoded container; served with an audio content type and an
    /// exact byte length.
    Audio(Vec<u8>),
    /// No result was received for the job: a timeout-like status.
    NoReply,
    /// The waveform could not be encoded: a server-side failure.
    EncodeFailed,
}

impl TtsResponse {
    /// The status code of the response.
    pub fn status_code(&self) -> (r: u16)
        ensures
            self is Audio ==> r == 200,
            self is NoReply ==> r == 408,
            self is EncodeFailed ==> r == 500,
    {
        match self {
            TtsResponse::Audio(_) => 200,
            TtsResponse::NoReply => 408,
            TtsResponse::EncodeFailed => 500,
        }
    }
}

/// The handler's translation of its awaited reply. A delivered waveform
/// is encoded and returned whole; a reply that never came is reported as
/// the timeout-like status; an encoding failure is a server-side error.
pub fn respond(reply: ReplyOutcome) -> (r: TtsResponse)
    ensures
        match reply {
            ReplyOutcome::Delivered(buf) => if encodable(buf.samples@, buf.sample_rate) {
                r matches TtsResponse::Audio(bytes) && bytes@ == encode_bytes(
                    buf.samples@,
                    buf.sample_rate,
                )
            } else {
                r is EncodeFailed
            },
            ReplyOutcome::Closed => r is NoReply,
        },
{
    match reply {
        ReplyOutcome::Delivered(buf) => match buf.encode() {
            Ok(bytes) => TtsResponse::Audio(bytes),
            Err(_) => TtsResponse::EncodeFailed,
        },
        ReplyOutcome::Closed => TtsResponse::NoReply,
    }
}

} // verus!
