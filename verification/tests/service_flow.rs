//! The worker's and handler's decisions, end to end on plain values.

use tts_bridge::service::{
    respond, worker_reply, EngineResult, ReplyOutcome, TtsResponse, ENGINE_SAMPLE_RATE,
};
use tts_bridge::wav::AudioBuffer;

fn le32_field(bytes: &[u8], pos: usize) -> u32 {
    u32::from_le_bytes([bytes[pos], bytes[pos + 1], bytes[pos + 2], bytes[pos + 3]])
}

#[test]
fn successful_job_yields_an_engine_rate_waveform_and_valid_audio() {
    // A job whose engine call succeeded with a non-empty waveform.
    let samples: Vec<u32> = (0..1600).map(|i| ((i as f32) / 1600.0).to_bits()).collect();
    let n = samples.len();
    let reply = worker_reply(EngineResult::Samples(samples.clone()));
    let buf = reply.expect("a successful engine call must produce exactly one reply");
    assert_eq!(buf.sample_rate, 32000);
    assert_eq!(buf.sample_rate, ENGINE_SAMPLE_RATE);
    assert!(!buf.samples.is_empty());
    assert_eq!(buf.samples, samples);

    let response = respond(ReplyOutcome::Delivered(buf));
    assert_eq!(response.status_code(), 200);
    match response {
        TtsResponse::Audio(bytes) => {
            assert_eq!(&bytes[0..4], b"RIFF");
            assert_eq!(le32_field(&bytes, 40) as usize, 4 * n);
        }
        other => panic!("expected audio, got status {}", other.status_code()),
    }
}

#[test]
fn failed_engine_call_yields_no_reply() {
    assert!(worker_reply(EngineResult::Failure).is_none());
}

#[test]
fn closed_reply_channel_surfaces_as_timeout_status() {
    // The worker never replied (engine failure or abandoned job): the
    // handler must observe the timeout-like status, not hang.
    let response = respond(ReplyOutcome::Closed);
    assert!(matches!(response, TtsResponse::NoReply));
    assert_eq!(response.status_code(), 408);
}

#[test]
fn unencodable_waveform_surfaces_as_server_error_status() {
    let buf = AudioBuffer {
        samples: vec![0.5f32.to_bits()],
        sample_rate: u32::MAX,
    };
    let response = respond(ReplyOutcome::Delivered(buf));
    assert!(matches!(response, TtsResponse::EncodeFailed));
    assert_eq!(response.status_code(), 500);
}
