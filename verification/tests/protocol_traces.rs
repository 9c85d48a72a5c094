//! Concrete traces replayed against the dispatch protocol rules: what
//! the proved laws say in general, checked here on recorded histories.

use tts_bridge::protocol::{check_trace, TraceEvent};

fn handoff(job: u64) -> TraceEvent {
    TraceEvent::Handoff { job }
}

fn finish(job: u64, replied: bool) -> TraceEvent {
    TraceEvent::Finish { job, replied }
}

#[test]
fn empty_history_is_valid() {
    assert!(check_trace(&Vec::new()));
}

#[test]
fn strictly_serial_jobs_are_valid() {
    let t = vec![
        handoff(1),
        finish(1, true),
        handoff(2),
        finish(2, true),
        handoff(3),
        finish(3, true),
    ];
    assert!(check_trace(&t));
}

#[test]
fn a_second_handoff_before_the_first_finish_is_invalid() {
    // Backpressure: while the worker is processing job 1, no further
    // submission can complete its rendezvous.
    let t = vec![handoff(1), handoff(2)];
    assert!(!check_trace(&t));
}

#[test]
fn finishing_with_no_job_in_flight_is_invalid() {
    assert!(!check_trace(&vec![finish(1, true)]));
    assert!(!check_trace(&vec![handoff(1), finish(1, false), finish(1, true)]));
}

#[test]
fn finishing_a_different_job_than_the_one_in_flight_is_invalid() {
    let t = vec![handoff(1), finish(2, true)];
    assert!(!check_trace(&t));
}

#[test]
fn a_job_ticket_is_never_reused() {
    // One reply per job: replying to job 1 a second time would need a
    // second hand-off of ticket 1, which the rules refuse.
    let t = vec![handoff(1), finish(1, true), handoff(1), finish(1, true)];
    assert!(!check_trace(&t));
}

#[test]
fn an_engine_failure_leaves_the_worker_available() {
    // Job 1 fails (no reply); the worker still serves job 2.
    let t = vec![handoff(1), finish(1, false), handoff(2), finish(2, true)];
    assert!(check_trace(&t));
}
