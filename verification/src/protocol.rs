//! The request-serialization protocol.
//!
//! Many concurrent handlers submit jobs to one inference worker over a
//! rendezvous hand-off: a submission completes only when the worker is
//! idle and picks the job up, and the worker processes one job at a time,
//! replying at most once per job. The module models the observable events
//! of that protocol and proves the three guarantees the design rests on:
//! hand-offs happen only when the worker is idle with no job outstanding
//! (backpressure), no two processing intervals overlap (serial
//! exclusivity), and no job is ever replied to twice.

use vstd::prelude::*;

verus! {

/// The worker's phase: waiting for a job, or processing one.
pub enum WorkerPhase {
    Idle,
    Inferring { job: nat },
}

/// An observable event of the dispatch protocol. Jobs are identified by
/// a ticket that is unique per submission.
pub enum ProtocolEvent {
    /// A submission completes its rendezvous: the worker picks the job up.
    Handoff { job: nat },
    /// The worker finishes the job it was processing; `replied` says
    /// whether a waveform was sent on the job's reply channel (an engine
    /// failure drops the channel instead).
    Finish { job: nat, replied: bool },
}

/// The job an event concerns.
pub open spec fn event_job(e: ProtocolEvent) -> nat {
    match e {
        ProtocolEvent::Handoff { job } => job,
        ProtocolEvent::Finish { job, .. } => job,
    }
}

/// Protocol state: the worker's phase and the history the laws speak of.
pub struct ProtocolState {
    pub phase: WorkerPhase,
    /// Jobs whose rendezvous has completed.
    pub started: Set<nat>,
    /// Jobs replied to, in order, with multiplicity.
    pub replies: Seq<nat>,
    /// Number of completed rendezvous.
    pub handoffs: nat,
    /// Number of finished jobs.
    pub finishes: nat,
}

pub open spec fn init_state() -> ProtocolState {
    ProtocolState {
        phase: WorkerPhase::Idle,
        started: Set::empty(),
        replies: Seq::empty(),
        handoffs: 0,
        finishes: 0,
    }
}

/// Whether `e` can occur in state `s`. A hand-off is a rendezvous: it
/// requires the worker to be idle; its ticket is fresh. A finish
/// requires the worker to be processing exactly that job.
pub open spec fn enabled(s: ProtocolState, e: ProtocolEvent) -> bool {
    match e {
        ProtocolEvent::Handoff { job } => s.phase is Idle && !s.started.contains(job),
        ProtocolEvent::Finish { job, .. } => s.phase == (WorkerPhase::Inferring { job }),
    }
}

/// The state reached by taking `e` in state `s`.
pub open spec fn step(s: ProtocolState, e: ProtocolEvent) -> ProtocolState {
    match e {
        ProtocolEvent::Handoff { job } => ProtocolState {
            phase: WorkerPhase::Inferring { job },
            started: s.started.insert(job),
            handoffs: s.handoffs + 1,
            ..s
        },
        ProtocolEvent::Finish { job, replied } => ProtocolState {
            phase: WorkerPhase::Idle,
            replies: if replied {
                s.replies.push(job)
            } else {
                s.replies
            },
            finishes: s.finishes + 1,
            ..s
        },
    }
}

/// The state after a trace of events, starting from the initial state.
pub open spec fn state_after(t: Seq<ProtocolEvent>) -> ProtocolState
    decreases t.len(),
{
    if t.len() == 0 {
        init_state()
    } else {
        step(state_after(t.drop_last()), t.last())
    }
}

/// A trace is valid when every event is enabled in the state it occurs in.
pub open spec fn valid_trace(t: Seq<ProtocolEvent>) -> bool {
    forall|i: int| 0 <= i < t.len() ==> enabled(state_after(#[trigger] t.take(i)), t[i])
}

/// Occurrences of `j` in a reply history.
pub open spec fn count_of(s: Seq<nat>, j: nat) -> nat
    decreases s.len(),
{
    if s.len() == 0 {
        0
    } else {
        count_of(s.drop_last(), j) + if s.last() == j {
            1nat
        } else {
            0nat
        }
    }
}

proof fn lemma_count_push(s: Seq<nat>, x: nat, j: nat)
    ensures
        count_of(s.push(x), j) == count_of(s, j) + if x == j {
            1nat
        } else {
            0nat
        },
{
    assert(s.push(x).drop_last() =~= s);
    assert(s.push(x).last() == x);
}

/// The inductive invariant of reachable protocol states.
pub open spec fn inv(s: ProtocolState) -> bool {
    &&& forall|j: nat| count_of(s.replies, j) <= 1
    &&& forall|j: nat| count_of(s.replies, j) > 0 ==> s.started.contains(j)
    &&& (s.phase matches WorkerPhase::Inferring { job } ==> s.started.contains(job) && count_of(
        s.replies,
        job,
    ) == 0)
    &&& (s.phase is Idle ==> s.handoffs == s.finishes)
    &&& (s.phase is Inferring ==> s.handoffs == s.finishes + 1)
}

/// A prefix of a valid trace is a valid trace.
pub proof fn lemma_valid_prefix(t: Seq<ProtocolEvent>, p: int)
    requires
        valid_trace(t),
        0 <= p <= t.len(),
    ensures
        valid_trace(t.take(p)),
{
    assert forall|i: int| 0 <= i < p implies enabled(
        state_after(#[trigger] t.take(p).take(i)),
        t.take(p)[i],
    ) by {
        assert(t.take(p).take(i) =~= t.take(i));
        assert(enabled(state_after(t.take(i)), t[i]));
    }
}

/// Every state reached by a valid trace satisfies the invariant.
pub proof fn lemma_inv(t: Seq<ProtocolEvent>)
    requires
        valid_trace(t),
    ensures
        inv(state_after(t)),
    decreases t.len(),
{
    if t.len() == 0 {
    } else {
        let pre = t.drop_last();
        let e = t.last();
        lemma_valid_prefix(t, t.len() - 1);
        assert(t.take(t.len() - 1) =~= pre);
        lemma_inv(pre);
        assert(enabled(state_after(t.take(t.len() - 1)), t[t.len() - 1]));
        let s = state_after(pre);
        match e {
            ProtocolEvent::Handoff { job } => {
                assert(count_of(s.replies, job) == 0);
            },
            ProtocolEvent::Finish { job, replied } => {
                if replied {
                    assert forall|j: nat| count_of(s.replies.push(job), j) <= 1 by {
                        lemma_count_push(s.replies, job, j);
                    }
                    assert forall|j: nat|
                        count_of(s.replies.push(job), j) > 0 implies s.started.contains(j) by {
                        lemma_count_push(s.replies, job, j);
                    }
                }
            },
        }
    }
}

/// Law: one reply per job. In every state a valid trace can reach, no
/// job has been replied to more than once.
pub proof fn lemma_one_reply_per_job(t: Seq<ProtocolEvent>, job: nat)
    requires
        valid_trace(t),
    ensures
        count_of(state_after(t).replies, job) <= 1,
{
    lemma_inv(t);
}

/// Law: backpressure. A hand-off occurs only when the worker is idle,
/// and the worker is idle only when every job handed off so far has
/// finished; so at most one job is ever in flight.
pub proof fn lemma_backpressure(t: Seq<ProtocolEvent>, i: int)
    requires
        valid_trace(t),
        0 <= i < t.len(),
        t[i] is Handoff,
    ensures
        state_after(t.take(i)).phase is Idle,
        state_after(t.take(i)).handoffs == state_after(t.take(i)).finishes,
{
    assert(enabled(state_after(t.take(i)), t[i]));
    lemma_valid_prefix(t, i);
    lemma_inv(t.take(i));
}

/// Law: serial exclusivity. Processing intervals never overlap: once a
/// job is handed off, the very next event — in particular, anything that
/// precedes a later hand-off — is the finish of that same job.
pub proof fn lemma_serial_exclusivity(t: Seq<ProtocolEvent>, i: int, k: int)
    requires
        valid_trace(t),
        0 <= i < k < t.len(),
        t[i] is Handoff,
        t[k] is Handoff,
    ensures
        i + 1 < k,
        t[i + 1] is Finish,
        event_job(t[i + 1]) == event_job(t[i]),
{
    assert(enabled(state_after(t.take(i)), t[i]));
    assert(t.take(i + 1).drop_last() =~= t.take(i));
    assert(t.take(i + 1).last() == t[i]);
    assert(state_after(t.take(i + 1)) == step(state_after(t.take(i)), t[i]));
    assert(state_after(t.take(i + 1)).phase == (WorkerPhase::Inferring { job: event_job(t[i]) }));
    assert(enabled(state_after(t.take(i + 1)), t[i + 1]));
    if i + 1 == k {
        assert(false);
    }
}

/// An event with a concrete ticket, as a test or a tool records it.
#[derive(Clone, Copy, Debug, PartialEq, Eq, Structural)]
pub enum TraceEvent {
    Handoff { job: u64 },
    Finish { job: u64, replied: bool },
}

/// The abstract event a recorded event stands for.
pub open spec fn view_event(e: TraceEvent) -> ProtocolEvent {
    match e {
        TraceEvent::Handoff { job } => ProtocolEvent::Handoff { job: job as nat },
        TraceEvent::Finish { job, replied } => ProtocolEvent::Finish { job: job as nat, replied },
    }
}

pub open spec fn view_trace(t: Seq<TraceEvent>) -> Seq<ProtocolEvent> {
    t.map_values(|e: TraceEvent| view_event(e))
}

/// Whether `v` holds `x`.
fn vec_contains(v: &Vec<u64>, x: u64) -> (r: bool)
    ensures
        r == v@.contains(x),
{
    let mut i: usize = 0;
    while i < v.len()
        invariant
            i <= v@.len(),
            forall|k: int| 0 <= k < i ==> v@[k] != x,
        decreases v@.len() - i,
    {
        if v[i] == x {
            return true;
        }
        i = i + 1;
    }
    false
}

/// A valid trace stays valid when its next event is enabled.
proof fn lemma_trace_extend(vt: Seq<ProtocolEvent>, i: int)
    requires
        0 <= i < vt.len(),
        valid_trace(vt.take(i)),
        enabled(state_after(vt.take(i)), vt[i]),
    ensures
        valid_trace(vt.take(i + 1)),
        state_after(vt.take(i + 1)) == step(state_after(vt.take(i)), vt[i]),
{
    assert(vt.take(i + 1).drop_last() =~= vt.take(i));
    assert(vt.take(i + 1).last() == vt[i]);
    assert forall|m: int| 0 <= m < i + 1 implies enabled(
        state_after(#[trigger] vt.take(i + 1).take(m)),
        vt.take(i + 1)[m],
    ) by {
        assert(vt.take(i + 1).take(m) =~= vt.take(m));
        if m < i {
            assert(vt.take(i).take(m) =~= vt.take(m));
            assert(enabled(state_after(vt.take(i).take(m)), vt.take(i)[m]));
        } else {
            assert(vt.take(m) =~= vt.take(i));
        }
    }
}

/// A trace with a disabled event is invalid.
proof fn lemma_invalid_at(vt: Seq<ProtocolEvent>, i: int)
    requires
        0 <= i < vt.len(),
        !enabled(state_after(vt.take(i)), vt[i]),
    ensures
        !valid_trace(vt),
{
    if valid_trace(vt) {
        assert(enabled(state_after(vt.take(i)), vt[i]));
    }
}

/// Pushing a ticket onto the recorded list mirrors inserting it into
/// the abstract set of started jobs.
proof fn lemma_push_set(prev: Seq<u64>, s: Set<nat>, x: u64)
    requires
        forall|y: u64| #[trigger] prev.contains(y) <==> s.contains(y as nat),
    ensures
        forall|y: u64| #[trigger]
            prev.push(x).contains(y) <==> s.insert(x as nat).contains(y as nat),
{
    assert forall|y: u64|
        #[trigger] prev.push(x).contains(y) <==> s.insert(x as nat).contains(y as nat) by {
        if prev.push(x).contains(y) {
            let k = choose|k: int| 0 <= k < prev.push(x).len() && prev.push(x)[k] == y;
            if k < prev.len() {
                assert(prev[k] == y);
                assert(prev.contains(y));
            } else {
                assert(y == x);
            }
        }
        if s.insert(x as nat).contains(y as nat) {
            if y as nat == x as nat {
                assert(prev.push(x)[prev.len() as int] == x);
                assert(prev.push(x).contains(y));
            } else {
                assert(s.contains(y as nat));
                assert(prev.contains(y));
                let k = choose|k: int| 0 <= k < prev.len() && prev[k] == y;
                assert(prev.push(x)[k] == y);
                assert(prev.push(x).contains(y));
            }
        }
    }
}

/// Replays a recorded trace against the protocol rules, accepting it
/// exactly when every event was allowed in the state it occurred in:
/// hand-offs only to an idle worker and with a fresh ticket, finishes
/// only of the one job being processed.
pub fn check_trace(t: &Vec<TraceEvent>) -> (r: bool)
    ensures
        r == valid_trace(view_trace(t@)),
{
    let ghost vt = view_trace(t@);
    let mut idle: bool = true;
    let mut current: u64 = 0;
    let mut started: Vec<u64> = Vec::new();
    let mut i: usize = 0;
    while i < t.len()
        invariant
            i <= t@.len(),
            vt == view_trace(t@),
            vt.len() == t@.len(),
            valid_trace(vt.take(i as int)),
            idle <==> state_after(vt.take(i as int)).phase is Idle,
            !idle ==> state_after(vt.take(i as int)).phase == (WorkerPhase::Inferring {
                job: current as nat,
            }),
            forall|x: u64|
                #[trigger] started@.contains(x) <==> state_after(vt.take(i as int)).started.contains(
                    x as nat,
                ),
        decreases t@.len() - i,
    {
        let ghost pre = state_after(vt.take(i as int));
        let ghost old_started = started@;
        let e = t[i];
        proof {
            assert(e == t@[i as int]);
            assert(vt[i as int] == view_event(t@[i as int]));
        }
        match e {
            TraceEvent::Handoff { job } => {
                if !idle || vec_contains(&started, job) {
                    proof {
                        assert(!enabled(pre, vt[i as int]));
                        lemma_invalid_at(vt, i as int);
                    }
                    return false;
                }
                started.push(job);
                idle = false;
                current = job;
                proof {
                    assert(enabled(pre, vt[i as int]));
                    lemma_trace_extend(vt, i as int);
                    assert(started@ == old_started.push(job));
                    assert(state_after(vt.take(i as int + 1)).started == pre.started.insert(
                        job as nat,
                    ));
                    lemma_push_set(old_started, pre.started, job);
                }
            },
            TraceEvent::Finish { job, replied: _ } => {
                if idle || current != job {
                    proof {
                        assert(!enabled(pre, vt[i as int]));
                        lemma_invalid_at(vt, i as int);
                    }
                    return false;
                }
                idle = true;
                proof {
                    assert(enabled(pre, vt[i as int]));
                    lemma_trace_extend(vt, i as int);
                    assert(state_after(vt.take(i as int + 1)).started == pre.started);
                }
            },
        }
        i = i + 1;
    }
    proof {
        assert(vt.take(t@.len() as int) =~= vt);
    }
    true
}

} // verus!
