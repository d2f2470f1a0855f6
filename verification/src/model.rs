//! The admission model of the scheduling policies, and its laws.
//!
//! A run of the system is the sequence of events that the reporter
//! consumes, in consumption order. This module defines which event
//! sequences the access gate admits — the core transition relation shared
//! by all three policies — and, on top of it, the FIFO ticket discipline of
//! the fair-service policy. The laws proved here hold of every such run:
//! mutual exclusion of writer intervals, pairing of starts and ends, and
//! first-come-first-served admission under fair service.

use vstd::prelude::*;

use crate::reports::Action;

verus! {

/// One observed event of a run: who, what, and the elapsed time in
/// milliseconds since the run began.
#[derive(Debug, Clone, Copy, PartialEq, Eq, Structural)]
pub struct TraceEntry {
    pub who: u32,
    pub action: Action,
    pub at: u64,
}

/// The state of the shared access gate: whether its permit is available,
/// which readers are admitted, and which writer (if any) holds it
/// exclusively.
#[verifier::ext_equal]
pub struct CoreState {
    pub avail: bool,
    pub readers: Set<u32>,
    pub writer: Option<u32>,
}

/// The state before any event: the permit available, nobody active.
pub open spec fn core_init() -> CoreState {
    CoreState { avail: true, readers: Set::empty(), writer: None }
}

/// Whether the operator is active: admitted as a reader or the writer.
pub open spec fn core_active(s: CoreState, who: u32) -> bool {
    s.readers.contains(who) || s.writer == Some(who)
}

/// Whether an event is admissible in a state.
///
/// A reader may start when the reader group already holds the permit or
/// the permit is free (the first reader consumes it); a writer may start
/// only when the permit is free. Creations and requests are always
/// admissible; an end requires the matching activity.
pub open spec fn core_enabled(s: CoreState, who: u32, action: Action) -> bool {
    match action {
        Action::Create | Action::RequestRead | Action::RequestWrite => true,
        Action::StartRead => !core_active(s, who) && (!s.readers.is_empty() || s.avail),
        Action::StartWrite => s.avail,
        Action::EndRead => s.readers.contains(who),
        Action::EndWrite => s.writer == Some(who),
    }
}

/// The state after an admissible event.
pub open spec fn core_apply(s: CoreState, who: u32, action: Action) -> CoreState {
    match action {
        Action::Create | Action::RequestRead | Action::RequestWrite => s,
        Action::StartRead => CoreState { avail: false, readers: s.readers.insert(who), ..s },
        Action::StartWrite => CoreState { avail: false, writer: Some(who), ..s },
        Action::EndRead => {
            let rest = s.readers.remove(who);
            CoreState {
                avail: if rest.is_empty() {
                    true
                } else {
                    s.avail
                },
                readers: rest,
                ..s
            }
        },
        Action::EndWrite => CoreState { avail: true, writer: None, ..s },
    }
}

/// The state after the first `k` events of a trace.
pub open spec fn core_state_at(tr: Seq<TraceEntry>, k: int) -> CoreState
    decreases k,
{
    if k <= 0 {
        core_init()
    } else {
        core_apply(core_state_at(tr, k - 1), tr[k - 1].who, tr[k - 1].action)
    }
}

/// A trace is a core run when every event is admissible in the state the
/// previous events produced, and the timestamps never decrease (all
/// operators share one monotonic clock, and events arrive in order).
pub open spec fn is_core_run(tr: Seq<TraceEntry>) -> bool {
    &&& forall|k: int|
        0 <= k < tr.len() ==> core_enabled(
            core_state_at(tr, k),
            #[trigger] tr[k].who,
            tr[k].action,
        )
    &&& forall|k1: int, k2: int| 0 <= k1 <= k2 < tr.len() ==> tr[k1].at <= tr[k2].at
}

/// What holds of every reachable gate state: the permit is available only
/// when nobody is active, and an exclusive writer excludes all readers.
pub open spec fn core_inv(s: CoreState) -> bool {
    &&& s.readers.finite()
    &&& s.avail ==> s.readers.is_empty() && s.writer is None
    &&& s.writer is Some ==> s.readers.is_empty()
}

/// Whether an action begins a task interval.
pub open spec fn is_start(a: Action) -> bool {
    a == Action::StartRead || a == Action::StartWrite
}

/// Whether an action ends a task interval.
pub open spec fn is_end(a: Action) -> bool {
    a == Action::EndRead || a == Action::EndWrite
}

/// Whether an action requests admission.
pub open spec fn is_request(a: Action) -> bool {
    a == Action::RequestRead || a == Action::RequestWrite
}

/// The state of the fair-service policy: the access gate, plus the FIFO
/// ticket queue of operators that requested and are not yet admitted, and
/// the set of operators that ever requested (each operator requests once).
#[verifier::ext_equal]
pub struct FairState {
    pub core: CoreState,
    pub queue: Seq<u32>,
    pub requested: Set<u32>,
}

/// The fair-service state before any event.
pub open spec fn fair_init() -> FairState {
    FairState { core: core_init(), queue: Seq::empty(), requested: Set::empty() }
}

/// Whether an event is admissible under fair service: requests join the
/// ticket queue (once per operator), and only the operator at the head of
/// the queue may start, when the core gate admits it.
pub open spec fn fair_enabled(s: FairState, who: u32, action: Action) -> bool {
    match action {
        Action::Create => true,
        Action::RequestRead | Action::RequestWrite => !s.requested.contains(who),
        Action::StartRead | Action::StartWrite => s.queue.len() > 0 && s.queue[0] == who
            && core_enabled(s.core, who, action),
        Action::EndRead | Action::EndWrite => core_enabled(s.core, who, action),
    }
}

/// The fair-service state after an admissible event: a request enqueues,
/// a start dequeues the head and steps the access state; so does an end.
pub open spec fn fair_apply(s: FairState, who: u32, action: Action) -> FairState {
    match action {
        Action::Create => s,
        Action::RequestRead | Action::RequestWrite => FairState {
            core: s.core,
            queue: s.queue.push(who),
            requested: s.requested.insert(who),
        },
        Action::StartRead | Action::StartWrite => FairState {
            core: core_apply(s.core, who, action),
            queue: s.queue.drop_first(),
            requested: s.requested,
        },
        Action::EndRead | Action::EndWrite => FairState {
            core: core_apply(s.core, who, action),
            ..s
        },
    }
}

/// The fair-service state after the first `k` events of a trace.
pub open spec fn fair_state_at(tr: Seq<TraceEntry>, k: int) -> FairState
    decreases k,
{
    if k <= 0 {
        fair_init()
    } else {
        fair_apply(fair_state_at(tr, k - 1), tr[k - 1].who, tr[k - 1].action)
    }
}

/// A trace is a fair-service run when every event is admissible under
/// fair service and the timestamps never decrease.
pub open spec fn is_fair_run(tr: Seq<TraceEntry>) -> bool {
    &&& forall|k: int|
        0 <= k < tr.len() ==> fair_enabled(
            fair_state_at(tr, k),
            #[trigger] tr[k].who,
            tr[k].action,
        )
    &&& forall|k1: int, k2: int| 0 <= k1 <= k2 < tr.len() ==> tr[k1].at <= tr[k2].at
}

/// One admissible step preserves the access invariant.
proof fn lemma_step_inv(s: CoreState, c: u32, a: Action)
    requires
        core_inv(s),
        core_enabled(s, c, a),
    ensures
        core_inv(core_apply(s, c, a)),
{
    match a {
        Action::EndRead => {
            assert(!s.readers.is_empty()) by {
                assert(s.readers.contains(c));
            }
        },
        _ => {},
    }
}

/// Every reachable state of a core run satisfies the access invariant.
pub proof fn lemma_core_inv(tr: Seq<TraceEntry>, k: int)
    requires
        is_core_run(tr),
        0 <= k <= tr.len(),
    ensures
        core_inv(core_state_at(tr, k)),
    decreases k,
{
    if k > 0 {
        lemma_core_inv(tr, k - 1);
        assert(core_enabled(core_state_at(tr, k - 1), tr[k - 1].who, tr[k - 1].action));
        lemma_step_inv(core_state_at(tr, k - 1), tr[k - 1].who, tr[k - 1].action);
    }
}

/// A step that is not a start or end of `who` leaves `who` active.
proof fn lemma_step_preserves_active(s: CoreState, who: u32, c: u32, a: Action)
    requires
        core_inv(s),
        core_enabled(s, c, a),
        core_active(s, who),
        !(c == who && (is_start(a) || is_end(a))),
    ensures
        core_active(core_apply(s, c, a), who),
{
    match a {
        Action::StartWrite => {
            assert(s.avail);
            assert(!core_active(s, who));
        },
        Action::EndWrite => {
            assert(s.writer == Some(c));
            assert(s.readers.is_empty());
            assert(c == who);
        },
        _ => {},
    }
}

/// A step that is not the holding writer's own end keeps it the holder.
proof fn lemma_step_preserves_writer(s: CoreState, who: u32, c: u32, a: Action)
    requires
        core_inv(s),
        core_enabled(s, c, a),
        s.writer == Some(who),
        !(c == who && is_end(a)),
    ensures
        core_apply(s, c, a).writer == Some(who),
{
    match a {
        Action::StartRead => {
            assert(s.readers.is_empty() && !s.avail);
        },
        Action::StartWrite => {
            assert(!s.avail);
        },
        Action::EndRead => {
            assert(s.readers.is_empty());
            assert(s.readers.contains(c));
        },
        Action::EndWrite => {
            assert(c == who);
        },
        _ => {},
    }
}

/// An operator active after a step was active before it, unless the step
/// was that operator's own start.
proof fn lemma_step_active_source(s: CoreState, who: u32, c: u32, a: Action)
    requires
        core_inv(s),
        core_enabled(s, c, a),
        core_active(core_apply(s, c, a), who),
    ensures
        core_active(s, who) || (c == who && is_start(a)),
{
}

/// An operator's own end leaves it inactive.
proof fn lemma_end_deactivates(s: CoreState, who: u32, a: Action)
    requires
        core_inv(s),
        core_enabled(s, who, a),
        is_end(a),
    ensures
        !core_active(core_apply(s, who, a), who),
{
    if a == Action::EndRead {
        assert(!s.readers.is_empty()) by {
            assert(s.readers.contains(who));
        }
        assert(s.writer != Some(who));
    } else {
        assert(s.readers.is_empty());
    }
}

/// Positions `i < j` bound a task interval of `who`: a start at `i`, an
/// end at `j`, and no other start or end of `who` in between.
pub open spec fn task_interval(tr: Seq<TraceEntry>, who: u32, i: int, j: int) -> bool {
    &&& 0 <= i < j < tr.len()
    &&& tr[i].who == who && is_start(tr[i].action)
    &&& tr[j].who == who && is_end(tr[j].action)
    &&& forall|k: int|
        i < k < j ==> !(tr[k].who == who && (is_start(#[trigger] tr[k].action) || is_end(
            tr[k].action,
        )))
}

/// Throughout a task interval, the operator stays active.
#[verifier::spinoff_prover]
#[verifier::rlimit(100)]
proof fn lemma_active_during(tr: Seq<TraceEntry>, who: u32, i: int, j: int, k: int)
    requires
        is_core_run(tr),
        task_interval(tr, who, i, j),
        i < k <= j,
    ensures
        core_active(core_state_at(tr, k), who),
    decreases k,
{
    lemma_core_inv(tr, k - 1);
    let s = core_state_at(tr, k - 1);
    let e = tr[k - 1];
    assert(core_enabled(s, e.who, e.action));
    if k == i + 1 {
        assert(core_active(core_apply(s, e.who, e.action), who));
    } else {
        lemma_active_during(tr, who, i, j, k - 1);
        assert(!(e.who == who && (is_start(e.action) || is_end(e.action))));
        lemma_step_preserves_active(s, who, e.who, e.action);
    }
}

/// Throughout a writer's task interval, that writer keeps exclusive hold.
#[verifier::spinoff_prover]
#[verifier::rlimit(100)]
proof fn lemma_writer_during(tr: Seq<TraceEntry>, who: u32, i: int, j: int, k: int)
    requires
        is_core_run(tr),
        task_interval(tr, who, i, j),
        tr[i].action == Action::StartWrite,
        i < k <= j,
    ensures
        core_state_at(tr, k).writer == Some(who),
    decreases k,
{
    lemma_core_inv(tr, k - 1);
    let s = core_state_at(tr, k - 1);
    let e = tr[k - 1];
    assert(core_enabled(s, e.who, e.action));
    if k == i + 1 {
        assert(core_apply(s, e.who, e.action).writer == Some(who));
    } else {
        lemma_writer_during(tr, who, i, j, k - 1);
        assert(!(e.who == who && is_end(e.action)));
        lemma_step_preserves_writer(s, who, e.who, e.action);
    }
}

/// Mutual exclusion: in any core run — so under every policy — a writer's
/// task interval overlaps no other operator's task interval, neither in
/// trace positions nor in time (intervals may at most touch at endpoints).
#[verifier::spinoff_prover]
#[verifier::rlimit(100)]
pub proof fn lemma_mutual_exclusion(
    tr: Seq<TraceEntry>,
    a: u32,
    i1: int,
    j1: int,
    b: u32,
    i2: int,
    j2: int,
)
    requires
        is_core_run(tr),
        task_interval(tr, a, i1, j1),
        tr[i1].action == Action::StartWrite,
        task_interval(tr, b, i2, j2),
        a != b,
    ensures
        j1 <= i2 || j2 <= i1,
        tr[j1].at <= tr[i2].at || tr[j2].at <= tr[i1].at,
{
    if i1 < i2 < j1 {
        lemma_writer_during(tr, a, i1, j1, i2);
        lemma_core_inv(tr, i2);
        let s = core_state_at(tr, i2);
        assert(core_enabled(s, b, tr[i2].action));
        assert(s.readers.is_empty() && !s.avail);
        assert(false);
    }
    if i2 == i1 {
        assert(false);
    }
    if i2 == j1 {
        assert(is_start(tr[i2].action) && is_end(tr[j1].action));
        assert(false);
    }
    if i2 < i1 && i1 < j2 {
        lemma_active_during(tr, b, i2, j2, i1);
        lemma_core_inv(tr, i1);
        let s = core_state_at(tr, i1);
        assert(core_enabled(s, a, Action::StartWrite));
        assert(s.readers.is_empty() && s.writer is None);
        assert(!core_active(s, b));
        assert(false);
    }
    assert(j1 <= i2 || j2 <= i1);
}

/// How many starts of `who` the first `k` events hold.
pub open spec fn count_starts_upto(tr: Seq<TraceEntry>, who: u32, k: int) -> nat
    decreases k,
{
    if k <= 0 {
        0
    } else {
        count_starts_upto(tr, who, k - 1) + (if tr[k - 1].who == who && is_start(
            tr[k - 1].action,
        ) {
            1nat
        } else {
            0nat
        })
    }
}

/// How many ends of `who` the first `k` events hold.
pub open spec fn count_ends_upto(tr: Seq<TraceEntry>, who: u32, k: int) -> nat
    decreases k,
{
    if k <= 0 {
        0
    } else {
        count_ends_upto(tr, who, k - 1) + (if tr[k - 1].who == who && is_end(tr[k - 1].action) {
            1nat
        } else {
            0nat
        })
    }
}

/// At every point of a core run, an operator's starts exceed its ends by
/// one exactly while it is active, and match exactly while it is not.
#[verifier::spinoff_prover]
#[verifier::rlimit(100)]
pub proof fn lemma_start_end_balance(tr: Seq<TraceEntry>, who: u32, k: int)
    requires
        is_core_run(tr),
        0 <= k <= tr.len(),
    ensures
        count_starts_upto(tr, who, k) == count_ends_upto(tr, who, k) + (if core_active(
            core_state_at(tr, k),
            who,
        ) {
            1int
        } else {
            0int
        }),
    decreases k,
{
    if k > 0 {
        lemma_start_end_balance(tr, who, k - 1);
        lemma_core_inv(tr, k - 1);
        let s = core_state_at(tr, k - 1);
        let e = tr[k - 1];
        assert(core_enabled(s, e.who, e.action));
        if e.who == who && is_start(e.action) {
            assert(!core_active(s, who));
            assert(core_active(core_apply(s, e.who, e.action), who));
        } else if e.who == who && is_end(e.action) {
            assert(core_active(s, who));
            lemma_end_deactivates(s, who, e.action);
        } else {
            if core_active(s, who) {
                lemma_step_preserves_active(s, who, e.who, e.action);
            }
            if core_active(core_apply(s, e.who, e.action), who) {
                lemma_step_active_source(s, who, e.who, e.action);
            }
        }
    }
}

/// Interval pairing, first half: in a completed run — one in which no
/// operator is still active at the end — every operator has exactly as
/// many end events as start events.
pub proof fn lemma_interval_pairing_counts(tr: Seq<TraceEntry>, who: u32)
    requires
        is_core_run(tr),
        !core_active(core_state_at(tr, tr.len() as int), who),
    ensures
        count_starts_upto(tr, who, tr.len() as int) == count_ends_upto(tr, who, tr.len() as int),
{
    lemma_start_end_balance(tr, who, tr.len() as int);
}

/// An active operator has an open start: a start event of its own with no
/// later start or end of its own yet.
#[verifier::spinoff_prover]
#[verifier::rlimit(100)]
proof fn lemma_active_has_open_start(tr: Seq<TraceEntry>, who: u32, k: int)
    requires
        is_core_run(tr),
        0 <= k <= tr.len(),
        core_active(core_state_at(tr, k), who),
    ensures
        exists|i: int|
            0 <= i < k && tr[i].who == who && is_start(#[trigger] tr[i].action) && (forall|m: int|
                i < m < k ==> !(tr[m].who == who && (is_start(#[trigger] tr[m].action) || is_end(
                    tr[m].action,
                )))),
    decreases k,
{
    assert(k > 0);
    lemma_core_inv(tr, k - 1);
    let s = core_state_at(tr, k - 1);
    let e = tr[k - 1];
    assert(core_enabled(s, e.who, e.action));
    if e.who == who && is_start(e.action) {
        assert(0 <= k - 1 < k && tr[k - 1].who == who && is_start(tr[k - 1].action) && (forall|
            m: int,
        |
            k - 1 < m < k ==> !(tr[m].who == who && (is_start(#[trigger] tr[m].action) || is_end(
                tr[m].action,
            )))));
    } else {
        assert(core_active(s, who)) by {
            lemma_step_active_source(s, who, e.who, e.action);
            if e.who == who && is_end(e.action) {
                lemma_end_deactivates(s, who, e.action);
            }
        }
        lemma_active_has_open_start(tr, who, k - 1);
        let i = choose|i: int|
            0 <= i < k - 1 && tr[i].who == who && is_start(#[trigger] tr[i].action) && (forall|
                m: int,
            |
                i < m < k - 1 ==> !(tr[m].who == who && (is_start(#[trigger] tr[m].action)
                    || is_end(tr[m].action))));
        assert(!(tr[k - 1].who == who && (is_start(tr[k - 1].action) || is_end(
            tr[k - 1].action,
        ))));
        assert(0 <= i < k && tr[i].who == who && is_start(tr[i].action) && (forall|m: int|
            i < m < k ==> !(tr[m].who == who && (is_start(#[trigger] tr[m].action) || is_end(
                tr[m].action,
            )))));
    }
}

/// Interval pairing, second half: every end event closes a task interval
/// opened by a matching start, whose timestamp is no later than the end's.
#[verifier::spinoff_prover]
#[verifier::rlimit(100)]
pub proof fn lemma_end_has_matching_start(tr: Seq<TraceEntry>, j: int)
    requires
        is_core_run(tr),
        0 <= j < tr.len(),
        is_end(tr[j].action),
    ensures
        exists|i: int| task_interval(tr, tr[j].who, i, j) && tr[i].at <= tr[j].at,
{
    let who = tr[j].who;
    lemma_core_inv(tr, j);
    let s = core_state_at(tr, j);
    assert(core_enabled(s, who, tr[j].action));
    assert(core_active(s, who));
    lemma_active_has_open_start(tr, who, j);
    let i = choose|i: int|
        0 <= i < j && tr[i].who == who && is_start(#[trigger] tr[i].action) && (forall|m: int|
            i < m < j ==> !(tr[m].who == who && (is_start(#[trigger] tr[m].action) || is_end(
                tr[m].action,
            ))));
    assert(task_interval(tr, who, i, j));
    assert(tr[i].at <= tr[j].at);
}

/// Reader concurrency: there is a core run — the policies with reader
/// counting admit it — in which two readers' task intervals overlap: the
/// second reader starts and ends strictly inside the first reader's
/// interval.
#[verifier::spinoff_prover]
#[verifier::rlimit(100)]
pub proof fn lemma_reader_concurrency() -> (tr: Seq<TraceEntry>)
    ensures
        is_core_run(tr),
        task_interval(tr, 1, 0, 3),
        task_interval(tr, 2, 1, 2),
        tr[0].action == Action::StartRead,
        tr[1].action == Action::StartRead,
        tr[0].at <= tr[1].at && tr[2].at <= tr[3].at,
{
    let e0 = TraceEntry { who: 1, action: Action::StartRead, at: 0 };
    let e1 = TraceEntry { who: 2, action: Action::StartRead, at: 1 };
    let e2 = TraceEntry { who: 2, action: Action::EndRead, at: 2 };
    let e3 = TraceEntry { who: 1, action: Action::EndRead, at: 3 };
    let tr = seq![e0, e1, e2, e3];
    assert(tr[0] == e0 && tr[1] == e1 && tr[2] == e2 && tr[3] == e3);
    let s0 = core_state_at(tr, 0);
    assert(s0 == core_init());
    assert(core_enabled(s0, tr[0].who, tr[0].action));
    let s1 = core_state_at(tr, 1);
    assert(s1 == core_apply(s0, 1, Action::StartRead));
    assert(s1.readers.contains(1));
    assert(!s1.readers.is_empty());
    assert(core_enabled(s1, tr[1].who, tr[1].action));
    let s2 = core_state_at(tr, 2);
    assert(s2 == core_apply(s1, 2, Action::StartRead));
    assert(s2.readers.contains(2));
    assert(core_enabled(s2, tr[2].who, tr[2].action));
    let s3 = core_state_at(tr, 3);
    assert(s3 == core_apply(s2, 2, Action::EndRead));
    assert(s3.readers.contains(1));
    assert(core_enabled(s3, tr[3].who, tr[3].action));
    assert forall|k: int| 0 <= k < tr.len() implies core_enabled(
        core_state_at(tr, k),
        #[trigger] tr[k].who,
        tr[k].action,
    ) by {
        if k == 0 {
        } else if k == 1 {
        } else if k == 2 {
        } else {
            assert(k == 3);
        }
    }
    assert(is_core_run(tr));
    tr
}

/// The correspondence of the fair-service state to the core state: the
/// ticket queue constrains admissions but never changes what the access
/// gate itself does.
proof fn lemma_fair_core_state(tr: Seq<TraceEntry>, k: int)
    requires
        0 <= k,
    ensures
        fair_state_at(tr, k).core == core_state_at(tr, k),
    decreases k,
{
    if k > 0 {
        lemma_fair_core_state(tr, k - 1);
    }
}

/// Every fair-service run is a core run, so the core laws — mutual
/// exclusion and interval pairing — hold of fair-service runs as well.
pub proof fn lemma_fair_run_is_core_run(tr: Seq<TraceEntry>)
    requires
        is_fair_run(tr),
    ensures
        is_core_run(tr),
{
    assert forall|k: int| 0 <= k < tr.len() implies core_enabled(
        core_state_at(tr, k),
        #[trigger] tr[k].who,
        tr[k].action,
    ) by {
        lemma_fair_core_state(tr, k);
        assert(fair_enabled(fair_state_at(tr, k), tr[k].who, tr[k].action));
    }
}

/// What holds of every reachable fair-service state: the queue holds no
/// operator twice, and only operators that have requested.
pub open spec fn fair_inv(s: FairState) -> bool {
    &&& forall|idx: int| 0 <= idx < s.queue.len() ==> s.requested.contains(#[trigger] s.queue[idx])
    &&& forall|i: int, j: int| 0 <= i < j < s.queue.len() ==> s.queue[i] != s.queue[j]
}

/// Every reachable state of a fair-service run satisfies the queue
/// invariant.
#[verifier::spinoff_prover]
#[verifier::rlimit(100)]
pub proof fn lemma_fair_inv(tr: Seq<TraceEntry>, k: int)
    requires
        is_fair_run(tr),
        0 <= k <= tr.len(),
    ensures
        fair_inv(fair_state_at(tr, k)),
    decreases k,
{
    if k > 0 {
        lemma_fair_inv(tr, k - 1);
        let s = fair_state_at(tr, k - 1);
        let e = tr[k - 1];
        assert(fair_enabled(s, e.who, e.action));
        let s2 = fair_state_at(tr, k);
        if is_request(e.action) {
            assert(forall|idx: int|
                0 <= idx < s.queue.len() ==> s2.queue[idx] == #[trigger] s.queue[idx]);
            assert(s2.queue[s.queue.len() as int] == e.who);
        } else if is_start(e.action) {
            assert(forall|idx: int|
                0 <= idx < s2.queue.len() ==> #[trigger] s2.queue[idx] == s.queue[idx + 1]);
        }
    }
}

/// Once requested, always requested.
proof fn lemma_requested_persists(tr: Seq<TraceEntry>, x: u32, k1: int, k2: int)
    requires
        0 <= k1 <= k2,
        fair_state_at(tr, k1).requested.contains(x),
    ensures
        fair_state_at(tr, k2).requested.contains(x),
    decreases k2 - k1,
{
    if k2 > k1 {
        lemma_requested_persists(tr, x, k1, k2 - 1);
    }
}

/// Each operator requests at most once in a fair-service run.
proof fn lemma_request_unique(tr: Seq<TraceEntry>, x: u32, p: int, q: int)
    requires
        is_fair_run(tr),
        0 <= p <= q < tr.len(),
        tr[p].who == x && is_request(tr[p].action),
        tr[q].who == x && is_request(tr[q].action),
    ensures
        p == q,
{
    if p < q {
        assert(fair_state_at(tr, p + 1).requested.contains(x));
        lemma_requested_persists(tr, x, p + 1, q);
        assert(fair_enabled(fair_state_at(tr, q), x, tr[q].action));
    }
}

/// A queue member has requested at some earlier point.
#[verifier::spinoff_prover]
#[verifier::rlimit(100)]
proof fn lemma_queue_member_requested(tr: Seq<TraceEntry>, x: u32, k: int)
    requires
        is_fair_run(tr),
        0 <= k <= tr.len(),
        fair_state_at(tr, k).queue.contains(x),
    ensures
        exists|m: int| 0 <= m < k && tr[m].who == x && is_request(#[trigger] tr[m].action),
    decreases k,
{
    assert(k > 0) by {
        if k == 0 {
            assert(fair_state_at(tr, 0).queue.len() == 0);
        }
    }
    let s = fair_state_at(tr, k - 1);
    let e = tr[k - 1];
    let s2 = fair_state_at(tr, k);
    if is_request(e.action) {
        if e.who == x {
            assert(tr[k - 1].who == x && is_request(tr[k - 1].action));
        } else {
            let idx = choose|idx: int| 0 <= idx < s2.queue.len() && s2.queue[idx] == x;
            assert(s.queue.contains(x)) by {
                assert(idx < s.queue.len());
                assert(s.queue[idx] == x);
            }
            lemma_queue_member_requested(tr, x, k - 1);
        }
    } else if is_start(e.action) {
        let idx = choose|idx: int| 0 <= idx < s2.queue.len() && s2.queue[idx] == x;
        assert(s.queue.contains(x)) by {
            assert(s.queue[idx + 1] == x);
        }
        lemma_queue_member_requested(tr, x, k - 1);
    } else {
        assert(s.queue.contains(x));
        lemma_queue_member_requested(tr, x, k - 1);
    }
}

/// An operator that requested stays in the queue until its start.
#[verifier::spinoff_prover]
#[verifier::rlimit(100)]
proof fn lemma_in_queue_until_start(tr: Seq<TraceEntry>, x: u32, p: int, k: int)
    requires
        is_fair_run(tr),
        0 <= p < k <= tr.len(),
        tr[p].who == x && is_request(tr[p].action),
        forall|m: int| p < m < k ==> !(tr[m].who == x && is_start(#[trigger] tr[m].action)),
    ensures
        fair_state_at(tr, k).queue.contains(x),
    decreases k,
{
    if k == p + 1 {
        let s = fair_state_at(tr, p);
        let s2 = fair_state_at(tr, p + 1);
        assert(s2.queue[s.queue.len() as int] == x);
    } else {
        lemma_in_queue_until_start(tr, x, p, k - 1);
        let s = fair_state_at(tr, k - 1);
        let e = tr[k - 1];
        let s2 = fair_state_at(tr, k);
        assert(fair_enabled(s, e.who, e.action));
        let idx = choose|idx: int| 0 <= idx < s.queue.len() && s.queue[idx] == x;
        if is_request(e.action) {
            assert(s2.queue[idx] == x);
        } else if is_start(e.action) {
            assert(e.who == s.queue[0]);
            assert(e.who != x);
            assert(idx != 0);
            assert(s2.queue[idx - 1] == x);
        } else {
            assert(s2.queue[idx] == x);
        }
    }
}

/// After its start, an operator never re-enters the queue.
#[verifier::spinoff_prover]
#[verifier::rlimit(100)]
proof fn lemma_not_in_queue_after_start(tr: Seq<TraceEntry>, x: u32, s1: int, k: int)
    requires
        is_fair_run(tr),
        0 <= s1 < k <= tr.len(),
        tr[s1].who == x && is_start(tr[s1].action),
    ensures
        !fair_state_at(tr, k).queue.contains(x),
        fair_state_at(tr, k).requested.contains(x),
    decreases k,
{
    lemma_fair_inv(tr, s1);
    let s = fair_state_at(tr, s1);
    assert(fair_enabled(s, x, tr[s1].action));
    assert(s.queue[0] == x);
    if k == s1 + 1 {
        let s2 = fair_state_at(tr, s1 + 1);
        assert(s2.queue =~= s.queue.drop_first());
        assert forall|idx: int| 0 <= idx < s2.queue.len() implies s2.queue[idx] != x by {
            assert(s2.queue[idx] == s.queue[idx + 1]);
        }
        assert(!s2.queue.contains(x));
        assert(s.requested.contains(x));
    } else {
        lemma_not_in_queue_after_start(tr, x, s1, k - 1);
        let sp = fair_state_at(tr, k - 1);
        let e = tr[k - 1];
        let s2 = fair_state_at(tr, k);
        assert(fair_enabled(sp, e.who, e.action));
        if is_request(e.action) {
            assert(e.who != x);
            assert forall|idx: int| 0 <= idx < s2.queue.len() implies s2.queue[idx] != x by {
                if idx < sp.queue.len() {
                    assert(s2.queue[idx] == sp.queue[idx]);
                    assert(!sp.queue.contains(x)) by {
                    }
                    assert(sp.queue[idx] != x);
                }
            }
            assert(!s2.queue.contains(x));
        } else if is_start(e.action) {
            assert forall|idx: int| 0 <= idx < s2.queue.len() implies s2.queue[idx] != x by {
                assert(s2.queue[idx] == sp.queue[idx + 1]);
                assert(sp.queue[idx + 1] != x);
            }
            assert(!s2.queue.contains(x));
        } else {
            assert(s2.queue == sp.queue);
        }
    }
}

/// Each operator starts at most once in a fair-service run.
proof fn lemma_start_unique(tr: Seq<TraceEntry>, x: u32, s1: int, s2: int)
    requires
        is_fair_run(tr),
        0 <= s1 <= s2 < tr.len(),
        tr[s1].who == x && is_start(tr[s1].action),
        tr[s2].who == x && is_start(tr[s2].action),
    ensures
        s1 == s2,
{
    if s1 < s2 {
        lemma_not_in_queue_after_start(tr, x, s1, s2);
        let s = fair_state_at(tr, s2);
        assert(fair_enabled(s, x, tr[s2].action));
        assert(s.queue[0] == x);
        assert(s.queue.contains(x));
    }
}

/// When the later requester joins the queue, the earlier one is already
/// in it: positions witnessing the order just after the later request.
#[verifier::spinoff_prover]
#[verifier::rlimit(100)]
proof fn lemma_ahead_base(tr: Seq<TraceEntry>, a: u32, b: u32, p: int, q: int, sa: int) -> (pos: (
    int,
    int,
))
    requires
        is_fair_run(tr),
        a != b,
        0 <= p < q < tr.len(),
        tr[p].who == a && is_request(tr[p].action),
        tr[q].who == b && is_request(tr[q].action),
        0 <= sa < tr.len(),
        tr[sa].who == a && is_start(tr[sa].action),
        q < sa,
    ensures
        0 <= pos.0 < pos.1 < fair_state_at(tr, q + 1).queue.len(),
        fair_state_at(tr, q + 1).queue[pos.0] == a,
        fair_state_at(tr, q + 1).queue[pos.1] == b,
{
    let s = fair_state_at(tr, q);
    let s2 = fair_state_at(tr, q + 1);
    assert(s.queue.contains(a)) by {
        assert forall|m: int|
            p < m < q && tr[m].who == a implies !is_start(#[trigger] tr[m].action) by {
            if is_start(tr[m].action) {
                lemma_start_unique(tr, a, m, sa);
            }
        }
        lemma_in_queue_until_start(tr, a, p, q);
    }
    let ia = choose|ia: int| 0 <= ia < s.queue.len() && s.queue[ia] == a;
    let ib = s.queue.len() as int;
    assert(s2.queue[ia] == a && s2.queue[ib] == b);
    (ia, ib)
}

/// One admissible step keeps an earlier requester ahead of a later one,
/// as long as the step is neither one's own start.
proof fn lemma_ahead_apply(
    s: FairState,
    who: u32,
    act: Action,
    a: u32,
    b: u32,
    ia: int,
    ib: int,
) -> (pos: (int, int))
    requires
        fair_enabled(s, who, act),
        0 <= ia < ib < s.queue.len(),
        s.queue[ia] == a,
        s.queue[ib] == b,
        !(who == a && is_start(act)),
        !(who == b && is_start(act)),
    ensures
        0 <= pos.0 < pos.1 < fair_apply(s, who, act).queue.len(),
        fair_apply(s, who, act).queue[pos.0] == a,
        fair_apply(s, who, act).queue[pos.1] == b,
{
    let s2 = fair_apply(s, who, act);
    if is_request(act) {
        assert(s2.queue[ia] == a && s2.queue[ib] == b);
        (ia, ib)
    } else if is_start(act) {
        assert(who == s.queue[0]);
        assert(ia != 0);
        assert(s2.queue[ia - 1] == a && s2.queue[ib - 1] == b);
        (ia - 1, ib - 1)
    } else {
        assert(s2.queue == s.queue);
        (ia, ib)
    }
}

/// While both wait, the earlier requester stays ahead of the later one:
/// positions in the queue witnessing the order.
#[verifier::spinoff_prover]
#[verifier::rlimit(100)]
proof fn lemma_ahead_in_queue(
    tr: Seq<TraceEntry>,
    a: u32,
    b: u32,
    p: int,
    q: int,
    sa: int,
    sb: int,
    k: int,
) -> (pos: (int, int))
    requires
        is_fair_run(tr),
        a != b,
        0 <= p < q < tr.len(),
        tr[p].who == a && is_request(tr[p].action),
        tr[q].who == b && is_request(tr[q].action),
        0 <= sa < tr.len(),
        tr[sa].who == a && is_start(tr[sa].action),
        0 <= sb < tr.len(),
        tr[sb].who == b && is_start(tr[sb].action),
        q < sa,
        q < sb,
        q < k <= sa && k <= sb,
    ensures
        0 <= pos.0 < pos.1 < fair_state_at(tr, k).queue.len(),
        fair_state_at(tr, k).queue[pos.0] == a,
        fair_state_at(tr, k).queue[pos.1] == b,
    decreases k,
{
    if k == q + 1 {
        lemma_ahead_base(tr, a, b, p, q, sa)
    } else {
        let (ia, ib) = lemma_ahead_in_queue(tr, a, b, p, q, sa, sb, k - 1);
        let s = fair_state_at(tr, k - 1);
        let e = tr[k - 1];
        assert(fair_enabled(s, e.who, e.action));
        if e.who == a && is_start(e.action) {
            lemma_start_unique(tr, a, k - 1, sa);
        }
        if e.who == b && is_start(e.action) {
            lemma_start_unique(tr, b, k - 1, sb);
        }
        lemma_ahead_apply(s, e.who, e.action, a, b, ia, ib)
    }
}

/// First come, first served: under fair service, of two operators that
/// both request and both start, the one that requested first starts
/// first, and its start timestamp is no later.
#[verifier::spinoff_prover]
#[verifier::rlimit(100)]
pub proof fn lemma_fair_fifo(
    tr: Seq<TraceEntry>,
    a: u32,
    b: u32,
    p: int,
    q: int,
    sa: int,
    sb: int,
)
    requires
        is_fair_run(tr),
        a != b,
        0 <= p < q < tr.len(),
        tr[p].who == a && is_request(tr[p].action),
        tr[q].who == b && is_request(tr[q].action),
        0 <= sa < tr.len(),
        tr[sa].who == a && is_start(tr[sa].action),
        0 <= sb < tr.len(),
        tr[sb].who == b && is_start(tr[sb].action),
    ensures
        sa < sb,
        tr[sa].at <= tr[sb].at,
{
    assert(sa != sb);
    assert(q < sb) by {
        let s = fair_state_at(tr, sb);
        assert(fair_enabled(s, b, tr[sb].action));
        assert(s.queue.contains(b)) by {
            assert(s.queue[0] == b);
        }
        lemma_queue_member_requested(tr, b, sb);
        let m = choose|m: int| 0 <= m < sb && tr[m].who == b && is_request(#[trigger] tr[m].action);
        if m != q {
            if m < q {
                lemma_request_unique(tr, b, m, q);
            } else {
                lemma_request_unique(tr, b, q, m);
            }
        }
    }
    if sa > q {
        if sb < sa {
            let (ia, ib) = lemma_ahead_in_queue(tr, a, b, p, q, sa, sb, sb);
            lemma_fair_inv(tr, sb);
            let s = fair_state_at(tr, sb);
            assert(fair_enabled(s, b, tr[sb].action));
            assert(s.queue[0] == b);
            assert(s.queue[ib] == b && ib > 0);
            assert(false);
        }
        assert(sa < sb);
    } else {
        assert(sa < sb);
    }
}

} // verus!
