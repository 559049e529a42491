//! Token-based replay conformance checking.
//!
//! Each trace is replayed against the net from the initial marking. For each
//! event, the first visible transition whose label equals the activity is
//! fired: every arc into it consumes tokens when enough are available (a
//! shortfall adds the deficit to `remaining` and leaves the place untouched),
//! and every arc out of it produces tokens unconditionally. An activity with
//! no visible matching transition adds one to `missing` and changes nothing.
//! Fitness combines the produced- and consumed-side token accounting into an
//! exact rational clamped to [0, 1].

use vstd::prelude::*;

use crate::assoc::Assoc;
use crate::log_model::{EventLog, EventV, Trace, TraceV};
use crate::net_model::{Marking, PetriNet, PetriNetV, TransitionV};
use crate::text::str_eq;

verus! {

/// The four replay counters, as unbounded integers.
pub struct Counts {
    pub produced: int,
    pub consumed: int,
    pub missing: int,
    pub remaining: int,
}

/// Replay state: the current marking and the counters so far.
pub struct RState {
    pub marking: Map<Seq<char>, int>,
    pub counts: Counts,
}

/// Token count of a place, taking an absent place as zero.
pub open spec fn tokens_at(m: Map<Seq<char>, int>, p: Seq<char>) -> int {
    if m.contains_key(p) {
        m[p]
    } else {
        0
    }
}

/// The marking map denoted by ordered (place, tokens) pairs.
pub open spec fn marking_as_int(pairs: Seq<(Seq<char>, u64)>) -> Map<Seq<char>, int>
    decreases pairs.len(),
{
    if pairs.len() == 0 {
        Map::empty()
    } else {
        marking_as_int(pairs.drop_last()).insert(pairs.last().0, pairs.last().1 as int)
    }
}

/// Componentwise order on counters.
pub open spec fn counts_le(a: Counts, b: Counts) -> bool {
    &&& a.produced <= b.produced
    &&& a.consumed <= b.consumed
    &&& a.missing <= b.missing
    &&& a.remaining <= b.remaining
}

pub open spec fn zero_counts() -> Counts {
    Counts { produced: 0, consumed: 0, missing: 0, remaining: 0 }
}

/// The state a trace replay starts from.
pub open spec fn init_state(net: PetriNetV) -> RState {
    RState { marking: marking_as_int(net.initial_marking), counts: zero_counts() }
}

/// The first visible transition whose label is `act`, in declaration order.
pub open spec fn find_trans(ts: Seq<TransitionV>, act: Seq<char>) -> Option<TransitionV>
    decreases ts.len(),
{
    if ts.len() == 0 {
        None
    } else if ts[0].label == act && !ts[0].is_invisible {
        Some(ts[0])
    } else {
        find_trans(ts.drop_first(), act)
    }
}

/// Consuming along one arc into the fired transition: take the tokens when
/// the source place has enough, otherwise record the deficit and leave the
/// place untouched.
pub open spec fn consume_step(st: RState, src: Seq<char>, mult: int) -> RState {
    let avail = tokens_at(st.marking, src);
    if avail >= mult {
        RState {
            marking: st.marking.insert(src, avail - mult),
            counts: Counts { consumed: st.counts.consumed + mult, ..st.counts },
        }
    } else {
        RState {
            marking: st.marking,
            counts: Counts { remaining: st.counts.remaining + mult - avail, ..st.counts },
        }
    }
}

/// Producing along one arc out of the fired transition: unconditional.
pub open spec fn produce_step(st: RState, tgt: Seq<char>, mult: int) -> RState {
    let avail = tokens_at(st.marking, tgt);
    RState {
        marking: st.marking.insert(tgt, avail + mult),
        counts: Counts { produced: st.counts.produced + mult, ..st.counts },
    }
}

/// Consume over the first `n` arcs that end at transition `t_id`.
pub open spec fn consume_arcs(
    arcs: Seq<crate::net_model::ArcV>,
    t_id: Seq<char>,
    st: RState,
    n: int,
) -> RState
    decreases n,
{
    if n <= 0 {
        st
    } else {
        let prev = consume_arcs(arcs, t_id, st, n - 1);
        let a = arcs[n - 1];
        if a.target == t_id {
            consume_step(prev, a.source, a.multiplicity as int)
        } else {
            prev
        }
    }
}

/// Produce over the first `n` arcs that start at transition `t_id`.
pub open spec fn produce_arcs(
    arcs: Seq<crate::net_model::ArcV>,
    t_id: Seq<char>,
    st: RState,
    n: int,
) -> RState
    decreases n,
{
    if n <= 0 {
        st
    } else {
        let prev = produce_arcs(arcs, t_id, st, n - 1);
        let a = arcs[n - 1];
        if a.source == t_id {
            produce_step(prev, a.target, a.multiplicity as int)
        } else {
            prev
        }
    }
}

/// Replaying one event: fire the first visible matching transition, or
/// record one missing event and change nothing.
pub open spec fn replay_event(net: PetriNetV, st: RState, act: Seq<char>) -> RState {
    match find_trans(net.transitions, act) {
        None => RState {
            marking: st.marking,
            counts: Counts { missing: st.counts.missing + 1, ..st.counts },
        },
        Some(t) => {
            let consumed = consume_arcs(net.arcs, t.id, st, net.arcs.len() as int);
            produce_arcs(net.arcs, t.id, consumed, net.arcs.len() as int)
        },
    }
}

/// The state after replaying the first `n` events of a trace.
pub open spec fn replay_events(net: PetriNetV, events: Seq<EventV>, n: int) -> RState
    decreases n,
{
    if n <= 0 {
        init_state(net)
    } else {
        replay_event(net, replay_events(net, events, n - 1), events[n - 1].activity)
    }
}

/// The counters a whole trace produces.
pub open spec fn trace_counts(net: PetriNetV, tr: TraceV) -> Counts {
    replay_events(net, tr.events, tr.events.len() as int).counts
}

/// The counter totals over the first `n` traces of a log.
pub open spec fn log_counts(net: PetriNetV, traces: Seq<TraceV>, n: int) -> Counts
    decreases n,
{
    if n <= 0 {
        zero_counts()
    } else {
        let prev = log_counts(net, traces, n - 1);
        let c = trace_counts(net, traces[n - 1]);
        Counts {
            produced: prev.produced + c.produced,
            consumed: prev.consumed + c.consumed,
            missing: prev.missing + c.missing,
            remaining: prev.remaining + c.remaining,
        }
    }
}

/// Case identifiers of the deviating traces among the first `n`, in log
/// order: a trace deviates when its own missing or remaining count is
/// positive.
pub open spec fn deviating_cases(net: PetriNetV, traces: Seq<TraceV>, n: int) -> Seq<Seq<char>>
    decreases n,
{
    if n <= 0 {
        Seq::empty()
    } else {
        let prev = deviating_cases(net, traces, n - 1);
        let c = trace_counts(net, traces[n - 1]);
        if c.missing > 0 || c.remaining > 0 {
            prev.push(traces[n - 1].case_id)
        } else {
            prev
        }
    }
}

// ─── bounds lemmas ─────────────────────────────────────────────────────────

/// Invariant carried through every replay state: counters grow, markings
/// stay non-negative, and a place never holds more than its initial tokens
/// plus everything produced so far.
pub open spec fn state_sound(net: PetriNetV, st: RState) -> bool {
    &&& counts_le(zero_counts(), st.counts)
    &&& forall|p: Seq<char>|
        0 <= #[trigger] tokens_at(st.marking, p) && tokens_at(st.marking, p) <= tokens_at(
            marking_as_int(net.initial_marking),
            p,
        ) + st.counts.produced
}

pub proof fn lemma_consume_arcs_sound(
    net: PetriNetV,
    t_id: Seq<char>,
    st: RState,
    n: int,
)
    requires
        state_sound(net, st),
        forall|i: int| 0 <= i < net.arcs.len() ==> (#[trigger] net.arcs[i]).multiplicity >= 0,
    ensures
        state_sound(net, consume_arcs(net.arcs, t_id, st, n)),
        counts_le(st.counts, consume_arcs(net.arcs, t_id, st, n).counts),
        consume_arcs(net.arcs, t_id, st, n).counts.produced == st.counts.produced,
        consume_arcs(net.arcs, t_id, st, n).counts.missing == st.counts.missing,
        forall|p: Seq<char>| #[trigger] tokens_at(consume_arcs(net.arcs, t_id, st, n).marking, p)
            <= tokens_at(st.marking, p),
    decreases n,
{
    if n > 0 {
        lemma_consume_arcs_sound(net, t_id, st, n - 1);
        let prev = consume_arcs(net.arcs, t_id, st, n - 1);
        let cur = consume_arcs(net.arcs, t_id, st, n);
        assert forall|p: Seq<char>| 0 <= #[trigger] tokens_at(cur.marking, p) && tokens_at(
            cur.marking,
            p,
        ) <= tokens_at(st.marking, p) by {
            assert(tokens_at(prev.marking, p) <= tokens_at(st.marking, p));
        }
        assert forall|p: Seq<char>| #[trigger] tokens_at(cur.marking, p) <= tokens_at(
            marking_as_int(net.initial_marking),
            p,
        ) + cur.counts.produced by {
            assert(tokens_at(prev.marking, p) <= tokens_at(marking_as_int(net.initial_marking), p)
                + prev.counts.produced);
        }
    }
}

pub proof fn lemma_produce_arcs_sound(
    net: PetriNetV,
    t_id: Seq<char>,
    st: RState,
    n: int,
)
    requires
        state_sound(net, st),
    ensures
        state_sound(net, produce_arcs(net.arcs, t_id, st, n)),
        counts_le(st.counts, produce_arcs(net.arcs, t_id, st, n).counts),
        produce_arcs(net.arcs, t_id, st, n).counts.consumed == st.counts.consumed,
        produce_arcs(net.arcs, t_id, st, n).counts.missing == st.counts.missing,
        produce_arcs(net.arcs, t_id, st, n).counts.remaining == st.counts.remaining,
        forall|p: Seq<char>| #[trigger] tokens_at(produce_arcs(net.arcs, t_id, st, n).marking, p)
            <= tokens_at(st.marking, p) + (produce_arcs(net.arcs, t_id, st, n).counts.produced
            - st.counts.produced),
    decreases n,
{
    if n > 0 {
        lemma_produce_arcs_sound(net, t_id, st, n - 1);
        let prev = produce_arcs(net.arcs, t_id, st, n - 1);
        let cur = produce_arcs(net.arcs, t_id, st, n);
        assert forall|p: Seq<char>| 0 <= #[trigger] tokens_at(cur.marking, p) && tokens_at(
            cur.marking,
            p,
        ) <= tokens_at(marking_as_int(net.initial_marking), p) + cur.counts.produced by {
            assert(0 <= tokens_at(prev.marking, p) <= tokens_at(
                marking_as_int(net.initial_marking),
                p,
            ) + prev.counts.produced);
        }
        assert forall|p: Seq<char>| #[trigger] tokens_at(cur.marking, p) <= tokens_at(
            st.marking,
            p,
        ) + (cur.counts.produced - st.counts.produced) by {
            assert(tokens_at(prev.marking, p) <= tokens_at(st.marking, p) + (prev.counts.produced
                - st.counts.produced));
        }
    }
}

pub proof fn lemma_replay_event_sound(net: PetriNetV, st: RState, act: Seq<char>)
    requires
        state_sound(net, st),
    ensures
        state_sound(net, replay_event(net, st, act)),
        counts_le(st.counts, replay_event(net, st, act).counts),
{
    match find_trans(net.transitions, act) {
        None => {},
        Some(t) => {
            lemma_consume_arcs_sound(net, t.id, st, net.arcs.len() as int);
            lemma_produce_arcs_sound(
                net,
                t.id,
                consume_arcs(net.arcs, t.id, st, net.arcs.len() as int),
                net.arcs.len() as int,
            );
        },
    }
}

pub proof fn lemma_init_state_sound(net: PetriNetV)
    ensures
        state_sound(net, init_state(net)),
    decreases net.initial_marking.len(),
{
    assert forall|p: Seq<char>| 0 <= #[trigger] tokens_at(marking_as_int(net.initial_marking), p)
        by {
        lemma_marking_as_int_nonneg(net.initial_marking, p);
    }
}

proof fn lemma_marking_as_int_nonneg(pairs: Seq<(Seq<char>, u64)>, p: Seq<char>)
    ensures
        tokens_at(marking_as_int(pairs), p) >= 0,
    decreases pairs.len(),
{
    if pairs.len() > 0 {
        lemma_marking_as_int_nonneg(pairs.drop_last(), p);
    }
}

pub proof fn lemma_replay_events_sound(net: PetriNetV, events: Seq<EventV>, n: int)
    ensures
        state_sound(net, replay_events(net, events, n)),
    decreases n,
{
    if n <= 0 {
        lemma_init_state_sound(net);
    } else {
        lemma_replay_events_sound(net, events, n - 1);
        lemma_replay_event_sound(net, replay_events(net, events, n - 1), events[n - 1].activity);
    }
}

/// Replaying more events never shrinks any counter.
pub proof fn lemma_replay_events_mono(net: PetriNetV, events: Seq<EventV>, a: int, b: int)
    requires
        a <= b,
    ensures
        counts_le(replay_events(net, events, a).counts, replay_events(net, events, b).counts),
    decreases b - a,
{
    if a < b {
        lemma_replay_events_mono(net, events, a, b - 1);
        lemma_replay_events_sound(net, events, b - 1);
        lemma_replay_event_sound(net, replay_events(net, events, b - 1), events[b - 1].activity);
    }
}

/// Every trace's own counters are non-negative.
pub proof fn lemma_trace_counts_nonneg(net: PetriNetV, tr: TraceV)
    ensures
        counts_le(zero_counts(), trace_counts(net, tr)),
{
    lemma_replay_events_sound(net, tr.events, tr.events.len() as int);
}

/// Totals over more traces never shrink.
pub proof fn lemma_log_counts_mono(net: PetriNetV, traces: Seq<TraceV>, a: int, b: int)
    requires
        a <= b,
    ensures
        counts_le(log_counts(net, traces, a), log_counts(net, traces, b)),
    decreases b - a,
{
    if a < b {
        lemma_log_counts_mono(net, traces, a, b - 1);
        lemma_trace_counts_nonneg(net, traces[b - 1]);
    }
}

pub proof fn lemma_log_counts_nonneg(net: PetriNetV, traces: Seq<TraceV>, n: int)
    ensures
        counts_le(zero_counts(), log_counts(net, traces, n)),
    decreases n,
{
    if n > 0 {
        lemma_log_counts_nonneg(net, traces, n - 1);
        lemma_trace_counts_nonneg(net, traces[n - 1]);
    }
}

// ─── machine bounds ────────────────────────────────────────────────────────

/// What the 64-bit counters and token counts force: the final counters of
/// the whole log fit, and no place can overflow even after everything that
/// can ever be produced lands on it.
pub open spec fn replay_bounded(net: PetriNetV, traces: Seq<TraceV>) -> bool {
    let total = log_counts(net, traces, traces.len() as int);
    &&& total.produced < 0x8000_0000_0000_0000
    &&& total.consumed < 0x8000_0000_0000_0000
    &&& total.missing <= u64::MAX
    &&& total.remaining <= u64::MAX
    &&& forall|p: Seq<char>| #[trigger] tokens_at(marking_as_int(net.initial_marking), p)
        + total.produced <= u64::MAX
}

/// Counters only grow as more arcs are consumed.
pub proof fn lemma_consume_arcs_mono(
    arcs: Seq<crate::net_model::ArcV>,
    t_id: Seq<char>,
    st: RState,
    a: int,
    b: int,
)
    requires
        a <= b,
    ensures
        counts_le(consume_arcs(arcs, t_id, st, a).counts, consume_arcs(arcs, t_id, st, b).counts),
    decreases b - a,
{
    if a < b {
        lemma_consume_arcs_mono(arcs, t_id, st, a, b - 1);
    }
}

/// Counters only grow as more arcs are produced over.
pub proof fn lemma_produce_arcs_mono(
    arcs: Seq<crate::net_model::ArcV>,
    t_id: Seq<char>,
    st: RState,
    a: int,
    b: int,
)
    requires
        a <= b,
    ensures
        counts_le(produce_arcs(arcs, t_id, st, a).counts, produce_arcs(arcs, t_id, st, b).counts),
    decreases b - a,
{
    if a < b {
        lemma_produce_arcs_mono(arcs, t_id, st, a, b - 1);
    }
}

/// `marking_as_int` agrees with the association map of the same pairs.
pub proof fn lemma_marking_amap(pairs: Seq<(Seq<char>, u64)>, k: Seq<char>)
    ensures
        tokens_at(marking_as_int(pairs), k) == (if crate::assoc::amap(pairs).contains_key(k) {
            crate::assoc::amap(pairs)[k] as int
        } else {
            0
        }),
    decreases pairs.len(),
{
    if pairs.len() > 0 {
        lemma_marking_amap(pairs.drop_last(), k);
    }
}

// ─── executable replay ─────────────────────────────────────────────────────

/// Index of the first visible transition labelled `activity`, if any;
/// agrees with `find_trans`.
fn find_matching(net: &PetriNet, activity: &str) -> (r: Option<usize>)
    ensures
        match r {
            Some(i) => i < net@.transitions.len() && find_trans(net@.transitions, activity@)
                == Some(net@.transitions[i as int]),
            None => find_trans(net@.transitions, activity@) is None,
        },
{
    let n = net.transitions.len();
    proof {
        assert(net@.transitions.skip(0) =~= net@.transitions);
    }
    let mut i: usize = 0;
    while i < n
        invariant
            i <= n,
            n == net@.transitions.len(),
            find_trans(net@.transitions, activity@) == find_trans(
                net@.transitions.skip(i as int),
                activity@,
            ),
        decreases n - i,
    {
        let t = &net.transitions[i];
        proof {
            assert(net@.transitions.skip(i as int)[0] == net@.transitions[i as int]);
        }
        if !t.is_invisible && str_eq(t.label.as_str(), activity) {
            return Some(i);
        }
        proof {
            assert(net@.transitions.skip(i as int).drop_first() =~= net@.transitions.skip(
                i + 1 as int,
            ));
        }
        i += 1;
    }
    proof {
        assert(net@.transitions.skip(n as int).len() == 0);
    }
    None
}

/// Replay a single trace; returns (produced, consumed, missing, remaining).
fn replay_trace(net: &PetriNet, trace: &Trace) -> (r: (u64, u64, u64, u64))
    requires
        net.wf(),
        trace_counts(net@, trace@).produced <= u64::MAX,
        trace_counts(net@, trace@).consumed <= u64::MAX,
        trace_counts(net@, trace@).missing <= u64::MAX,
        trace_counts(net@, trace@).remaining <= u64::MAX,
        forall|p: Seq<char>| #[trigger] tokens_at(marking_as_int(net@.initial_marking), p)
            + trace_counts(net@, trace@).produced <= u64::MAX,
    ensures
        r.0 == trace_counts(net@, trace@).produced,
        r.1 == trace_counts(net@, trace@).consumed,
        r.2 == trace_counts(net@, trace@).missing,
        r.3 == trace_counts(net@, trace@).remaining,
{
    let ghost events = trace@.events;
    let ghost fin = trace_counts(net@, trace@);
    let mut marking = net.initial_marking.duplicate();
    proof {
        assert forall|k: Seq<char>| #[trigger] tokens_at(
            replay_events(net@, events, 0).marking,
            k,
        ) == marking.spec_count(k) by {
            lemma_marking_amap(net.initial_marking.pseq(), k);
        }
    }
    let mut produced: u64 = 0;
    let mut consumed: u64 = 0;
    let mut missing: u64 = 0;
    let mut remaining: u64 = 0;
    let n = trace.events.len();
    let mut e: usize = 0;
    while e < n
        invariant
            e <= n,
            n == events.len(),
            marking.wf(),
            forall|k: Seq<char>| #[trigger] tokens_at(
                replay_events(net@, events, e as int).marking,
                k,
            ) == marking.spec_count(k),
            produced == replay_events(net@, events, e as int).counts.produced,
            consumed == replay_events(net@, events, e as int).counts.consumed,
            missing == replay_events(net@, events, e as int).counts.missing,
            remaining == replay_events(net@, events, e as int).counts.remaining,
        decreases n - e,
    {
        let ghost st0 = replay_events(net@, events, e as int);
        let ghost act = events[e as int].activity;
        let ghost ev_st = replay_event(net@, st0, act);
        proof {
            lemma_replay_events_sound(net@, events, e as int);
            lemma_replay_event_sound(net@, st0, act);
            lemma_replay_events_mono(net@, events, e + 1 as int, n as int);
            assert(replay_events(net@, events, e + 1 as int) == ev_st);
            assert(counts_le(ev_st.counts, fin));
        }
        let activity = trace.events[e].activity.as_str();
        match find_matching(net, activity) {
            None => {
                missing = missing + 1;
            },
            Some(ti) => {
                let t_id = net.transitions[ti].id.clone();
                let ghost tid = t_id@;
                let ghost stc = consume_arcs(net@.arcs, tid, st0, net@.arcs.len() as int);
                proof {
                    assert(ev_st == produce_arcs(net@.arcs, tid, stc, net@.arcs.len() as int));
                    lemma_consume_arcs_sound(net@, tid, st0, net@.arcs.len() as int);
                    lemma_produce_arcs_sound(net@, tid, stc, net@.arcs.len() as int);
                }
                let na = net.arcs.len();
                let mut j: usize = 0;
                while j < na
                    invariant
                        j <= na,
                        na == net@.arcs.len(),
                        marking.wf(),
                        forall|k: Seq<char>| #[trigger] tokens_at(
                            consume_arcs(net@.arcs, tid, st0, j as int).marking,
                            k,
                        ) == marking.spec_count(k),
                        consumed == consume_arcs(net@.arcs, tid, st0, j as int).counts.consumed,
                        remaining == consume_arcs(net@.arcs, tid, st0, j as int).counts.remaining,
                        produced == st0.counts.produced,
                        missing == st0.counts.missing,
                    decreases na - j,
                {
                    let ghost stj = consume_arcs(net@.arcs, tid, st0, j as int);
                    proof {
                        lemma_consume_arcs_mono(net@.arcs, tid, st0, j + 1 as int, na as int);
                        assert(counts_le(stc.counts, ev_st.counts));
                    }
                    if str_eq(net.arcs[j].target.as_str(), t_id.as_str()) {
                        let mult = net.arcs[j].multiplicity as u64;
                        let avail = marking.count(net.arcs[j].source.as_str());
                        if avail >= mult {
                            consumed = consumed + mult;
                            let ghost oldm = marking;
                            marking.set(net.arcs[j].source.as_str(), avail - mult);
                            proof {
                                assert forall|k: Seq<char>| #[trigger] tokens_at(
                                    consume_arcs(net@.arcs, tid, st0, j + 1 as int).marking,
                                    k,
                                ) == marking.spec_count(k) by {
                                    assert(tokens_at(stj.marking, k) == oldm.spec_count(k));
                                }
                            }
                        } else {
                            remaining = remaining + (mult - avail);
                        }
                    } else {
                        proof {
                            assert(consume_arcs(net@.arcs, tid, st0, j + 1 as int) == stj);
                        }
                    }
                    j += 1;
                }
                // produce phase
                let mut j2: usize = 0;
                while j2 < na
                    invariant
                        j2 <= na,
                        na == net@.arcs.len(),
                        marking.wf(),
                        forall|k: Seq<char>| #[trigger] tokens_at(
                            produce_arcs(net@.arcs, tid, stc, j2 as int).marking,
                            k,
                        ) == marking.spec_count(k),
                        produced == produce_arcs(net@.arcs, tid, stc, j2 as int).counts.produced,
                        consumed == stc.counts.consumed,
                        missing == stc.counts.missing,
                        remaining == stc.counts.remaining,
                    decreases na - j2,
                {
                    let ghost stj = produce_arcs(net@.arcs, tid, stc, j2 as int);
                    proof {
                        lemma_produce_arcs_mono(net@.arcs, tid, stc, j2 + 1 as int, na as int);
                        lemma_produce_arcs_sound(net@, tid, stc, j2 as int);
                    }
                    if str_eq(net.arcs[j2].source.as_str(), t_id.as_str()) {
                        let mult = net.arcs[j2].multiplicity as u64;
                        let avail = marking.count(net.arcs[j2].target.as_str());
                        proof {
                            assert(tokens_at(stj.marking, net@.arcs[j2 as int].target)
                                <= tokens_at(marking_as_int(net@.initial_marking), net@.arcs[
                                j2 as int].target) + stj.counts.produced);
                            assert(stj.counts.produced + mult == produce_arcs(
                                net@.arcs,
                                tid,
                                stc,
                                j2 + 1 as int,
                            ).counts.produced);
                            assert(counts_le(
                                produce_arcs(net@.arcs, tid, stc, j2 + 1 as int).counts,
                                fin,
                            ));
                        }
                        produced = produced + mult;
                        let ghost oldm = marking;
                        marking.set(net.arcs[j2].target.as_str(), avail + mult);
                        proof {
                            assert forall|k: Seq<char>| #[trigger] tokens_at(
                                produce_arcs(net@.arcs, tid, stc, j2 + 1 as int).marking,
                                k,
                            ) == marking.spec_count(k) by {
                                assert(tokens_at(stj.marking, k) == oldm.spec_count(k));
                            }
                        }
                    } else {
                        proof {
                            assert(produce_arcs(net@.arcs, tid, stc, j2 + 1 as int) == stj);
                        }
                    }
                    j2 += 1;
                }
            },
        }
        e += 1;
    }
    (produced, consumed, missing, remaining)
}

/// Replaying an event whose activity matches no visible transition adds
/// exactly one missing event and leaves every counter and every place's
/// token count unchanged.
pub proof fn lemma_missing_activity(net: PetriNetV, st: RState, act: Seq<char>)
    requires
        find_trans(net.transitions, act) is None,
    ensures
        replay_event(net, st, act).counts.missing == st.counts.missing + 1,
        replay_event(net, st, act).counts.produced == st.counts.produced,
        replay_event(net, st, act).counts.consumed == st.counts.consumed,
        replay_event(net, st, act).counts.remaining == st.counts.remaining,
        forall|p: Seq<char>| #[trigger] tokens_at(replay_event(net, st, act).marking, p)
            == tokens_at(st.marking, p),
{
}

/// The events of a prefix whose activity some visible transition matches.
pub open spec fn kept_events(net: PetriNetV, events: Seq<EventV>, n: int) -> Seq<EventV>
    decreases n,
{
    if n <= 0 {
        seq![]
    } else {
        let prev = kept_events(net, events, n - 1);
        if find_trans(net.transitions, events[n - 1].activity) is Some {
            prev.push(events[n - 1])
        } else {
            prev
        }
    }
}

/// The events of a prefix that no visible transition matches.
pub open spec fn dropped_count(net: PetriNetV, events: Seq<EventV>, n: int) -> int
    decreases n,
{
    if n <= 0 {
        0
    } else {
        dropped_count(net, events, n - 1) + if find_trans(
            net.transitions,
            events[n - 1].activity,
        ) is Some {
            0int
        } else {
            1int
        }
    }
}

/// States that agree on everything but the missing counter stay in step
/// through arc consumption.
proof fn lemma_consume_arcs_missing_irrelevant(
    arcs: Seq<crate::net_model::ArcV>,
    t_id: Seq<char>,
    st1: RState,
    st2: RState,
    n: int,
)
    requires
        st1.marking == st2.marking,
        st1.counts.produced == st2.counts.produced,
        st1.counts.consumed == st2.counts.consumed,
        st1.counts.remaining == st2.counts.remaining,
    ensures
        ({
            let r1 = consume_arcs(arcs, t_id, st1, n);
            let r2 = consume_arcs(arcs, t_id, st2, n);
            &&& r1.marking == r2.marking
            &&& r1.counts.produced == r2.counts.produced
            &&& r1.counts.consumed == r2.counts.consumed
            &&& r1.counts.remaining == r2.counts.remaining
            &&& r1.counts.missing == st1.counts.missing
            &&& r2.counts.missing == st2.counts.missing
        }),
    decreases n,
{
    if n > 0 {
        lemma_consume_arcs_missing_irrelevant(arcs, t_id, st1, st2, n - 1);
    }
}

/// The same, through arc production.
proof fn lemma_produce_arcs_missing_irrelevant(
    arcs: Seq<crate::net_model::ArcV>,
    t_id: Seq<char>,
    st1: RState,
    st2: RState,
    n: int,
)
    requires
        st1.marking == st2.marking,
        st1.counts.produced == st2.counts.produced,
        st1.counts.consumed == st2.counts.consumed,
        st1.counts.remaining == st2.counts.remaining,
    ensures
        ({
            let r1 = produce_arcs(arcs, t_id, st1, n);
            let r2 = produce_arcs(arcs, t_id, st2, n);
            &&& r1.marking == r2.marking
            &&& r1.counts.produced == r2.counts.produced
            &&& r1.counts.consumed == r2.counts.consumed
            &&& r1.counts.remaining == r2.counts.remaining
            &&& r1.counts.missing == st1.counts.missing
            &&& r2.counts.missing == st2.counts.missing
        }),
    decreases n,
{
    if n > 0 {
        lemma_produce_arcs_missing_irrelevant(arcs, t_id, st1, st2, n - 1);
    }
}

/// A replay reads only the events before its cutoff.
proof fn lemma_replay_events_take(net: PetriNetV, s1: Seq<EventV>, s2: Seq<EventV>, k: int)
    requires
        0 <= k <= s1.len(),
        k <= s2.len(),
        s1.take(k) == s2.take(k),
    ensures
        replay_events(net, s1, k) == replay_events(net, s2, k),
    decreases k,
{
    if k > 0 {
        assert(s1.take(k - 1) =~= s1.take(k).take(k - 1));
        assert(s2.take(k - 1) =~= s2.take(k).take(k - 1));
        lemma_replay_events_take(net, s1, s2, k - 1);
        assert(s1[k - 1] == s1.take(k)[k - 1]);
        assert(s2[k - 1] == s2.take(k)[k - 1]);
    }
}

/// Unmatched events are inert: replaying a trace gives the same marking,
/// the same produced, consumed and remaining counters, and the same
/// deviation tokens as replaying only its matched events — plus one missing
/// count per unmatched event, and nothing else; the matched-only replay
/// misses nothing.
pub proof fn lemma_unmatched_events_only_missing(net: PetriNetV, events: Seq<EventV>, n: int)
    requires
        0 <= n <= events.len(),
    ensures
        ({
            let full = replay_events(net, events, n);
            let kept = kept_events(net, events, n);
            let filtered = replay_events(net, kept, kept.len() as int);
            &&& full.marking == filtered.marking
            &&& full.counts.produced == filtered.counts.produced
            &&& full.counts.consumed == filtered.counts.consumed
            &&& full.counts.remaining == filtered.counts.remaining
            &&& full.counts.missing == filtered.counts.missing + dropped_count(net, events, n)
            &&& filtered.counts.missing == 0
        }),
    decreases n,
{
    if n > 0 {
        lemma_unmatched_events_only_missing(net, events, n - 1);
        let kept_prev = kept_events(net, events, n - 1);
        let kept = kept_events(net, events, n);
        match find_trans(net.transitions, events[n - 1].activity) {
            None => {
                assert(kept == kept_prev);
            },
            Some(t) => {
                assert(kept == kept_prev.push(events[n - 1]));
                assert(kept.take(kept_prev.len() as int) =~= kept_prev.take(
                    kept_prev.len() as int,
                ));
                lemma_replay_events_take(net, kept, kept_prev, kept_prev.len() as int);
                assert(kept[kept.len() - 1] == events[n - 1]);
                let full_prev = replay_events(net, events, n - 1);
                let filt_prev = replay_events(net, kept_prev, kept_prev.len() as int);
                lemma_consume_arcs_missing_irrelevant(
                    net.arcs,
                    t.id,
                    full_prev,
                    filt_prev,
                    net.arcs.len() as int,
                );
                lemma_produce_arcs_missing_irrelevant(
                    net.arcs,
                    t.id,
                    consume_arcs(net.arcs, t.id, full_prev, net.arcs.len() as int),
                    consume_arcs(net.arcs, t.id, filt_prev, net.arcs.len() as int),
                    net.arcs.len() as int,
                );
            },
        }
    }
}

/// The same, stated for whole traces: a trace and its matched-only
/// restriction produce, consume and leave the same tokens; only `missing`
/// differs, by exactly the number of unmatched events.
pub proof fn lemma_unmatched_trace_counts(net: PetriNetV, tr: TraceV, tr2: TraceV)
    requires
        tr2.events == kept_events(net, tr.events, tr.events.len() as int),
    ensures
        trace_counts(net, tr2).produced == trace_counts(net, tr).produced,
        trace_counts(net, tr2).consumed == trace_counts(net, tr).consumed,
        trace_counts(net, tr2).remaining == trace_counts(net, tr).remaining,
        trace_counts(net, tr2).missing == 0,
        trace_counts(net, tr).missing == dropped_count(net, tr.events, tr.events.len() as int),
{
    lemma_unmatched_events_only_missing(net, tr.events, tr.events.len() as int);
}

// ─── fitness ───────────────────────────────────────────────────────────────

/// A conformance fitness value, kept as an exact rational.
pub struct Fitness {
    pub num: u128,
    pub den: u128,
}

/// The unclamped fitness rational: the average of the produced-side score
/// `1 - missing/produced` and the consumed-side score `1 - remaining/consumed`,
/// where a side with a zero denominator scores one — so a replay that
/// produced and consumed nothing scores a full one.
pub open spec fn spec_fitness_raw(c: Counts) -> (int, int) {
    if c.produced > 0 && c.consumed > 0 {
        (
            (c.produced - c.missing) * c.consumed + (c.consumed - c.remaining) * c.produced,
            2 * c.produced * c.consumed,
        )
    } else if c.produced > 0 {
        (2 * c.produced - c.missing, 2 * c.produced)
    } else if c.consumed > 0 {
        (2 * c.consumed - c.remaining, 2 * c.consumed)
    } else {
        (1int, 1int)
    }
}

/// The fitness rational, clamped into [0, 1].
pub open spec fn spec_fitness(c: Counts) -> (int, int) {
    let nd = spec_fitness_raw(c);
    if nd.0 < 0 {
        (0int, nd.1)
    } else if nd.0 > nd.1 {
        (nd.1, nd.1)
    } else {
        nd
    }
}

/// Fitness is always a fraction in [0, 1]: its denominator is positive and
/// its numerator lies between zero and the denominator, for every counter
/// assignment with non-negative produced and consumed totals.
pub proof fn lemma_fitness_bound(c: Counts)
    requires
        c.produced >= 0,
        c.consumed >= 0,
    ensures
        spec_fitness(c).1 > 0,
        0 <= spec_fitness(c).0 <= spec_fitness(c).1,
{
    if c.produced > 0 && c.consumed > 0 {
        assert(2 * c.produced * c.consumed > 0) by (nonlinear_arith)
            requires
                c.produced > 0,
                c.consumed > 0,
        ;
    }
}

/// The executable fitness computation, exact over 128-bit integers.
pub fn fitness_parts(produced: u64, consumed: u64, missing: u64, remaining: u64) -> (r: Fitness)
    requires
        produced < 0x8000_0000_0000_0000,
        consumed < 0x8000_0000_0000_0000,
    ensures
        ({
            let nd = spec_fitness(
                Counts {
                    produced: produced as int,
                    consumed: consumed as int,
                    missing: missing as int,
                    remaining: remaining as int,
                },
            );
            r.num == nd.0 && r.den == nd.1
        }),
{
    let ghost gc = Counts {
        produced: produced as int,
        consumed: consumed as int,
        missing: missing as int,
        remaining: remaining as int,
    };
    let p = produced as u128;
    let c = consumed as u128;
    let m = missing as u128;
    let rem = remaining as u128;
    if p > 0 && c > 0 {
        proof {
            assert(p * c < 0x4000_0000_0000_0000_0000_0000_0000_0000 && 2 * p * c
                < 0x8000_0000_0000_0000_0000_0000_0000_0000) by (nonlinear_arith)
                requires
                    p < 0x8000_0000_0000_0000,
                    c < 0x8000_0000_0000_0000,
            ;
        }
        let den = 2 * p * c;
        let pos1 = if p >= m {
            proof {
                assert((p - m) * c <= p * c) by (nonlinear_arith)
                    requires
                        0 <= m <= p,
                        c >= 0,
                ;
            }
            (p - m) * c
        } else {
            0
        };
        let neg1 = if p >= m {
            0
        } else {
            proof {
                assert((m - p) * c < 0x10000000000000000 * 0x8000_0000_0000_0000)
                    by (nonlinear_arith)
                    requires
                        0 <= m - p < 0x10000000000000000,
                        0 <= c < 0x8000_0000_0000_0000,
                ;
            }
            (m - p) * c
        };
        let pos2 = if c >= rem {
            proof {
                assert((c - rem) * p <= c * p) by (nonlinear_arith)
                    requires
                        0 <= rem <= c,
                        p >= 0,
                ;
                assert(c * p == p * c) by (nonlinear_arith);
            }
            (c - rem) * p
        } else {
            0
        };
        let neg2 = if c >= rem {
            0
        } else {
            proof {
                assert((rem - c) * p < 0x10000000000000000 * 0x8000_0000_0000_0000)
                    by (nonlinear_arith)
                    requires
                        0 <= rem - c < 0x10000000000000000,
                        0 <= p < 0x8000_0000_0000_0000,
                ;
            }
            (rem - c) * p
        };
        proof {
            assert(pos1 as int - neg1 as int == (gc.produced - gc.missing) * gc.consumed)
                by (nonlinear_arith)
                requires
                    p == gc.produced,
                    c == gc.consumed,
                    m == gc.missing,
                    pos1 as int == (if m <= p { (p as int - m as int) * (c as int) } else { 0int }),
                    neg1 as int == (if m <= p { 0int } else { (m as int - p as int) * (c as int) }),
                    p >= 0 && c >= 0 && m >= 0,
            ;
            assert(pos2 as int - neg2 as int == (gc.consumed - gc.remaining) * gc.produced)
                by (nonlinear_arith)
                requires
                    p == gc.produced,
                    c == gc.consumed,
                    rem == gc.remaining,
                    pos2 as int == (if rem <= c { (c as int - rem as int) * (p as int) } else { 0int }),
                    neg2 as int == (if rem <= c { 0int } else { (rem as int - c as int) * (p as int) }),
                    p >= 0 && c >= 0 && rem >= 0,
            ;
        }
        let pos = pos1 + pos2;
        let neg = neg1 + neg2;
        let num = if pos >= neg {
            let raw = pos - neg;
            if raw > den {
                den
            } else {
                raw
            }
        } else {
            0
        };
        proof {
            lemma_fitness_bound(gc);
        }
        Fitness { num, den }
    } else if p > 0 {
        let den = 2 * p;
        let num = if 2 * p >= m {
            2 * p - m
        } else {
            0
        };
        Fitness { num, den }
    } else if c > 0 {
        let den = 2 * c;
        let num = if 2 * c >= rem {
            2 * c - rem
        } else {
            0
        };
        Fitness { num, den }
    } else {
        Fitness { num: 1, den: 1 }
    }
}

/// Aggregated replay outcome over a whole log.
pub struct ReplayResult {
    /// Exact clamped fitness rational.
    pub fitness: Fitness,
    pub produced: u64,
    pub consumed: u64,
    pub missing: u64,
    pub remaining: u64,
    /// Case identifiers of traces with at least one missing or remaining
    /// token event, in log order.
    pub deviating_traces: Vec<String>,
}

/// Replay every trace of the log against the net and aggregate the four
/// counters, the deviating cases and the fitness score. Never fails: every
/// trace replays to completion, whatever the net.
pub fn token_based_replay(net: &PetriNet, log: &EventLog) -> (r: Result<ReplayResult, String>)
    requires
        net.wf(),
        replay_bounded(net@, log@.traces),
    ensures
        ({
            let total = log_counts(net@, log@.traces, log@.traces.len() as int);
            match r {
                Ok(res) => {
                    &&& res.produced == total.produced
                    &&& res.consumed == total.consumed
                    &&& res.missing == total.missing
                    &&& res.remaining == total.remaining
                    &&& res.deviating_traces@.map(|_i: int, s: String| s@) == deviating_cases(
                        net@,
                        log@.traces,
                        log@.traces.len() as int,
                    )
                    &&& (res.fitness.num as int, res.fitness.den as int) == spec_fitness(total)
                },
                Err(_) => false,
            }
        }),
{
    let ghost traces = log@.traces;
    let ghost total = log_counts(net@, traces, traces.len() as int);
    let mut produced: u64 = 0;
    let mut consumed: u64 = 0;
    let mut missing: u64 = 0;
    let mut remaining: u64 = 0;
    let mut deviating: Vec<String> = Vec::new();
    let n = log.traces.len();
    let mut i: usize = 0;
    while i < n
        invariant
            i <= n,
            n == traces.len(),
            produced == log_counts(net@, traces, i as int).produced,
            consumed == log_counts(net@, traces, i as int).consumed,
            missing == log_counts(net@, traces, i as int).missing,
            remaining == log_counts(net@, traces, i as int).remaining,
            deviating@.map(|_k: int, s: String| s@) == deviating_cases(net@, traces, i as int),
        decreases n - i,
    {
        let ghost before = log_counts(net@, traces, i as int);
        let ghost after = log_counts(net@, traces, i + 1 as int);
        let ghost ci = trace_counts(net@, traces[i as int]);
        proof {
            lemma_log_counts_nonneg(net@, traces, i as int);
            lemma_trace_counts_nonneg(net@, traces[i as int]);
            lemma_log_counts_mono(net@, traces, i + 1 as int, n as int);
            assert forall|p: Seq<char>| #[trigger] tokens_at(
                marking_as_int(net@.initial_marking),
                p,
            ) + ci.produced <= u64::MAX by {
                lemma_marking_as_int_nonneg(net@.initial_marking, p);
                assert(tokens_at(marking_as_int(net@.initial_marking), p) + total.produced
                    <= u64::MAX);
            }
        }
        let trace = &log.traces[i];
        let (p, c, m, rm) = replay_trace(net, trace);
        produced = produced + p;
        consumed = consumed + c;
        missing = missing + m;
        remaining = remaining + rm;
        if m > 0 || rm > 0 {
            deviating.push(trace.case_id.clone());
            proof {
                assert(deviating@.map(|_k: int, s: String| s@) =~= deviating_cases(
                    net@,
                    traces,
                    i + 1 as int,
                ));
            }
        } else {
            proof {
                assert(deviating@.map(|_k: int, s: String| s@) =~= deviating_cases(
                    net@,
                    traces,
                    i + 1 as int,
                ));
            }
        }
        i += 1;
    }
    let fitness = fitness_parts(produced, consumed, missing, remaining);
    Ok(
        ReplayResult {
            fitness,
            produced,
            consumed,
            missing,
            remaining,
            deviating_traces: deviating,
        },
    )
}

} // verus!
