//! Process discovery: directly-follows graph (DFG) mining and a simplified
//! DFG-to-net constructor.
//!
//! The DFG records, for every activity, how often it occurs, how often each
//! activity directly follows another within a case, and how often each
//! activity starts or ends a case. No thresholding or noise filtering is
//! applied; the empty log yields empty node and edge sets.

use vstd::prelude::*;

use crate::assoc::{Assoc, PairCounts};
use crate::log_model::{total_events_prefix, EventLog, EventV, TraceV};
use crate::net_model::{Arc, Marking, PetriNet, Place, Transition};

verus! {

/// Occurrences of activity `a` in one event sequence.
pub open spec fn cnt_events(events: Seq<EventV>, a: Seq<char>) -> int
    decreases events.len(),
{
    if events.len() == 0 {
        0
    } else {
        cnt_events(events.drop_last(), a) + if events.last().activity == a {
            1int
        } else {
            0int
        }
    }
}

/// Occurrences of activity `a` over the first `n` traces.
pub open spec fn cnt_act(traces: Seq<TraceV>, n: int, a: Seq<char>) -> int
    decreases n,
{
    if n <= 0 {
        0
    } else {
        cnt_act(traces, n - 1, a) + cnt_events(traces[n - 1].events, a)
    }
}

/// Adjacent pairs within one event sequence whose activities are `(x, y)`.
pub open spec fn cnt_pairs(events: Seq<EventV>, x: Seq<char>, y: Seq<char>) -> int
    decreases events.len(),
{
    if events.len() < 2 {
        0
    } else {
        cnt_pairs(events.drop_last(), x, y) + if events[events.len() - 2].activity == x
            && events.last().activity == y {
            1int
        } else {
            0int
        }
    }
}

/// Directly-follows count of `(x, y)` over the first `n` traces.
pub open spec fn cnt_df(traces: Seq<TraceV>, n: int, x: Seq<char>, y: Seq<char>) -> int
    decreases n,
{
    if n <= 0 {
        0
    } else {
        cnt_df(traces, n - 1, x, y) + cnt_pairs(traces[n - 1].events, x, y)
    }
}

/// How many of the first `n` traces are non-empty and start with `a`.
pub open spec fn cnt_start(traces: Seq<TraceV>, n: int, a: Seq<char>) -> int
    decreases n,
{
    if n <= 0 {
        0
    } else {
        cnt_start(traces, n - 1, a) + if traces[n - 1].events.len() > 0 && traces[n
            - 1].events[0].activity == a {
            1int
        } else {
            0int
        }
    }
}

/// How many of the first `n` traces are non-empty and end with `a`.
pub open spec fn cnt_end(traces: Seq<TraceV>, n: int, a: Seq<char>) -> int
    decreases n,
{
    if n <= 0 {
        0
    } else {
        cnt_end(traces, n - 1, a) + if traces[n - 1].events.len() > 0 && traces[n
            - 1].events.last().activity == a {
            1int
        } else {
            0int
        }
    }
}

/// How many of the first `n` traces are non-empty.
pub open spec fn nonempty_traces(traces: Seq<TraceV>, n: int) -> int
    decreases n,
{
    if n <= 0 {
        0
    } else {
        nonempty_traces(traces, n - 1) + if traces[n - 1].events.len() > 0 {
            1int
        } else {
            0int
        }
    }
}

/// Total number of adjacent pairs over the first `n` traces: every
/// non-empty trace of length `l` contributes `l - 1`.
pub open spec fn df_pairs_total(traces: Seq<TraceV>, n: int) -> int
    decreases n,
{
    if n <= 0 {
        0
    } else {
        df_pairs_total(traces, n - 1) + if traces[n - 1].events.len() > 0 {
            traces[n - 1].events.len() - 1
        } else {
            0int
        }
    }
}

/// The pair total is the event total minus the number of non-empty traces.
pub proof fn lemma_df_pairs_total(traces: Seq<TraceV>, n: int)
    ensures
        df_pairs_total(traces, n) == total_events_prefix(traces, n) - nonempty_traces(traces, n),
        0 <= nonempty_traces(traces, n),
        nonempty_traces(traces, n) <= total_events_prefix(traces, n),
        0 <= df_pairs_total(traces, n),
    decreases n,
{
    if n > 0 {
        lemma_df_pairs_total(traces, n - 1);
    }
}

// ─── bound lemmas ──────────────────────────────────────────────────────────

pub proof fn lemma_cnt_events_le(events: Seq<EventV>, a: Seq<char>)
    ensures
        0 <= cnt_events(events, a) <= events.len(),
    decreases events.len(),
{
    if events.len() > 0 {
        lemma_cnt_events_le(events.drop_last(), a);
    }
}

pub proof fn lemma_cnt_act_le(traces: Seq<TraceV>, n: int, a: Seq<char>)
    ensures
        0 <= cnt_act(traces, n, a) <= total_events_prefix(traces, n),
    decreases n,
{
    if n > 0 {
        lemma_cnt_act_le(traces, n - 1, a);
        lemma_cnt_events_le(traces[n - 1].events, a);
    }
}

pub proof fn lemma_cnt_pairs_le(events: Seq<EventV>, x: Seq<char>, y: Seq<char>)
    ensures
        0 <= cnt_pairs(events, x, y),
        events.len() == 0 ==> cnt_pairs(events, x, y) == 0,
        events.len() > 0 ==> cnt_pairs(events, x, y) <= events.len() - 1,
    decreases events.len(),
{
    if events.len() >= 2 {
        lemma_cnt_pairs_le(events.drop_last(), x, y);
    }
}

pub proof fn lemma_cnt_df_le(traces: Seq<TraceV>, n: int, x: Seq<char>, y: Seq<char>)
    ensures
        0 <= cnt_df(traces, n, x, y) <= df_pairs_total(traces, n),
    decreases n,
{
    if n > 0 {
        lemma_cnt_df_le(traces, n - 1, x, y);
        lemma_cnt_pairs_le(traces[n - 1].events, x, y);
    }
}

pub proof fn lemma_cnt_start_end_le(traces: Seq<TraceV>, n: int, a: Seq<char>)
    requires
        n >= 0,
    ensures
        0 <= cnt_start(traces, n, a) <= nonempty_traces(traces, n),
        0 <= cnt_end(traces, n, a) <= nonempty_traces(traces, n),
        nonempty_traces(traces, n) <= n,
    decreases n,
{
    if n > 0 {
        lemma_cnt_start_end_le(traces, n - 1, a);
    }
}

/// Prefix totals only grow.
pub proof fn lemma_prefix_totals_mono(traces: Seq<TraceV>, a: int, b: int)
    requires
        a <= b,
    ensures
        total_events_prefix(traces, a) <= total_events_prefix(traces, b),
        df_pairs_total(traces, a) <= df_pairs_total(traces, b),
        nonempty_traces(traces, a) <= nonempty_traces(traces, b),
    decreases b - a,
{
    if a < b {
        lemma_prefix_totals_mono(traces, a, b - 1);
    }
}

/// Counting one more event extends the per-activity count by the match.
proof fn lemma_cnt_events_take_step(events: Seq<EventV>, j: int)
    requires
        0 <= j < events.len(),
    ensures
        forall|a: Seq<char>| #[trigger] cnt_events(events.take(j + 1), a) == cnt_events(
            events.take(j),
            a,
        ) + if events[j].activity == a {
            1int
        } else {
            0int
        },
{
    assert(events.take(j + 1).drop_last() =~= events.take(j));
    assert(events.take(j + 1).last() == events[j]);
}

/// Counting one more adjacent pair extends the pair count by the match.
proof fn lemma_cnt_pairs_take_step(events: Seq<EventV>, j: int)
    requires
        1 <= j < events.len(),
    ensures
        forall|x: Seq<char>, y: Seq<char>| #[trigger] cnt_pairs(events.take(j + 1), x, y)
            == cnt_pairs(events.take(j), x, y) + if events[j - 1].activity == x
            && events[j].activity == y {
            1int
        } else {
            0int
        },
{
    assert(events.take(j + 1).drop_last() =~= events.take(j));
    assert(events.take(j + 1).last() == events[j]);
    assert(events.take(j + 1)[j - 1] == events[j - 1]);
}

// ─── table builders ────────────────────────────────────────────────────────

/// Count how often each activity occurs over the whole log.
pub(crate) fn count_activities(log: &EventLog) -> (t: Assoc<u64>)
    requires
        total_events_prefix(log@.traces, log@.traces.len() as int) <= u64::MAX,
    ensures
        t.wf(),
        forall|a: Seq<char>| #[trigger] t.spec_count(a) == cnt_act(
            log@.traces,
            log@.traces.len() as int,
            a,
        ),
        forall|a: Seq<char>| t.m().contains_key(a) ==> #[trigger] t.m()[a] >= 1,
{
    let ghost traces = log@.traces;
    let mut t: Assoc<u64> = Assoc::new();
    let n = log.traces.len();
    let mut i: usize = 0;
    while i < n
        invariant
            i <= n,
            n == traces.len(),
            t.wf(),
            total_events_prefix(traces, n as int) <= u64::MAX,
            forall|a: Seq<char>| #[trigger] t.spec_count(a) == cnt_act(traces, i as int, a),
            forall|a: Seq<char>| t.m().contains_key(a) ==> #[trigger] t.m()[a] >= 1,
        decreases n - i,
    {
        let ghost events = traces[i as int].events;
        let trace = &log.traces[i];
        let ne = trace.events.len();
        let mut j: usize = 0;
        proof {
            assert(events.take(0) =~= Seq::<EventV>::empty());
        }
        while j < ne
            invariant
                j <= ne,
                i < n,
                n == traces.len(),
                ne == events.len(),
                events == traces[i as int].events,
                t.wf(),
                total_events_prefix(traces, n as int) <= u64::MAX,
                forall|a: Seq<char>| #[trigger] t.spec_count(a) == cnt_act(traces, i as int, a)
                    + cnt_events(events.take(j as int), a),
                forall|a: Seq<char>| t.m().contains_key(a) ==> #[trigger] t.m()[a] >= 1,
            decreases ne - j,
        {
            let ghost act = events[j as int].activity;
            proof {
                lemma_cnt_act_le(traces, i as int, act);
                lemma_cnt_events_le(events.take(j as int), act);
                assert(events.take(j as int).len() == j);
                lemma_prefix_totals_mono(traces, i + 1 as int, n as int);
                assert(total_events_prefix(traces, i + 1 as int) == total_events_prefix(
                    traces,
                    i as int,
                ) + ne);
                lemma_cnt_events_take_step(events, j as int);
            }
            let ghost oldt = t;
            t.bump(trace.events[j].activity.as_str(), 1);
            proof {
                assert forall|a2: Seq<char>| #[trigger] t.spec_count(a2) == cnt_act(
                    traces,
                    i as int,
                    a2,
                ) + cnt_events(events.take(j + 1 as int), a2) by {
                    assert(oldt.spec_count(a2) == cnt_act(traces, i as int, a2) + cnt_events(
                        events.take(j as int),
                        a2,
                    ));
                }
            }
            j += 1;
        }
        proof {
            assert(events.take(ne as int) =~= events);
        }
        i += 1;
    }
    t
}

/// Count, for each activity, the non-empty traces it starts and ends.
fn count_starts_ends(log: &EventLog) -> (r: (Assoc<u64>, Assoc<u64>))
    ensures
        r.0.wf(),
        r.1.wf(),
        forall|a: Seq<char>| #[trigger] r.0.spec_count(a) == cnt_start(
            log@.traces,
            log@.traces.len() as int,
            a,
        ),
        forall|a: Seq<char>| #[trigger] r.1.spec_count(a) == cnt_end(
            log@.traces,
            log@.traces.len() as int,
            a,
        ),
        forall|a: Seq<char>| r.0.m().contains_key(a) ==> #[trigger] r.0.m()[a] >= 1,
        forall|a: Seq<char>| r.1.m().contains_key(a) ==> #[trigger] r.1.m()[a] >= 1,
        r.0.total() == nonempty_traces(log@.traces, log@.traces.len() as int),
        r.1.total() == nonempty_traces(log@.traces, log@.traces.len() as int),
{
    let ghost traces = log@.traces;
    let mut starts: Assoc<u64> = Assoc::new();
    let mut ends: Assoc<u64> = Assoc::new();
    let n = log.traces.len();
    let mut i: usize = 0;
    while i < n
        invariant
            i <= n,
            n == traces.len(),
            starts.wf(),
            ends.wf(),
            forall|a: Seq<char>| #[trigger] starts.spec_count(a) == cnt_start(traces, i as int, a),
            forall|a: Seq<char>| #[trigger] ends.spec_count(a) == cnt_end(traces, i as int, a),
            forall|a: Seq<char>| starts.m().contains_key(a) ==> #[trigger] starts.m()[a] >= 1,
            forall|a: Seq<char>| ends.m().contains_key(a) ==> #[trigger] ends.m()[a] >= 1,
            starts.total() == nonempty_traces(traces, i as int),
            ends.total() == nonempty_traces(traces, i as int),
        decreases n - i,
    {
        let trace = &log.traces[i];
        let ne = trace.events.len();
        if ne > 0 {
            proof {
                lemma_cnt_start_end_le(traces, i as int, traces[i as int].events[0].activity);
                lemma_cnt_start_end_le(
                    traces,
                    i as int,
                    traces[i as int].events.last().activity,
                );
            }
            let ghost olds = starts;
            starts.bump(trace.events[0].activity.as_str(), 1);
            let ghost olde = ends;
            ends.bump(trace.events[ne - 1].activity.as_str(), 1);
            proof {
                assert(traces[i as int].events.last() == traces[i as int].events[ne - 1]);
                assert forall|a2: Seq<char>| #[trigger] starts.spec_count(a2) == cnt_start(
                    traces,
                    i + 1 as int,
                    a2,
                ) by {
                    assert(olds.spec_count(a2) == cnt_start(traces, i as int, a2));
                }
                assert forall|a2: Seq<char>| #[trigger] ends.spec_count(a2) == cnt_end(
                    traces,
                    i + 1 as int,
                    a2,
                ) by {
                    assert(olde.spec_count(a2) == cnt_end(traces, i as int, a2));
                }
            }
        }
        i += 1;
    }
    (starts, ends)
}

/// Count the directly-follows frequency of each adjacent activity pair.
fn count_edges(log: &EventLog) -> (t: PairCounts)
    requires
        total_events_prefix(log@.traces, log@.traces.len() as int) <= u64::MAX,
    ensures
        t.wf(),
        forall|x: Seq<char>, y: Seq<char>| #[trigger] t.spec_count((x, y)) == cnt_df(
            log@.traces,
            log@.traces.len() as int,
            x,
            y,
        ),
        forall|k: (Seq<char>, Seq<char>)| t.m().contains_key(k) ==> #[trigger] t.m()[k] >= 1,
        t.total() == df_pairs_total(log@.traces, log@.traces.len() as int),
{
    let ghost traces = log@.traces;
    let mut t = PairCounts::new();
    let n = log.traces.len();
    proof {
        lemma_df_pairs_total(traces, n as int);
    }
    let mut i: usize = 0;
    while i < n
        invariant
            i <= n,
            n == traces.len(),
            t.wf(),
            df_pairs_total(traces, n as int) <= u64::MAX,
            forall|x: Seq<char>, y: Seq<char>| #[trigger] t.spec_count((x, y)) == cnt_df(
                traces,
                i as int,
                x,
                y,
            ),
            forall|k: (Seq<char>, Seq<char>)| t.m().contains_key(k) ==> #[trigger] t.m()[k] >= 1,
            t.total() == df_pairs_total(traces, i as int),
        decreases n - i,
    {
        let ghost events = traces[i as int].events;
        let trace = &log.traces[i];
        let ne = trace.events.len();
        if ne > 0 {
            let mut j: usize = 1;
            proof {
                assert(events.take(1).len() == 1);
            }
            while j < ne
                invariant
                    1 <= j <= ne,
                    i < n,
                    n == traces.len(),
                    ne == events.len(),
                    ne > 0,
                    events == traces[i as int].events,
                    t.wf(),
                    df_pairs_total(traces, n as int) <= u64::MAX,
                    forall|x: Seq<char>, y: Seq<char>| #[trigger] t.spec_count((x, y)) == cnt_df(
                        traces,
                        i as int,
                        x,
                        y,
                    ) + cnt_pairs(events.take(j as int), x, y),
                    forall|k: (Seq<char>, Seq<char>)| t.m().contains_key(k) ==> #[trigger] t.m()[k]
                        >= 1,
                    t.total() == df_pairs_total(traces, i as int) + j - 1,
                decreases ne - j,
            {
                let ghost x = events[j - 1 as int].activity;
                let ghost y = events[j as int].activity;
                proof {
                    lemma_cnt_df_le(traces, i as int, x, y);
                    lemma_cnt_pairs_le(events.take(j as int), x, y);
                    assert(events.take(j as int).len() == j);
                    lemma_prefix_totals_mono(traces, i + 1 as int, n as int);
                    assert(df_pairs_total(traces, i + 1 as int) == df_pairs_total(traces, i as int)
                        + (ne - 1));
                    lemma_cnt_pairs_take_step(events, j as int);
                }
                let ghost oldt = t;
                t.bump(
                    trace.events[j - 1].activity.as_str(),
                    trace.events[j].activity.as_str(),
                    1,
                );
                proof {
                    assert forall|x2: Seq<char>, y2: Seq<char>| #[trigger] t.spec_count((x2, y2))
                        == cnt_df(traces, i as int, x2, y2) + cnt_pairs(
                        events.take(j + 1 as int),
                        x2,
                        y2,
                    ) by {
                        assert(oldt.spec_count((x2, y2)) == cnt_df(traces, i as int, x2, y2)
                            + cnt_pairs(events.take(j as int), x2, y2));
                    }
                }
                j += 1;
            }
            proof {
                assert(events.take(ne as int) =~= events);
            }
        } else {
            proof {
                assert forall|x: Seq<char>, y: Seq<char>| #[trigger] cnt_pairs(events, x, y)
                    == 0 by {}
            }
        }
        i += 1;
    }
    t
}

// ─── the DFG result ────────────────────────────────────────────────────────

/// One activity node: its identifier and label are the activity name.
pub struct DfgNode {
    pub id: String,
    pub label: String,
    pub count: u64,
}

/// One directly-follows edge between two activity labels.
pub struct DfgEdge {
    pub source: String,
    pub target: String,
    pub count: u64,
}

/// The mined directly-follows graph.
pub struct DfgResult {
    pub nodes: Vec<DfgNode>,
    pub edges: Vec<DfgEdge>,
    pub start_activities: Assoc<u64>,
    pub end_activities: Assoc<u64>,
}

/// Sum of the edge frequencies.
pub open spec fn sum_edge_counts(s: Seq<DfgEdge>) -> int
    decreases s.len(),
{
    if s.len() == 0 {
        0
    } else {
        sum_edge_counts(s.drop_last()) + s.last().count
    }
}

proof fn lemma_sum_edges_pointwise(s: Seq<DfgEdge>, t: Seq<((Seq<char>, Seq<char>), u64)>)
    requires
        s.len() == t.len(),
        forall|k: int| 0 <= k < s.len() ==> (#[trigger] s[k]).count == t[k].1,
    ensures
        sum_edge_counts(s) == crate::assoc::vsum(t),
    decreases s.len(),
{
    if s.len() > 0 {
        lemma_sum_edges_pointwise(s.drop_last(), t.drop_last());
    }
}

/// Mine the directly-follows graph of a log: one node per activity with its
/// occurrence count, one edge per directly-follows pair with its frequency,
/// and the start- and end-activity frequencies of the non-empty traces. The
/// edge frequencies add up to the event total minus the number of non-empty
/// traces; the start (and end) frequencies add up to the number of non-empty
/// traces. Total over every log, including the empty one.
#[verifier::rlimit(100)]
#[verifier::spinoff_prover]
pub fn discover_dfg(log: &EventLog) -> (r: DfgResult)
    requires
        total_events_prefix(log@.traces, log@.traces.len() as int) <= u64::MAX,
    ensures
        ({
            let traces = log@.traces;
            let n = traces.len() as int;
            &&& forall|k: int|
                0 <= k < r.nodes@.len() ==> {
                    &&& (#[trigger] r.nodes@[k]).id@ == r.nodes@[k].label@
                    &&& r.nodes@[k].count == cnt_act(traces, n, r.nodes@[k].id@)
                    &&& cnt_act(traces, n, r.nodes@[k].id@) > 0
                }
            &&& forall|k: int, l: int|
                0 <= k < l < r.nodes@.len() ==> (#[trigger] r.nodes@[k]).id@ != (
                #[trigger] r.nodes@[l]).id@
            &&& forall|a: Seq<char>|
                cnt_act(traces, n, a) > 0 ==> exists|k: int|
                    0 <= k < r.nodes@.len() && (#[trigger] r.nodes@[k]).id@ == a
            &&& forall|k: int|
                0 <= k < r.edges@.len() ==> {
                    &&& (#[trigger] r.edges@[k]).count == cnt_df(
                        traces,
                        n,
                        r.edges@[k].source@,
                        r.edges@[k].target@,
                    )
                    &&& cnt_df(traces, n, r.edges@[k].source@, r.edges@[k].target@) > 0
                }
            &&& forall|k: int, l: int|
                0 <= k < l < r.edges@.len() ==> ((#[trigger] r.edges@[k]).source@, r.edges@[k].target@)
                    != ((#[trigger] r.edges@[l]).source@, r.edges@[l].target@)
            &&& forall|x: Seq<char>, y: Seq<char>|
                cnt_df(traces, n, x, y) > 0 ==> exists|k: int|
                    0 <= k < r.edges@.len() && (#[trigger] r.edges@[k]).source@ == x
                        && r.edges@[k].target@ == y
            &&& r.start_activities.wf()
            &&& r.end_activities.wf()
            &&& forall|a: Seq<char>| #[trigger] r.start_activities.spec_count(a) == cnt_start(
                traces,
                n,
                a,
            )
            &&& forall|a: Seq<char>| #[trigger] r.end_activities.spec_count(a) == cnt_end(
                traces,
                n,
                a,
            )
            &&& forall|a: Seq<char>|
                r.start_activities.m().contains_key(a) ==> #[trigger] r.start_activities.m()[a]
                    >= 1
            &&& forall|a: Seq<char>|
                r.end_activities.m().contains_key(a) ==> #[trigger] r.end_activities.m()[a] >= 1
            &&& sum_edge_counts(r.edges@) == total_events_prefix(traces, n) - nonempty_traces(
                traces,
                n,
            )
            &&& r.start_activities.total() == nonempty_traces(traces, n)
            &&& r.end_activities.total() == nonempty_traces(traces, n)
        }),
{
    let ghost traces = log@.traces;
    let ghost n = traces.len() as int;
    let acts = count_activities(log);
    let edge_table = count_edges(log);
    let (starts, ends) = count_starts_ends(log);

    let mut nodes: Vec<DfgNode> = Vec::new();
    let na = acts.pairs.len();
    let mut i: usize = 0;
    while i < na
        invariant
            i <= na,
            na == acts.pseq().len(),
            nodes@.len() == i,
            forall|k: int|
                0 <= k < i ==> (#[trigger] nodes@[k]).id@ == acts.pseq()[k].0 && nodes@[k].label@
                    == acts.pseq()[k].0 && nodes@[k].count == acts.pseq()[k].1,
        decreases na - i,
    {
        let id = acts.pairs[i].0.clone();
        let label = acts.pairs[i].0.clone();
        nodes.push(DfgNode { id, label, count: acts.pairs[i].1 });
        i += 1;
    }
    proof {
        assert forall|k: int| 0 <= k < nodes@.len() implies {
            &&& (#[trigger] nodes@[k]).id@ == nodes@[k].label@
            &&& nodes@[k].count == cnt_act(traces, n, nodes@[k].id@)
            &&& cnt_act(traces, n, nodes@[k].id@) > 0
        } by {
            acts.lemma_pairs(k);
            assert(acts.spec_count(nodes@[k].id@) == cnt_act(traces, n, nodes@[k].id@));
        }
        assert forall|k: int, l: int|
            0 <= k < l < nodes@.len() implies (#[trigger] nodes@[k]).id@ != (
        #[trigger] nodes@[l]).id@ by {
            assert(acts.pseq()[k].0 != acts.pseq()[l].0);
        }
        assert forall|a: Seq<char>| cnt_act(traces, n, a) > 0 implies exists|k: int|
            0 <= k < nodes@.len() && (#[trigger] nodes@[k]).id@ == a by {
            assert(acts.spec_count(a) == cnt_act(traces, n, a));
            assert(acts.m().contains_key(a));
            crate::assoc::lemma_amap_contains(acts.pseq(), a);
            let k = choose|k: int| 0 <= k < acts.pseq().len() && acts.pseq()[k].0 == a;
            assert(nodes@[k].id@ == a);
        }
    }

    let mut edges: Vec<DfgEdge> = Vec::new();
    let nedge = edge_table.pairs.len();
    let mut j: usize = 0;
    while j < nedge
        invariant
            j <= nedge,
            nedge == edge_table.pseq().len(),
            edges@.len() == j,
            forall|k: int|
                0 <= k < j ==> (#[trigger] edges@[k]).source@ == edge_table.pseq()[k].0.0
                    && edges@[k].target@ == edge_table.pseq()[k].0.1 && edges@[k].count
                    == edge_table.pseq()[k].1,
        decreases nedge - j,
    {
        let source = edge_table.pairs[j].0.clone();
        let target = edge_table.pairs[j].1.clone();
        edges.push(DfgEdge { source, target, count: edge_table.pairs[j].2 });
        j += 1;
    }
    proof {
        assert forall|k: int| 0 <= k < edges@.len() implies {
            &&& (#[trigger] edges@[k]).count == cnt_df(traces, n, edges@[k].source@, edges@[k].target@)
            &&& cnt_df(traces, n, edges@[k].source@, edges@[k].target@) > 0
        } by {
            edge_table.lemma_pairs(k);
            assert(edge_table.spec_count((edges@[k].source@, edges@[k].target@)) == cnt_df(
                traces,
                n,
                edges@[k].source@,
                edges@[k].target@,
            ));
        }
        assert forall|x: Seq<char>, y: Seq<char>| cnt_df(traces, n, x, y) > 0 implies exists|k: int|
            0 <= k < edges@.len() && (#[trigger] edges@[k]).source@ == x && edges@[k].target@
                == y by {
            assert(edge_table.spec_count((x, y)) == cnt_df(traces, n, x, y));
            assert(edge_table.m().contains_key((x, y)));
            crate::assoc::lemma_amap_contains(edge_table.pseq(), (x, y));
            let k = choose|k: int|
                0 <= k < edge_table.pseq().len() && edge_table.pseq()[k].0 == (x, y);
            assert(edges@[k].source@ == x && edges@[k].target@ == y);
        }
        assert forall|k: int, l: int| 0 <= k < l < edges@.len() implies ((
        #[trigger] edges@[k]).source@, edges@[k].target@) != ((#[trigger] edges@[l]).source@,
        edges@[l].target@) by {
            assert(edge_table.pseq()[k].0 != edge_table.pseq()[l].0);
        }
        lemma_sum_edges_pointwise(edges@, edge_table.pseq());
        lemma_df_pairs_total(traces, n);
    }

    let r = DfgResult { nodes, edges, start_activities: starts, end_activities: ends };
    proof {
        assert forall|a: Seq<char>| cnt_act(traces, n, a) > 0 implies exists|k: int|
            0 <= k < r.nodes@.len() && (#[trigger] r.nodes@[k]).id@ == a by {
            let k = choose|k: int| 0 <= k < nodes@.len() && (#[trigger] nodes@[k]).id@ == a;
            assert(r.nodes@[k].id@ == a);
        }
        assert forall|x: Seq<char>, y: Seq<char>| cnt_df(traces, n, x, y) > 0 implies exists|k: int|
            0 <= k < r.edges@.len() && (#[trigger] r.edges@[k]).source@ == x && r.edges@[k].target@
                == y by {
            let k = choose|k: int|
                0 <= k < edges@.len() && (#[trigger] edges@[k]).source@ == x && edges@[k].target@
                    == y;
            assert(r.edges@[k].source@ == x && r.edges@[k].target@ == y);
        }
    }
    r
}

// ─── simplified net construction ───────────────────────────────────────────

/// The transition identifier derived from an activity name.
pub open spec fn t_id_of(a: Seq<char>) -> Seq<char> {
    "t_"@ + a
}

/// The label of the intermediate place of a directly-follows pair.
pub open spec fn edge_label(x: Seq<char>, y: Seq<char>) -> Seq<char> {
    x + "->"@ + y
}

/// The arc goes from `src` to `tgt` with multiplicity one.
pub open spec fn arc_is(a: crate::net_model::ArcV, src: Seq<char>, tgt: Seq<char>) -> bool {
    a.source == src && a.target == tgt && a.multiplicity == 1
}

/// All elements of the sequence are distinct.
pub open spec fn distinct_elems<T>(s: Seq<T>) -> bool {
    forall|i: int, j: int| 0 <= i < j < s.len() ==> s[i] != s[j]
}

/// The full inventory of a discovered net, against three witness lists:
/// `starts` and `ends` are exactly the distinct start and end activities of
/// the log, `pairs` exactly its distinct directly-follows pairs. The places
/// are the source, the sink, and one labelled place per pair; the arcs are,
/// in order, one from the source per start activity, one into the sink per
/// end activity, and the two wiring each pair's place — nothing else.
pub open spec fn alpha_inventory(
    netv: crate::net_model::PetriNetV,
    traces: Seq<TraceV>,
    n: int,
    starts: Seq<Seq<char>>,
    ends: Seq<Seq<char>>,
    pairs: Seq<(Seq<char>, Seq<char>)>,
) -> bool {
    &&& distinct_elems(starts)
    &&& forall|k: int| 0 <= k < starts.len() ==> cnt_start(traces, n, #[trigger] starts[k]) > 0
    &&& forall|a: Seq<char>| cnt_start(traces, n, a) > 0 ==> starts.contains(a)
    &&& distinct_elems(ends)
    &&& forall|k: int| 0 <= k < ends.len() ==> cnt_end(traces, n, #[trigger] ends[k]) > 0
    &&& forall|a: Seq<char>| cnt_end(traces, n, a) > 0 ==> ends.contains(a)
    &&& distinct_elems(pairs)
    &&& forall|k: int|
        0 <= k < pairs.len() ==> cnt_df(traces, n, (#[trigger] pairs[k]).0, pairs[k].1) > 0
    &&& forall|x: Seq<char>, y: Seq<char>| cnt_df(traces, n, x, y) > 0 ==> pairs.contains((x, y))
    &&& netv.places.len() == 2 + pairs.len()
    &&& forall|k: int|
        0 <= k < pairs.len() ==> {
            &&& (#[trigger] netv.places[2 + k]).id == "p_"@ + crate::text::spec_dec(k)
            &&& netv.places[2 + k].label == edge_label(pairs[k].0, pairs[k].1)
        }
    &&& netv.arcs.len() == starts.len() + ends.len() + 2 * pairs.len()
    &&& forall|k: int|
        0 <= k < starts.len() ==> arc_is(netv.arcs[k], "p_source"@, t_id_of(#[trigger] starts[k]))
    &&& forall|k: int|
        0 <= k < ends.len() ==> arc_is(
            netv.arcs[starts.len() + k],
            t_id_of(#[trigger] ends[k]),
            "p_sink"@,
        )
    &&& forall|k: int|
        0 <= k < pairs.len() ==> {
            &&& arc_is(
                netv.arcs[starts.len() + ends.len() + 2 * k],
                t_id_of((#[trigger] pairs[k]).0),
                netv.places[2 + k].id,
            )
            &&& arc_is(
                netv.arcs[starts.len() + ends.len() + 2 * k + 1],
                netv.places[2 + k].id,
                t_id_of(pairs[k].1),
            )
        }
}

/// Build a Petri net from the directly-follows graph of the log: one visible
/// transition per activity, a source and a sink place, one intermediate
/// place per directly-follows pair wired from its source transition to its
/// target transition, the source place connected to every start activity and
/// every end activity connected to the sink. The initial marking puts one
/// token on the source place; the single candidate final marking puts one on
/// the sink. Never fails.
#[verifier::rlimit(100)]
#[verifier::spinoff_prover]
pub fn discover_alpha_ppp(log: &EventLog) -> (r: Result<PetriNet, String>)
    requires
        total_events_prefix(log@.traces, log@.traces.len() as int) <= u64::MAX,
    ensures
        ({
            let traces = log@.traces;
            let n = traces.len() as int;
            match r {
                Ok(net) => {
                    &&& net.wf()
                    &&& forall|k: int|
                        0 <= k < net.transitions@.len() ==> {
                            &&& !(#[trigger] net.transitions@[k]).is_invisible
                            &&& net.transitions@[k].id@ == t_id_of(net.transitions@[k].label@)
                            &&& cnt_act(traces, n, net.transitions@[k].label@) > 0
                        }
                    &&& forall|k: int, l: int|
                        0 <= k < l < net.transitions@.len() ==> (#[trigger] net.transitions@[k]).label@
                            != (#[trigger] net.transitions@[l]).label@
                    &&& forall|a: Seq<char>|
                        cnt_act(traces, n, a) > 0 ==> exists|k: int|
                            0 <= k < net.transitions@.len() && (#[trigger] net.transitions@[k]).label@
                                == a
                    &&& net.places@.len() >= 2
                    &&& net.places@[0].id@ == "p_source"@ && net.places@[0].label@ == "source"@
                    &&& net.places@[1].id@ == "p_sink"@ && net.places@[1].label@ == "sink"@
                    &&& exists|starts: Seq<Seq<char>>, ends: Seq<Seq<char>>, pairs: Seq<
                        (Seq<char>, Seq<char>),
                    >| #[trigger] alpha_inventory(net@, traces, n, starts, ends, pairs)
                    &&& net.initial_marking.pseq() == seq![("p_source"@, 1u64)]
                    &&& net.final_markings@.len() == 1
                    &&& net.final_markings@[0].pseq() == seq![("p_sink"@, 1u64)]
                },
                Err(_) => false,
            }
        }),
{
    let ghost traces = log@.traces;
    let ghost n = traces.len() as int;
    let dfg = discover_dfg(log);

    // one visible transition per activity
    let mut transitions: Vec<Transition> = Vec::new();
    let nn = dfg.nodes.len();
    let mut i: usize = 0;
    while i < nn
        invariant
            i <= nn,
            nn == dfg.nodes@.len(),
            transitions@.len() == i,
            forall|k: int|
                0 <= k < i ==> {
                    &&& !(#[trigger] transitions@[k]).is_invisible
                    &&& transitions@[k].label@ == dfg.nodes@[k].id@
                    &&& transitions@[k].id@ == t_id_of(dfg.nodes@[k].id@)
                },
        decreases nn - i,
    {
        let mut id = "t_".to_owned();
        id.append(dfg.nodes[i].id.as_str());
        transitions.push(
            Transition { id, label: dfg.nodes[i].id.clone(), is_invisible: false },
        );
        i += 1;
    }

    // source and sink places
    let mut places: Vec<Place> = Vec::new();
    places.push(Place { id: "p_source".to_owned(), label: "source".to_owned() });
    places.push(Place { id: "p_sink".to_owned(), label: "sink".to_owned() });

    // source feeds every start activity
    let mut arcs: Vec<Arc> = Vec::new();
    let ns = dfg.start_activities.pairs.len();
    let mut s: usize = 0;
    while s < ns
        invariant
            s <= ns,
            ns == dfg.start_activities.pseq().len(),
            arcs@.len() == s,
            forall|k: int|
                0 <= k < s ==> {
                    &&& (#[trigger] arcs@[k]).source@ == "p_source"@
                    &&& arcs@[k].target@ == t_id_of(dfg.start_activities.pseq()[k].0)
                    &&& arcs@[k].multiplicity == 1
                },
        decreases ns - s,
    {
        let mut target = "t_".to_owned();
        target.append(dfg.start_activities.pairs[s].0.as_str());
        arcs.push(Arc { source: "p_source".to_owned(), target, multiplicity: 1 });
        s += 1;
    }
    let ghost arcs_after_starts = arcs@;

    // every end activity feeds the sink
    let ne = dfg.end_activities.pairs.len();
    let mut e: usize = 0;
    while e < ne
        invariant
            e <= ne,
            ne == dfg.end_activities.pseq().len(),
            arcs@.len() == arcs_after_starts.len() + e,
            arcs@.take(arcs_after_starts.len() as int) == arcs_after_starts,
            forall|k: int|
                0 <= k < e ==> {
                    &&& (#[trigger] arcs@[arcs_after_starts.len() + k]).target@ == "p_sink"@
                    &&& arcs@[arcs_after_starts.len() + k].source@ == t_id_of(
                        dfg.end_activities.pseq()[k].0,
                    )
                    &&& arcs@[arcs_after_starts.len() + k].multiplicity == 1
                },
        decreases ne - e,
    {
        let mut source = "t_".to_owned();
        source.append(dfg.end_activities.pairs[e].0.as_str());
        arcs.push(Arc { source, target: "p_sink".to_owned(), multiplicity: 1 });
        proof {
            assert(arcs@.take(arcs_after_starts.len() as int) =~= arcs_after_starts);
        }
        e += 1;
    }
    let ghost arcs_after_ends = arcs@;

    // one intermediate place per directly-follows edge
    let nedge = dfg.edges.len();
    let mut w: usize = 0;
    while w < nedge
        invariant
            w <= nedge,
            nedge == dfg.edges@.len(),
            places@.len() == 2 + w,
            places@[0].id@ == "p_source"@ && places@[0].label@ == "source"@,
            places@[1].id@ == "p_sink"@ && places@[1].label@ == "sink"@,
            arcs@.len() == arcs_after_ends.len() + 2 * w,
            arcs@.take(arcs_after_ends.len() as int) == arcs_after_ends,
            forall|k: int|
                0 <= k < w ==> {
                    &&& (#[trigger] places@[2 + k]).id@ == "p_"@ + crate::text::spec_dec(k)
                    &&& places@[2 + k].label@ == edge_label(
                        dfg.edges@[k].source@,
                        dfg.edges@[k].target@,
                    )
                },
            forall|k: int|
                0 <= k < w ==> {
                    &&& (#[trigger] arcs@[arcs_after_ends.len() + 2 * k]).source@ == t_id_of(
                        dfg.edges@[k].source@,
                    )
                    &&& arcs@[arcs_after_ends.len() + 2 * k].target@ == places@[2 + k].id@
                    &&& arcs@[arcs_after_ends.len() + 2 * k].multiplicity == 1
                    &&& arcs@[arcs_after_ends.len() + 2 * k + 1].source@ == places@[2 + k].id@
                    &&& arcs@[arcs_after_ends.len() + 2 * k + 1].target@ == t_id_of(
                        dfg.edges@[k].target@,
                    )
                    &&& arcs@[arcs_after_ends.len() + 2 * k + 1].multiplicity == 1
                },
        decreases nedge - w,
    {
        let mut place_id = "p_".to_owned();
        place_id.append(crate::text::u64_to_string(w as u64).as_str());
        let mut label = dfg.edges[w].source.clone();
        label.append("->");
        label.append(dfg.edges[w].target.as_str());
        let mut t_src = "t_".to_owned();
        t_src.append(dfg.edges[w].source.as_str());
        let mut t_tgt = "t_".to_owned();
        t_tgt.append(dfg.edges[w].target.as_str());
        places.push(Place { id: place_id.clone(), label });
        arcs.push(Arc { source: t_src, target: place_id.clone(), multiplicity: 1 });
        arcs.push(Arc { source: place_id, target: t_tgt, multiplicity: 1 });
        proof {
            assert(arcs@.take(arcs_after_ends.len() as int) =~= arcs_after_ends);
        }
        w += 1;
    }

    let mut im_pairs: Vec<(String, u64)> = Vec::new();
    im_pairs.push(("p_source".to_owned(), 1));
    let initial_marking: Marking = Assoc { pairs: im_pairs };
    let mut fm_pairs: Vec<(String, u64)> = Vec::new();
    fm_pairs.push(("p_sink".to_owned(), 1));
    let final_marking: Marking = Assoc { pairs: fm_pairs };
    let mut final_markings: Vec<Marking> = Vec::new();
    final_markings.push(final_marking);

    proof {
        assert(initial_marking.pseq() =~= seq![("p_source"@, 1u64)]);
        assert(final_markings@[0].pseq() =~= seq![("p_sink"@, 1u64)]);
    }

    let net = PetriNet { places, transitions, arcs, initial_marking, final_markings };

    proof {
        let tr = net.transitions@;
        assert forall|a: Seq<char>| cnt_act(traces, n, a) > 0 implies exists|k: int|
            0 <= k < tr.len() && (#[trigger] tr[k]).label@ == a by {
            let k = choose|k: int| 0 <= k < dfg.nodes@.len() && (#[trigger] dfg.nodes@[k]).id@ == a;
            assert(tr[k].label@ == a);
        }
        // the inventory witnesses: the start and end activity keys and the
        // directly-follows pairs of the mined graph
        let sk = dfg.start_activities.keys();
        let ek = dfg.end_activities.keys();
        let pr = dfg.edges@.map(|_i: int, e: DfgEdge| (e.source@, e.target@));
        let ls = arcs_after_starts.len() as int;
        let le = arcs_after_ends.len() as int;

        assert forall|i: int, j: int| 0 <= i < j < sk.len() implies sk[i] != sk[j] by {
            assert(dfg.start_activities.pseq()[i].0 != dfg.start_activities.pseq()[j].0);
        }
        assert forall|k: int| 0 <= k < sk.len() implies cnt_start(traces, n, #[trigger] sk[k])
            > 0 by {
            dfg.start_activities.lemma_pairs(k);
            assert(dfg.start_activities.spec_count(sk[k]) == cnt_start(traces, n, sk[k]));
        }
        assert forall|a: Seq<char>| cnt_start(traces, n, a) > 0 implies sk.contains(a) by {
            assert(dfg.start_activities.spec_count(a) == cnt_start(traces, n, a));
            crate::assoc::lemma_amap_contains(dfg.start_activities.pseq(), a);
            let k = choose|k: int|
                0 <= k < dfg.start_activities.pseq().len() && dfg.start_activities.pseq()[k].0
                    == a;
            assert(sk[k] == a);
        }
        assert forall|i: int, j: int| 0 <= i < j < ek.len() implies ek[i] != ek[j] by {
            assert(dfg.end_activities.pseq()[i].0 != dfg.end_activities.pseq()[j].0);
        }
        assert forall|k: int| 0 <= k < ek.len() implies cnt_end(traces, n, #[trigger] ek[k])
            > 0 by {
            dfg.end_activities.lemma_pairs(k);
            assert(dfg.end_activities.spec_count(ek[k]) == cnt_end(traces, n, ek[k]));
        }
        assert forall|a: Seq<char>| cnt_end(traces, n, a) > 0 implies ek.contains(a) by {
            assert(dfg.end_activities.spec_count(a) == cnt_end(traces, n, a));
            crate::assoc::lemma_amap_contains(dfg.end_activities.pseq(), a);
            let k = choose|k: int|
                0 <= k < dfg.end_activities.pseq().len() && dfg.end_activities.pseq()[k].0 == a;
            assert(ek[k] == a);
        }
        assert forall|i: int, j: int| 0 <= i < j < pr.len() implies pr[i] != pr[j] by {
            assert((dfg.edges@[i].source@, dfg.edges@[i].target@) != (
                dfg.edges@[j].source@,
                dfg.edges@[j].target@,
            ));
        }
        assert forall|k: int|
            0 <= k < pr.len() implies cnt_df(traces, n, (#[trigger] pr[k]).0, pr[k].1) > 0 by {
            assert(cnt_df(traces, n, dfg.edges@[k].source@, dfg.edges@[k].target@) > 0);
        }
        assert forall|x: Seq<char>, y: Seq<char>| cnt_df(traces, n, x, y) > 0 implies pr.contains(
            (x, y),
        ) by {
            let k = choose|k: int|
                0 <= k < dfg.edges@.len() && (#[trigger] dfg.edges@[k]).source@ == x
                    && dfg.edges@[k].target@ == y;
            assert(pr[k] == (x, y));
        }
        assert forall|k: int| 0 <= k < pr.len() implies {
            &&& (#[trigger] net@.places[2 + k]).id == "p_"@ + crate::text::spec_dec(k)
            &&& net@.places[2 + k].label == edge_label(pr[k].0, pr[k].1)
        } by {
            assert(places@[2 + k].id@ == "p_"@ + crate::text::spec_dec(k));
            assert(places@[2 + k].label@ == edge_label(dfg.edges@[k].source@, dfg.edges@[k].target@));
        }
        assert(sk.len() == ls && ek.len() == le - ls && pr.len() == dfg.edges@.len());
        assert(net@.arcs.len() == sk.len() + ek.len() + 2 * pr.len());
        assert forall|k: int| 0 <= k < sk.len() implies arc_is(
            net@.arcs[k],
            "p_source"@,
            t_id_of(#[trigger] sk[k]),
        ) by {
            assert(net.arcs@.take(le)[k] == arcs_after_ends[k]);
            assert(arcs_after_ends.take(ls)[k] == arcs_after_starts[k]);
            assert(arcs_after_starts[k].source@ == "p_source"@ && arcs_after_starts[k].target@
                == t_id_of(dfg.start_activities.pseq()[k].0));
        }
        assert forall|k: int| 0 <= k < ek.len() implies arc_is(
            net@.arcs[sk.len() + k],
            t_id_of(#[trigger] ek[k]),
            "p_sink"@,
        ) by {
            assert(net.arcs@.take(le)[ls + k] == arcs_after_ends[ls + k]);
            assert(arcs_after_ends[ls + k].target@ == "p_sink"@ && arcs_after_ends[ls + k].source@
                == t_id_of(dfg.end_activities.pseq()[k].0));
        }
        assert forall|k: int| 0 <= k < pr.len() implies {
            &&& arc_is(
                net@.arcs[sk.len() + ek.len() + 2 * k],
                t_id_of((#[trigger] pr[k]).0),
                net@.places[2 + k].id,
            )
            &&& arc_is(
                net@.arcs[sk.len() + ek.len() + 2 * k + 1],
                net@.places[2 + k].id,
                t_id_of(pr[k].1),
            )
        } by {
            assert(arcs@[le + 2 * k].source@ == t_id_of(dfg.edges@[k].source@) && arcs@[le + 2
                * k].target@ == places@[2 + k].id@ && arcs@[le + 2 * k].multiplicity == 1);
            assert(arcs@[le + 2 * k + 1].source@ == places@[2 + k].id@ && arcs@[le + 2 * k
                + 1].target@ == t_id_of(dfg.edges@[k].target@) && arcs@[le + 2 * k
                + 1].multiplicity == 1);
        }
        assert(alpha_inventory(net@, traces, n, sk, ek, pr));
    }

    Ok(net)
}

} // verus!
