//! Performance statistics over an event log.
//!
//! Every average is kept as an exact sum together with its sample count;
//! a caller that wants a floating-point mean or a throughput divides at the
//! boundary. Per activity, a duration sample is the gap from an event to
//! the next event of the same trace (both ends timestamped, negative gaps
//! discarded); per trace, the flow time is last minus first timestamp,
//! discarded when negative or untimed. This analysis never fails; untimed
//! events simply contribute no samples.

use vstd::prelude::*;

use crate::assoc::Assoc;
use crate::discovery::{cnt_act, cnt_events};
use crate::log_model::{total_events_prefix, EventLog, EventV, TraceV};

verus! {

/// Exact statistics for one activity.
#[derive(Clone, Copy)]
pub struct ActivityStats {
    /// Occurrences across the whole log.
    pub count: u64,
    /// Number of valid duration samples.
    pub duration_count: u64,
    /// Sum of the duration samples, in milliseconds.
    pub duration_sum_ms: i128,
    /// Smallest sample, or zero when there is none.
    pub min_duration_ms: i128,
    /// Largest sample, or zero when there is none.
    pub max_duration_ms: i128,
}

/// Exact statistics for a whole log.
pub struct PerformanceStats {
    pub trace_count: usize,
    pub total_events: usize,
    pub min_trace_length: usize,
    pub max_trace_length: usize,
    /// Sum of the valid case flow times, in milliseconds.
    pub flow_time_sum_ms: i128,
    /// Number of traces contributing a flow time.
    pub flow_time_count: u64,
    pub activity_stats: Assoc<ActivityStats>,
}

/// The duration sample between two adjacent events, if both are timestamped
/// and the gap is non-negative.
pub open spec fn gap(e1: EventV, e2: EventV) -> Option<int> {
    match (e1.timestamp, e2.timestamp) {
        (Some(a), Some(b)) => if b - a >= 0 {
            Some(b - a)
        } else {
            None
        },
        _ => None,
    }
}

/// Number of duration samples of activity `a` within one trace.
pub open spec fn dcount_events(events: Seq<EventV>, a: Seq<char>) -> int
    decreases events.len(),
{
    if events.len() < 2 {
        0
    } else {
        dcount_events(events.drop_last(), a) + if events[events.len() - 2].activity == a && gap(
            events[events.len() - 2],
            events.last(),
        ) is Some {
            1int
        } else {
            0int
        }
    }
}

/// Sum of the duration samples of activity `a` within one trace.
pub open spec fn dsum_events(events: Seq<EventV>, a: Seq<char>) -> int
    decreases events.len(),
{
    if events.len() < 2 {
        0
    } else {
        dsum_events(events.drop_last(), a) + (if events[events.len() - 2].activity == a {
            match gap(events[events.len() - 2], events.last()) {
                Some(d) => d,
                None => 0,
            }
        } else {
            0int
        })
    }
}

pub open spec fn opt_min(x: Option<int>, y: Option<int>) -> Option<int> {
    match (x, y) {
        (Some(a), Some(b)) => if a <= b {
            Some(a)
        } else {
            Some(b)
        },
        (Some(a), None) => Some(a),
        (None, b) => b,
    }
}

pub open spec fn opt_max(x: Option<int>, y: Option<int>) -> Option<int> {
    match (x, y) {
        (Some(a), Some(b)) => if a >= b {
            Some(a)
        } else {
            Some(b)
        },
        (Some(a), None) => Some(a),
        (None, b) => b,
    }
}

/// Smallest duration sample of activity `a` within one trace.
pub open spec fn dmin_events(events: Seq<EventV>, a: Seq<char>) -> Option<int>
    decreases events.len(),
{
    if events.len() < 2 {
        None
    } else {
        opt_min(
            dmin_events(events.drop_last(), a),
            if events[events.len() - 2].activity == a {
                gap(events[events.len() - 2], events.last())
            } else {
                None
            },
        )
    }
}

/// Largest duration sample of activity `a` within one trace.
pub open spec fn dmax_events(events: Seq<EventV>, a: Seq<char>) -> Option<int>
    decreases events.len(),
{
    if events.len() < 2 {
        None
    } else {
        opt_max(
            dmax_events(events.drop_last(), a),
            if events[events.len() - 2].activity == a {
                gap(events[events.len() - 2], events.last())
            } else {
                None
            },
        )
    }
}

// log-level aggregates over the first `n` traces

pub open spec fn dcount(traces: Seq<TraceV>, n: int, a: Seq<char>) -> int
    decreases n,
{
    if n <= 0 {
        0
    } else {
        dcount(traces, n - 1, a) + dcount_events(traces[n - 1].events, a)
    }
}

pub open spec fn dsum(traces: Seq<TraceV>, n: int, a: Seq<char>) -> int
    decreases n,
{
    if n <= 0 {
        0
    } else {
        dsum(traces, n - 1, a) + dsum_events(traces[n - 1].events, a)
    }
}

pub open spec fn dmin(traces: Seq<TraceV>, n: int, a: Seq<char>) -> Option<int>
    decreases n,
{
    if n <= 0 {
        None
    } else {
        opt_min(dmin(traces, n - 1, a), dmin_events(traces[n - 1].events, a))
    }
}

pub open spec fn dmax(traces: Seq<TraceV>, n: int, a: Seq<char>) -> Option<int>
    decreases n,
{
    if n <= 0 {
        None
    } else {
        opt_max(dmax(traces, n - 1, a), dmax_events(traces[n - 1].events, a))
    }
}

/// The flow time of one trace: last minus first timestamp, when both exist
/// and the difference is non-negative.
pub open spec fn flow_time(tr: TraceV) -> Option<int> {
    if tr.events.len() == 0 {
        None
    } else {
        match (tr.events[0].timestamp, tr.events.last().timestamp) {
            (Some(a), Some(b)) => if b - a >= 0 {
                Some(b - a)
            } else {
                None
            },
            _ => None,
        }
    }
}

pub open spec fn fsum(traces: Seq<TraceV>, n: int) -> int
    decreases n,
{
    if n <= 0 {
        0
    } else {
        fsum(traces, n - 1) + match flow_time(traces[n - 1]) {
            Some(d) => d,
            None => 0,
        }
    }
}

pub open spec fn fcount(traces: Seq<TraceV>, n: int) -> int
    decreases n,
{
    if n <= 0 {
        0
    } else {
        fcount(traces, n - 1) + if flow_time(traces[n - 1]) is Some {
            1int
        } else {
            0int
        }
    }
}

/// Smallest event count of the first `n` traces (zero when there are none).
pub open spec fn min_len(traces: Seq<TraceV>, n: int) -> int
    decreases n,
{
    if n <= 0 {
        0
    } else if n == 1 {
        traces[0].events.len() as int
    } else if traces[n - 1].events.len() < min_len(traces, n - 1) {
        traces[n - 1].events.len() as int
    } else {
        min_len(traces, n - 1)
    }
}

/// Largest event count of the first `n` traces (zero when there are none).
pub open spec fn max_len(traces: Seq<TraceV>, n: int) -> int
    decreases n,
{
    if n <= 0 {
        0
    } else if traces[n - 1].events.len() > max_len(traces, n - 1) {
        traces[n - 1].events.len() as int
    } else {
        max_len(traces, n - 1)
    }
}

/// What the statistics of one activity must be.
pub open spec fn stats_ok(traces: Seq<TraceV>, n: int, a: Seq<char>, st: ActivityStats) -> bool {
    &&& st.count == cnt_act(traces, n, a)
    &&& st.duration_count == dcount(traces, n, a)
    &&& st.duration_sum_ms == dsum(traces, n, a)
    &&& st.min_duration_ms == (match dmin(traces, n, a) {
        Some(d) => d,
        None => 0,
    })
    &&& st.max_duration_ms == (match dmax(traces, n, a) {
        Some(d) => d,
        None => 0,
    })
}

/// What 128-bit sums force: the duration and flow-time totals fit.
pub open spec fn perf_bounded(traces: Seq<TraceV>) -> bool {
    &&& fsum(traces, traces.len() as int) <= i128::MAX
    &&& forall|a: Seq<char>| #[trigger] dsum(traces, traces.len() as int, a) <= i128::MAX
}

// ─── lemmas ────────────────────────────────────────────────────────────────

/// Per-trace duration aggregates are non-negative and bounded by the number
/// of events; minima and maxima exist exactly when samples do.
pub proof fn lemma_dur_events_bounds(events: Seq<EventV>, a: Seq<char>)
    ensures
        0 <= dcount_events(events, a),
        events.len() == 0 ==> dcount_events(events, a) == 0,
        events.len() > 0 ==> dcount_events(events, a) <= events.len() - 1,
        0 <= dsum_events(events, a),
        dcount_events(events, a) == 0 ==> dsum_events(events, a) == 0,
        dmin_events(events, a) is Some <==> dcount_events(events, a) > 0,
        dmax_events(events, a) is Some <==> dcount_events(events, a) > 0,
    decreases events.len(),
{
    if events.len() >= 2 {
        lemma_dur_events_bounds(events.drop_last(), a);
    }
}

/// Log-level duration aggregates are non-negative; counts are bounded by
/// the event total; minima and maxima exist exactly when samples do.
pub proof fn lemma_dur_bounds(traces: Seq<TraceV>, n: int, a: Seq<char>)
    ensures
        0 <= dcount(traces, n, a) <= total_events_prefix(traces, n),
        0 <= dsum(traces, n, a),
        dcount(traces, n, a) == 0 ==> dsum(traces, n, a) == 0,
        dmin(traces, n, a) is Some <==> dcount(traces, n, a) > 0,
        dmax(traces, n, a) is Some <==> dcount(traces, n, a) > 0,
    decreases n,
{
    if n > 0 {
        lemma_dur_bounds(traces, n - 1, a);
        lemma_dur_events_bounds(traces[n - 1].events, a);
    }
}

/// Within one trace, processing a prefix of the pairs never overshoots the
/// whole trace's aggregates.
pub proof fn lemma_dur_events_take(events: Seq<EventV>, j: int, a: Seq<char>)
    requires
        0 <= j <= events.len(),
    ensures
        dcount_events(events.take(j), a) <= dcount_events(events, a),
        dsum_events(events.take(j), a) <= dsum_events(events, a),
    decreases events.len(),
{
    lemma_dur_events_bounds(events, a);
    if j == events.len() {
        assert(events.take(j) =~= events);
    } else if events.len() > 0 {
        assert(events.take(j) =~= events.drop_last().take(j));
        lemma_dur_events_take(events.drop_last(), j, a);
    }
}

/// Log-level duration aggregates only grow with more traces.
pub proof fn lemma_dur_mono(traces: Seq<TraceV>, i: int, n: int, a: Seq<char>)
    requires
        i <= n,
    ensures
        dcount(traces, i, a) <= dcount(traces, n, a),
        dsum(traces, i, a) <= dsum(traces, n, a),
    decreases n - i,
{
    if i < n {
        lemma_dur_mono(traces, i, n - 1, a);
        lemma_dur_events_bounds(traces[n - 1].events, a);
    }
}

/// Flow-time aggregates are non-negative and bounded by the trace count.
pub proof fn lemma_flow_nonneg(traces: Seq<TraceV>, n: int)
    requires
        n >= 0,
    ensures
        0 <= fsum(traces, n),
        0 <= fcount(traces, n) <= n,
    decreases n,
{
    if n > 0 {
        lemma_flow_nonneg(traces, n - 1);
    }
}

/// Flow-time aggregates only grow with more traces.
pub proof fn lemma_flow_bounds(traces: Seq<TraceV>, i: int, n: int)
    requires
        0 <= i <= n,
    ensures
        0 <= fsum(traces, i) <= fsum(traces, n),
        0 <= fcount(traces, i) <= fcount(traces, n),
        fcount(traces, n) <= n,
    decreases n - i,
{
    lemma_flow_nonneg(traces, i);
    lemma_flow_nonneg(traces, n);
    if i < n {
        lemma_flow_bounds(traces, i, n - 1);
    }
}

/// Extending the processed pair prefix by one.
proof fn lemma_dur_take_step(events: Seq<EventV>, j: int)
    requires
        1 <= j < events.len(),
    ensures
        forall|a: Seq<char>|
            {
                let sample = if events[j - 1].activity == a {
                    gap(events[j - 1], events[j])
                } else {
                    None
                };
                &&& #[trigger] dcount_events(events.take(j + 1), a) == dcount_events(
                    events.take(j),
                    a,
                ) + (if sample is Some {
                    1int
                } else {
                    0int
                })
                &&& dsum_events(events.take(j + 1), a) == dsum_events(events.take(j), a) + (
                match sample {
                    Some(d) => d,
                    None => 0,
                })
                &&& dmin_events(events.take(j + 1), a) == opt_min(
                    dmin_events(events.take(j), a),
                    sample,
                )
                &&& dmax_events(events.take(j + 1), a) == opt_max(
                    dmax_events(events.take(j), a),
                    sample,
                )
            },
{
    assert(events.take(j + 1).drop_last() =~= events.take(j));
    assert(events.take(j + 1).last() == events[j]);
    assert(events.take(j + 1)[j - 1] == events[j - 1]);
}

// ─── executable computation ────────────────────────────────────────────────

/// Running duration aggregate of one activity.
#[derive(Clone, Copy)]
struct DurAgg {
    count: u64,
    sum: i128,
    min: i128,
    max: i128,
}

/// What a duration aggregate states over the first `n` traces.
spec fn agg_ok(traces: Seq<TraceV>, n: int, a: Seq<char>, g: DurAgg) -> bool {
    &&& g.count == dcount(traces, n, a)
    &&& g.sum == dsum(traces, n, a)
    &&& Some(g.min as int) == dmin(traces, n, a)
    &&& Some(g.max as int) == dmax(traces, n, a)
}

/// Collect the duration aggregates of every activity with a sample.
fn duration_table(log: &EventLog) -> (t: Assoc<DurAgg>)
    requires
        total_events_prefix(log@.traces, log@.traces.len() as int) <= usize::MAX,
        perf_bounded(log@.traces),
    ensures
        t.wf(),
        forall|a: Seq<char>|
            t.m().contains_key(a) <==> dcount(log@.traces, log@.traces.len() as int, a) > 0,
        forall|a: Seq<char>|
            t.m().contains_key(a) ==> agg_ok(
                log@.traces,
                log@.traces.len() as int,
                a,
                #[trigger] t.m()[a],
            ),
{
    let ghost traces = log@.traces;
    let ghost nn = traces.len() as int;
    let mut t: Assoc<DurAgg> = Assoc::new();
    let n = log.traces.len();
    let mut i: usize = 0;
    while i < n
        invariant
            i <= n,
            n == traces.len(),
            total_events_prefix(traces, n as int) <= usize::MAX,
            perf_bounded(traces),
            t.wf(),
            forall|a: Seq<char>| t.m().contains_key(a) <==> dcount(traces, i as int, a) > 0,
            forall|a: Seq<char>|
                t.m().contains_key(a) ==> agg_ok(traces, i as int, a, #[trigger] t.m()[a]),
        decreases n - i,
    {
        let ghost events = traces[i as int].events;
        let trace = &log.traces[i];
        let ne = trace.events.len();
        if ne > 0 {
            let mut j: usize = 1;
            proof {
                assert(events.take(1).len() == 1);
            }
            while j < ne
                invariant
                    1 <= j <= ne,
                    i < n,
                    n == traces.len(),
                    ne == events.len(),
                    events == traces[i as int].events,
                    total_events_prefix(traces, n as int) <= usize::MAX,
                    perf_bounded(traces),
                    t.wf(),
                    forall|a: Seq<char>|
                        t.m().contains_key(a) <==> dcount(traces, i as int, a) + dcount_events(
                            events.take(j as int),
                            a,
                        ) > 0,
                    forall|a: Seq<char>|
                        t.m().contains_key(a) ==> {
                            let g = #[trigger] t.m()[a];
                            &&& g.count == dcount(traces, i as int, a) + dcount_events(
                                events.take(j as int),
                                a,
                            )
                            &&& g.sum == dsum(traces, i as int, a) + dsum_events(
                                events.take(j as int),
                                a,
                            )
                            &&& Some(g.min as int) == opt_min(
                                dmin(traces, i as int, a),
                                dmin_events(events.take(j as int), a),
                            )
                            &&& Some(g.max as int) == opt_max(
                                dmax(traces, i as int, a),
                                dmax_events(events.take(j as int), a),
                            )
                        },
                decreases ne - j,
            {
                let ghost a = events[j - 1 as int].activity;
                proof {
                    lemma_dur_take_step(events, j as int);
                }
                let e1 = &trace.events[j - 1];
                let e2 = &trace.events[j];
                let sample: Option<i128> = match (e1.timestamp, e2.timestamp) {
                    (Some(x), Some(y)) => {
                        let d: i128 = (y as i128) - (x as i128);
                        if d >= 0 {
                            Some(d)
                        } else {
                            None
                        }
                    },
                    _ => None,
                };
                proof {
                    assert(match sample {
                        Some(d) => gap(events[j - 1 as int], events[j as int]) == Some(d as int),
                        None => gap(events[j - 1 as int], events[j as int]) is None,
                    });
                }
                match sample {
                    Some(d) => {
                        proof {
                            // bounds for the updated aggregate
                            lemma_dur_events_take(events, j + 1 as int, a);
                            lemma_dur_mono(traces, i + 1 as int, n as int, a);
                            lemma_dur_bounds(traces, i as int, a);
                            lemma_dur_events_bounds(events.take(j as int), a);
                            lemma_dur_bounds(traces, n as int, a);
                            assert(dcount(traces, i as int, a) + dcount_events(
                                events.take(j + 1 as int),
                                a,
                            ) <= dcount(traces, i + 1 as int, a));
                            assert(dcount(traces, n as int, a) <= total_events_prefix(
                                traces,
                                n as int,
                            ));
                            assert(dsum(traces, i as int, a) + dsum_events(
                                events.take(j + 1 as int),
                                a,
                            ) <= dsum(traces, i + 1 as int, a));
                            assert(dsum(traces, i + 1 as int, a) <= dsum(traces, n as int, a));
                        }
                        let upd = match t.get(e1.activity.as_str()) {
                            Some(g) => DurAgg {
                                count: g.count + 1,
                                sum: g.sum + d,
                                min: if d < g.min {
                                    d
                                } else {
                                    g.min
                                },
                                max: if d > g.max {
                                    d
                                } else {
                                    g.max
                                },
                            },
                            None => DurAgg { count: 1, sum: d, min: d, max: d },
                        };
                        let ghost oldt = t;
                        t.set(e1.activity.as_str(), upd);
                        proof {
                            assert(dcount_events(events.take(j + 1 as int), a) == dcount_events(
                                events.take(j as int),
                                a,
                            ) + 1);
                            assert(dsum_events(events.take(j + 1 as int), a) == dsum_events(
                                events.take(j as int),
                                a,
                            ) + d);
                            assert(dmin_events(events.take(j + 1 as int), a) == opt_min(
                                dmin_events(events.take(j as int), a),
                                Some(d as int),
                            ));
                            assert(dmax_events(events.take(j + 1 as int), a) == opt_max(
                                dmax_events(events.take(j as int), a),
                                Some(d as int),
                            ));
                            assert(opt_min(
                                dmin(traces, i as int, a),
                                opt_min(dmin_events(events.take(j as int), a), Some(d as int)),
                            ) == opt_min(
                                opt_min(dmin(traces, i as int, a), dmin_events(events.take(j as int), a)),
                                Some(d as int),
                            ));
                            assert(opt_max(
                                dmax(traces, i as int, a),
                                opt_max(dmax_events(events.take(j as int), a), Some(d as int)),
                            ) == opt_max(
                                opt_max(dmax(traces, i as int, a), dmax_events(events.take(j as int), a)),
                                Some(d as int),
                            ));
                            assert forall|a2: Seq<char>|
                                t.m().contains_key(a2) <==> dcount(traces, i as int, a2)
                                    + dcount_events(events.take(j + 1 as int), a2) > 0 by {
                                if a2 != a {
                                    assert(t.m().contains_key(a2) == oldt.m().contains_key(a2));
                                }
                                lemma_dur_bounds(traces, i as int, a2);
                                lemma_dur_events_bounds(events.take(j as int), a2);
                            }
                            assert forall|a2: Seq<char>| t.m().contains_key(a2) implies {
                                let g = #[trigger] t.m()[a2];
                                &&& g.count == dcount(traces, i as int, a2) + dcount_events(
                                    events.take(j + 1 as int),
                                    a2,
                                )
                                &&& g.sum == dsum(traces, i as int, a2) + dsum_events(
                                    events.take(j + 1 as int),
                                    a2,
                                )
                                &&& Some(g.min as int) == opt_min(
                                    dmin(traces, i as int, a2),
                                    dmin_events(events.take(j + 1 as int), a2),
                                )
                                &&& Some(g.max as int) == opt_max(
                                    dmax(traces, i as int, a2),
                                    dmax_events(events.take(j + 1 as int), a2),
                                )
                            } by {
                                if a2 != a {
                                    assert(t.m()[a2] == oldt.m()[a2]);
                                } else {
                                    assert(t.m()[a] == upd);
                                    if oldt.m().contains_key(a) {
                                        assert(oldt.m()[a].count == dcount(traces, i as int, a)
                                            + dcount_events(events.take(j as int), a));
                                    } else {
                                        assert(dcount(traces, i as int, a) == 0);
                                        assert(dcount_events(events.take(j as int), a) == 0);
                                        assert(dsum(traces, i as int, a) == 0);
                                        assert(dsum_events(events.take(j as int), a) == 0);
                                        assert(dmin(traces, i as int, a) is None);
                                        assert(dmin_events(events.take(j as int), a) is None);
                                        assert(dmax(traces, i as int, a) is None);
                                        assert(dmax_events(events.take(j as int), a) is None);
                                    }
                                }
                            }
                        }
                    },
                    None => {
                        proof {
                            assert forall|a2: Seq<char>|
                                t.m().contains_key(a2) <==> dcount(traces, i as int, a2)
                                    + dcount_events(events.take(j + 1 as int), a2) > 0 by {
                                lemma_dur_bounds(traces, i as int, a2);
                                lemma_dur_events_bounds(events.take(j as int), a2);
                            }
                        }
                    },
                }
                j += 1;
            }
            proof {
                assert(events.take(ne as int) =~= events);
            }
        } else {
            proof {
                assert forall|a: Seq<char>|
                    dcount(traces, i + 1 as int, a) == dcount(traces, i as int, a) && dsum(
                        traces,
                        i + 1 as int,
                        a,
                    ) == dsum(traces, i as int, a) && dmin(traces, i + 1 as int, a) == dmin(
                        traces,
                        i as int,
                        a,
                    ) && dmax(traces, i + 1 as int, a) == dmax(traces, i as int, a) by {
                    lemma_dur_events_bounds(events, a);
                }
            }
        }
        i += 1;
    }
    t
}

/// Compute the exact performance statistics of a log: trace and event
/// totals, shortest and longest trace, the flow-time sum and sample count,
/// and per-activity occurrence counts with duration sums, sample counts,
/// minima and maxima. Total over every log; untimed data contributes no
/// samples.
pub fn compute_performance_stats(log: &EventLog) -> (r: PerformanceStats)
    requires
        total_events_prefix(log@.traces, log@.traces.len() as int) <= usize::MAX,
        perf_bounded(log@.traces),
    ensures
        ({
            let traces = log@.traces;
            let n = traces.len() as int;
            &&& r.trace_count == n
            &&& r.total_events == total_events_prefix(traces, n)
            &&& r.min_trace_length == min_len(traces, n)
            &&& r.max_trace_length == max_len(traces, n)
            &&& r.flow_time_sum_ms == fsum(traces, n)
            &&& r.flow_time_count == fcount(traces, n)
            &&& r.activity_stats.wf()
            &&& forall|a: Seq<char>|
                r.activity_stats.m().contains_key(a) <==> cnt_act(traces, n, a) > 0
            &&& forall|a: Seq<char>|
                r.activity_stats.m().contains_key(a) ==> stats_ok(
                    traces,
                    n,
                    a,
                    #[trigger] r.activity_stats.m()[a],
                )
        }),
{
    let ghost traces = log@.traces;
    let ghost nn = traces.len() as int;
    let counts = crate::discovery::count_activities(log);
    let durs = duration_table(log);

    // join occurrence counts with duration aggregates
    let mut stats: Assoc<ActivityStats> = Assoc::new();
    let nc = counts.pairs.len();
    let mut k: usize = 0;
    while k < nc
        invariant
            k <= nc,
            nc == counts.pseq().len(),
            counts.wf(),
            durs.wf(),
            total_events_prefix(traces, nn) <= usize::MAX,
            perf_bounded(traces),
            forall|a: Seq<char>| #[trigger] counts.spec_count(a) == cnt_act(traces, nn, a),
            forall|a: Seq<char>| counts.m().contains_key(a) ==> #[trigger] counts.m()[a] >= 1,
            forall|a: Seq<char>| durs.m().contains_key(a) <==> dcount(traces, nn, a) > 0,
            forall|a: Seq<char>|
                durs.m().contains_key(a) ==> agg_ok(traces, nn, a, #[trigger] durs.m()[a]),
            stats.wf(),
            forall|a: Seq<char>|
                stats.m().contains_key(a) <==> exists|x: int|
                    0 <= x < k && (#[trigger] counts.pseq()[x]).0 == a,
            forall|a: Seq<char>|
                stats.m().contains_key(a) ==> stats_ok(traces, nn, a, #[trigger] stats.m()[a]),
        decreases nc - k,
    {
        let ghost a = counts.pseq()[k as int].0;
        proof {
            counts.lemma_pairs(k as int);
            lemma_dur_bounds(traces, nn, a);
        }
        let key = &counts.pairs[k].0;
        let cnt = counts.pairs[k].1;
        let st = match durs.get(key.as_str()) {
            Some(g) => ActivityStats {
                count: cnt,
                duration_count: g.count,
                duration_sum_ms: g.sum,
                min_duration_ms: g.min,
                max_duration_ms: g.max,
            },
            None => ActivityStats {
                count: cnt,
                duration_count: 0,
                duration_sum_ms: 0,
                min_duration_ms: 0,
                max_duration_ms: 0,
            },
        };
        let ghost olds = stats;
        stats.set(key.as_str(), st);
        proof {
            assert forall|a2: Seq<char>|
                stats.m().contains_key(a2) <==> exists|x: int|
                    0 <= x < k + 1 && (#[trigger] counts.pseq()[x]).0 == a2 by {
                if a2 == a {
                    assert(counts.pseq()[k as int].0 == a2);
                } else {
                    assert(stats.m().contains_key(a2) == olds.m().contains_key(a2));
                    if exists|x: int| 0 <= x < k + 1 && (#[trigger] counts.pseq()[x]).0 == a2 {
                        let x = choose|x: int|
                            0 <= x < k + 1 && (#[trigger] counts.pseq()[x]).0 == a2;
                        assert(0 <= x < k && counts.pseq()[x].0 == a2);
                    }
                }
            }
            assert forall|a2: Seq<char>| stats.m().contains_key(a2) implies stats_ok(
                traces,
                nn,
                a2,
                #[trigger] stats.m()[a2],
            ) by {
                if a2 != a {
                    assert(stats.m()[a2] == olds.m()[a2]);
                } else {
                    assert(counts.spec_count(a) == cnt_act(traces, nn, a));
                    assert(stats.m()[a] == st);
                    assert(durs.m().contains_key(a) <==> dcount(traces, nn, a) > 0);
                    if durs.m().contains_key(a) {
                        assert(agg_ok(traces, nn, a, durs.m()[a]));
                    }
                }
            }
        }
        k += 1;
    }

    proof {
        assert forall|a: Seq<char>|
            stats.m().contains_key(a) <==> cnt_act(traces, nn, a) > 0 by {
            assert(counts.spec_count(a) == cnt_act(traces, nn, a));
            crate::assoc::lemma_amap_contains(counts.pseq(), a);
            if stats.m().contains_key(a) {
                let x = choose|x: int| 0 <= x < nc && (#[trigger] counts.pseq()[x]).0 == a;
                counts.lemma_pairs(x);
            }
            if cnt_act(traces, nn, a) > 0 {
                assert(counts.m().contains_key(a));
            }
        }
    }

    // flow times and trace lengths
    let mut flow_sum: i128 = 0;
    let mut flow_count: u64 = 0;
    let mut total_events: usize = 0;
    let mut min_length: usize = 0;
    let mut max_length: usize = 0;
    let n = log.traces.len();
    let mut i: usize = 0;
    while i < n
        invariant
            i <= n,
            n == traces.len(),
            total_events_prefix(traces, n as int) <= usize::MAX,
            perf_bounded(traces),
            flow_sum == fsum(traces, i as int),
            flow_count == fcount(traces, i as int),
            total_events == total_events_prefix(traces, i as int),
            min_length == min_len(traces, i as int),
            max_length == max_len(traces, i as int),
        decreases n - i,
    {
        let trace = &log.traces[i];
        let ne = trace.events.len();
        proof {
            lemma_flow_bounds(traces, i + 1 as int, n as int);
            lemma_flow_bounds(traces, n as int, n as int);
            crate::discovery::lemma_prefix_totals_mono(traces, i + 1 as int, n as int);
        }
        if ne > 0 {
            let first = &trace.events[0];
            let last = &trace.events[ne - 1];
            proof {
                assert(traces[i as int].events.last() == traces[i as int].events[ne - 1]);
            }
            match (first.timestamp, last.timestamp) {
                (Some(x), Some(y)) => {
                    let d: i128 = (y as i128) - (x as i128);
                    if d >= 0 {
                        flow_sum = flow_sum + d;
                        flow_count = flow_count + 1;
                    }
                },
                _ => {},
            }
        }
        total_events = total_events + ne;
        if i == 0 {
            min_length = ne;
        } else if ne < min_length {
            min_length = ne;
        }
        if ne > max_length {
            max_length = ne;
        }
        i += 1;
    }

    PerformanceStats {
        trace_count: n,
        total_events,
        min_trace_length: min_length,
        max_trace_length: max_length,
        flow_time_sum_ms: flow_sum,
        flow_time_count: flow_count,
        activity_stats: stats,
    }
}

} // verus!
