//! The interchange exporter: re-expresses an event log as an object-centric
//! event log document.
//!
//! One object per trace (type "case"), one event record per event in global
//! log order (trace order, then event order), each referencing its trace's
//! case identifier. Event attributes with a `concept:` or `time:` prefix are
//! structural and excluded from the exported value map. A missing timestamp
//! falls back to the Unix epoch string. The document's constant envelope
//! (the object-type, event-type and global-log records) is fixed and added
//! when the document is serialized at the boundary. This transform is total.

use vstd::prelude::*;

use crate::assoc::{amap, Assoc};
use crate::log_codec::kv_last;
use crate::log_model::{attrs_view, total_events_prefix, EventLog, TraceV};
use crate::text::match_at;

verus! {

/// One object record: a case.
pub struct OcelObject {
    pub id: String,
    pub object_type: String,
}

/// One event record, referencing its case.
pub struct OcelEvent {
    pub id: String,
    pub activity: String,
    pub timestamp: String,
    pub case_id: String,
    pub attributes: Assoc<String>,
}

/// The exported document: objects and events.
pub struct OcelDocument {
    pub objects: Vec<OcelObject>,
    pub events: Vec<OcelEvent>,
}

// ─── timestamps (chrono) ───────────────────────────────────────────────────

/// The RFC 3339 rendering of an instant given in milliseconds since the
/// Unix epoch, when the instant is representable; a function of the
/// milliseconds alone.
pub uninterp spec fn rfc3339_of(ms: int) -> Option<Seq<char>>;

/// Relies on chrono's `DateTime::from_timestamp_millis` and `to_rfc3339`:
/// whether the instant is representable, and its rendering, depend on the
/// milliseconds alone.
#[verifier::external_body]
pub fn format_rfc3339_ms(ms: i64) -> (r: Option<String>)
    ensures
        match r {
            Some(s) => rfc3339_of(ms as int) == Some(s@),
            None => rfc3339_of(ms as int) is None,
        },
{
    chrono::DateTime::<chrono::Utc>::from_timestamp_millis(ms).map(|dt| dt.to_rfc3339())
}

/// The timestamp string of an exported event: the RFC 3339 rendering, or
/// the epoch string when the event is untimed or out of range.
pub open spec fn ocel_ts(ts: Option<i64>) -> Seq<char> {
    match ts {
        Some(ms) => match rfc3339_of(ms as int) {
            Some(s) => s,
            None => "1970-01-01T00:00:00Z"@,
        },
        None => "1970-01-01T00:00:00Z"@,
    }
}

// ─── attribute filtering ───────────────────────────────────────────────────

/// Keys that are structural and excluded from the exported value map.
pub open spec fn excluded_key(key: Seq<char>) -> bool {
    match_at(key, "concept:"@, 0) || match_at(key, "time:"@, 0)
}

/// A key maps in an association pair list exactly per its last pair.
pub proof fn lemma_amap_kv_last(pairs: Seq<(Seq<char>, Seq<char>)>, key: Seq<char>)
    ensures
        amap(pairs).contains_key(key) <==> kv_last(pairs, key) is Some,
        kv_last(pairs, key) is Some ==> amap(pairs)[key] == kv_last(pairs, key).unwrap(),
    decreases pairs.len(),
{
    if pairs.len() > 0 {
        lemma_amap_kv_last(pairs.drop_last(), key);
    }
}

/// `r` is true exactly when `p` is a prefix of `s`.
fn str_has_prefix(s: &str, p: &str) -> (r: bool)
    ensures
        r == match_at(s@, p@, 0),
{
    let n = s.unicode_len();
    let m = p.unicode_len();
    if m > n {
        return false;
    }
    let mut i: usize = 0;
    while i < m
        invariant
            i <= m,
            m <= n,
            n == s@.len(),
            m == p@.len(),
            forall|t: int| 0 <= t < i ==> s@[t] == p@[t],
        decreases m - i,
    {
        if s.get_char(i) != p.get_char(i) {
            assert(s@.subrange(0, m as int)[i as int] != p@[i as int]);
            return false;
        }
        i += 1;
    }
    proof {
        assert(s@.subrange(0, m as int) =~= p@);
    }
    true
}

/// The exported value map of one event: its attributes without the
/// structural keys.
fn filtered_attrs(attrs: &Assoc<String>) -> (r: Assoc<String>)
    ensures
        r.wf(),
        forall|key: Seq<char>|
            #[trigger] amap(attrs_view(r)).contains_key(key) <==> (amap(
                attrs_view(*attrs),
            ).contains_key(key) && !excluded_key(key)),
        forall|key: Seq<char>|
            amap(attrs_view(r)).contains_key(key) ==> #[trigger] amap(attrs_view(r))[key] == amap(
                attrs_view(*attrs),
            )[key],
{
    let ghost pv = attrs.pairs@.map(|_k: int, p: (String, String)| (p.0@, p.1@));
    let mut out: Assoc<String> = Assoc::new();
    let n = attrs.pairs.len();
    let mut i: usize = 0;
    while i < n
        invariant
            i <= n,
            n == attrs.pairs@.len(),
            pv == attrs.pairs@.map(|_k: int, p: (String, String)| (p.0@, p.1@)),
            out.wf(),
            forall|key: Seq<char>|
                match #[trigger] kv_last(pv.take(i as int), key) {
                    Some(v) => if excluded_key(key) {
                        !out.m().contains_key(key)
                    } else {
                        out.m().contains_key(key) && out.m()[key]@ == v
                    },
                    None => !out.m().contains_key(key),
                },
        decreases n - i,
    {
        let key = &attrs.pairs[i].0;
        let value = &attrs.pairs[i].1;
        let keep = !str_has_prefix(key.as_str(), "concept:") && !str_has_prefix(
            key.as_str(),
            "time:",
        );
        let ghost oldo = out;
        if keep {
            out.set(key.as_str(), value.clone());
        }
        proof {
            assert(pv.take(i + 1 as int).drop_last() =~= pv.take(i as int));
            assert(pv.take(i + 1 as int).last() == pv[i as int]);
            assert forall|k2: Seq<char>|
                match #[trigger] kv_last(pv.take(i + 1 as int), k2) {
                    Some(v) => if excluded_key(k2) {
                        !out.m().contains_key(k2)
                    } else {
                        out.m().contains_key(k2) && out.m()[k2]@ == v
                    },
                    None => !out.m().contains_key(k2),
                } by {
                assert(kv_last(pv.take(i + 1 as int), k2) == (if pv[i as int].0 == k2 {
                    Some(pv[i as int].1)
                } else {
                    kv_last(pv.take(i as int), k2)
                }));
                if !keep && pv[i as int].0 == k2 {
                    assert(excluded_key(k2));
                }
            }
        }
        i += 1;
    }
    proof {
        assert(pv.take(n as int) =~= pv);
        assert forall|key: Seq<char>|
            #[trigger] amap(attrs_view(out)).contains_key(key) <==> (amap(
                attrs_view(*attrs),
            ).contains_key(key) && !excluded_key(key)) by {
            crate::log_model::lemma_amap_views(out.pairs@, key);
            crate::log_model::lemma_amap_views(attrs.pairs@, key);
            lemma_amap_kv_last(pv, key);
        }
        assert forall|key: Seq<char>|
            amap(attrs_view(out)).contains_key(key) implies #[trigger] amap(
            attrs_view(out),
        )[key] == amap(attrs_view(*attrs))[key] by {
            crate::log_model::lemma_amap_views(out.pairs@, key);
            crate::log_model::lemma_amap_views(attrs.pairs@, key);
            lemma_amap_kv_last(pv, key);
        }
    }
    out
}

/// What one exported event record must hold, for the event at global index
/// `k`, which is event `e` of trace `t`.
pub open spec fn ocel_event_ok(traces: Seq<TraceV>, t: int, e: int, k: int, oe: OcelEvent) -> bool {
    let ev = traces[t].events[e];
    &&& oe.id@ == "event-"@ + crate::text::spec_dec(k)
    &&& oe.activity@ == ev.activity
    &&& oe.timestamp@ == ocel_ts(ev.timestamp)
    &&& oe.case_id@ == traces[t].case_id
    &&& oe.attributes.wf()
    &&& forall|key: Seq<char>|
        #[trigger] amap(attrs_view(oe.attributes)).contains_key(key) <==> (amap(
            ev.attributes,
        ).contains_key(key) && !excluded_key(key))
    &&& forall|key: Seq<char>|
        amap(attrs_view(oe.attributes)).contains_key(key) ==> #[trigger] amap(
            attrs_view(oe.attributes),
        )[key] == amap(ev.attributes)[key]
}

/// The row property for event `e` of trace `t`: its record sits at the
/// global index and satisfies `ocel_event_ok`.
pub open spec fn ocel_row_ok(traces: Seq<TraceV>, t: int, e: int, events: Seq<OcelEvent>) -> bool {
    let k = total_events_prefix(traces, t) + e;
    &&& 0 <= k < events.len()
    &&& ocel_event_ok(traces, t, e, k, events[k])
}

/// Convert a log to the object-centric document: one object per trace and
/// one event record per event in global order, each referencing its case.
pub fn convert_to_ocel(log: &EventLog) -> (r: OcelDocument)
    requires
        log.wf(),
        total_events_prefix(log@.traces, log@.traces.len() as int) <= usize::MAX,
    ensures
        ({
            let traces = log@.traces;
            &&& r.objects@.len() == traces.len()
            &&& forall|t: int|
                0 <= t < traces.len() ==> (#[trigger] r.objects@[t]).id@ == traces[t].case_id
                    && r.objects@[t].object_type@ == "case"@
            &&& r.events@.len() == total_events_prefix(traces, traces.len() as int)
            &&& forall|t: int, e: int|
                0 <= t < traces.len() && 0 <= e < traces[t].events.len()
                    ==> #[trigger] ocel_row_ok(traces, t, e, r.events@)
        }),
{
    let ghost traces = log@.traces;
    let n = log.traces.len();

    let mut objects: Vec<OcelObject> = Vec::new();
    let mut t: usize = 0;
    while t < n
        invariant
            t <= n,
            n == traces.len(),
            objects@.len() == t,
            forall|k: int|
                0 <= k < t ==> (#[trigger] objects@[k]).id@ == traces[k].case_id
                    && objects@[k].object_type@ == "case"@,
        decreases n - t,
    {
        objects.push(
            OcelObject { id: log.traces[t].case_id.clone(), object_type: "case".to_owned() },
        );
        t += 1;
    }

    let mut events: Vec<OcelEvent> = Vec::new();
    let mut ti: usize = 0;
    while ti < n
        invariant
            ti <= n,
            n == traces.len(),
            log.wf(),
            log@.traces == traces,
            total_events_prefix(traces, n as int) <= usize::MAX,
            events@.len() == total_events_prefix(traces, ti as int),
            forall|t2: int, e2: int|
                0 <= t2 < ti && 0 <= e2 < traces[t2].events.len() ==> #[trigger] ocel_row_ok(
                    traces,
                    t2,
                    e2,
                    events@,
                ),
        decreases n - ti,
    {
        let ghost base = total_events_prefix(traces, ti as int);
        let trace = &log.traces[ti];
        let ne = trace.events.len();
        proof {
            crate::discovery::lemma_prefix_totals_mono(traces, ti + 1 as int, n as int);
        }
        let mut e: usize = 0;
        while e < ne
            invariant
                e <= ne,
                ti < n,
                n == traces.len(),
                log.wf(),
                log@.traces == traces,
                ne == traces[ti as int].events.len(),
                total_events_prefix(traces, n as int) <= usize::MAX,
                total_events_prefix(traces, ti + 1 as int) == base + ne,
                base == total_events_prefix(traces, ti as int),
                events@.len() == base + e,
                forall|t2: int, e2: int|
                    0 <= t2 < ti && 0 <= e2 < traces[t2].events.len() ==> #[trigger] ocel_row_ok(
                        traces,
                        t2,
                        e2,
                        events@,
                    ),
                forall|e2: int|
                    0 <= e2 < e ==> #[trigger] ocel_row_ok(traces, ti as int, e2, events@),
            decreases ne - e,
        {
            let ev = &log.traces[ti].events[e];
            let counter = events.len();
            let mut id = "event-".to_owned();
            let dec = crate::text::u64_to_string(counter as u64);
            id.append(dec.as_str());
            let timestamp = match ev.timestamp {
                Some(ms) => match format_rfc3339_ms(ms) {
                    Some(s) => s,
                    None => "1970-01-01T00:00:00Z".to_owned(),
                },
                None => "1970-01-01T00:00:00Z".to_owned(),
            };
            let attributes = filtered_attrs(&ev.attributes);
            let ghost oldev = events@;
            events.push(
                OcelEvent {
                    id,
                    activity: ev.activity.clone(),
                    timestamp,
                    case_id: trace.case_id.clone(),
                    attributes,
                },
            );
            proof {
                assert(traces[ti as int].events[e as int] == ev@);
                assert(attrs_view(ev.attributes) == traces[ti as int].events[e as int].attributes);
                assert(events@.drop_last() =~= oldev);
                assert(ocel_row_ok(traces, ti as int, e as int, events@));
                assert forall|t2: int, e2: int|
                    0 <= t2 < ti && 0 <= e2 < traces[t2].events.len() implies #[trigger] ocel_row_ok(
                    traces,
                    t2,
                    e2,
                    events@,
                ) by {
                    assert(ocel_row_ok(traces, t2, e2, oldev));
                    let k = total_events_prefix(traces, t2) + e2;
                    assert(events@[k] == oldev[k]);
                }
                assert forall|e2: int| 0 <= e2 < e + 1 implies #[trigger] ocel_row_ok(
                    traces,
                    ti as int,
                    e2,
                    events@,
                ) by {
                    if e2 < e {
                        assert(ocel_row_ok(traces, ti as int, e2, oldev));
                        let k = total_events_prefix(traces, ti as int) + e2;
                        assert(events@[k] == oldev[k]);
                    }
                }
            }
            e += 1;
        }
        proof {
            assert forall|t2: int, e2: int|
                0 <= t2 < ti + 1 && 0 <= e2 < traces[t2].events.len() implies #[trigger] ocel_row_ok(
                traces,
                t2,
                e2,
                events@,
            ) by {}
        }
        ti += 1;
    }

    OcelDocument { objects, events }
}

} // verus!
