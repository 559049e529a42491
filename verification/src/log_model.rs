//! The event-log data model: an `EventLog` is an ordered sequence of
//! `Trace`s; a `Trace` is a case identifier with an ordered sequence of
//! `Event`s. Timestamps are kept as milliseconds since the Unix epoch.

use vstd::prelude::*;

use crate::assoc::Assoc;

verus! {

/// One observed activity execution.
pub struct Event {
    pub activity: String,
    /// Milliseconds since the Unix epoch, if the source carried a
    /// parsable timestamp.
    pub timestamp: Option<i64>,
    pub attributes: Assoc<String>,
}

/// One case: an identifier and its events in execution order.
pub struct Trace {
    pub case_id: String,
    pub events: Vec<Event>,
    pub attributes: Assoc<String>,
}

/// An ordered sequence of traces; duplicate case identifiers are legal.
pub struct EventLog {
    pub traces: Vec<Trace>,
}

pub struct EventV {
    pub activity: Seq<char>,
    pub timestamp: Option<i64>,
    pub attributes: Seq<(Seq<char>, Seq<char>)>,
}

pub struct TraceV {
    pub case_id: Seq<char>,
    pub events: Seq<EventV>,
    pub attributes: Seq<(Seq<char>, Seq<char>)>,
}

pub struct EventLogV {
    pub traces: Seq<TraceV>,
}

/// The pair view of a string-valued attribute table.
pub open spec fn attrs_view(a: Assoc<String>) -> Seq<(Seq<char>, Seq<char>)> {
    a.pairs@.map(|_i: int, p: (String, String)| (p.0@, p.1@))
}

/// Two pair sequences whose keys agree and whose values agree up to views
/// denote matching maps; this ties a table's own map to its attribute view.
pub proof fn lemma_amap_views(ps: Seq<(String, String)>, k: Seq<char>)
    ensures
        ({
            let m1 = crate::assoc::amap(ps.map(|_i: int, p: (String, String)| (p.0@, p.1)));
            let m2 = crate::assoc::amap(ps.map(|_i: int, p: (String, String)| (p.0@, p.1@)));
            &&& m1.contains_key(k) == m2.contains_key(k)
            &&& m1.contains_key(k) ==> m2[k] == m1[k]@
        }),
    decreases ps.len(),
{
    if ps.len() > 0 {
        lemma_amap_views(ps.drop_last(), k);
        assert(ps.map(|_i: int, p: (String, String)| (p.0@, p.1)).drop_last() =~= ps.drop_last().map(
            |_i: int, p: (String, String)| (p.0@, p.1),
        ));
        assert(ps.map(|_i: int, p: (String, String)| (p.0@, p.1@)).drop_last()
            =~= ps.drop_last().map(|_i: int, p: (String, String)| (p.0@, p.1@)));
    }
}

impl View for Event {
    type V = EventV;

    open spec fn view(&self) -> EventV {
        EventV {
            activity: self.activity@,
            timestamp: self.timestamp,
            attributes: attrs_view(self.attributes),
        }
    }
}

impl View for Trace {
    type V = TraceV;

    open spec fn view(&self) -> TraceV {
        TraceV {
            case_id: self.case_id@,
            events: self.events@.map(|_i: int, e: Event| e@),
            attributes: attrs_view(self.attributes),
        }
    }
}

impl View for EventLog {
    type V = EventLogV;

    open spec fn view(&self) -> EventLogV {
        EventLogV { traces: self.traces@.map(|_i: int, t: Trace| t@) }
    }
}

impl Event {
    pub open spec fn wf(&self) -> bool {
        self.attributes.wf()
    }
}

impl Trace {
    pub open spec fn wf(&self) -> bool {
        &&& self.attributes.wf()
        &&& forall|i: int| 0 <= i < self.events@.len() ==> (#[trigger] self.events@[i]).wf()
    }
}

impl EventLog {
    pub open spec fn wf(&self) -> bool {
        forall|i: int| 0 <= i < self.traces@.len() ==> (#[trigger] self.traces@[i]).wf()
    }

    /// The number of events over all traces.
    pub open spec fn spec_total_events(&self) -> int {
        total_events_of(self@.traces)
    }
}

/// The number of events in the first `n` traces of a log view.
pub open spec fn total_events_prefix(traces: Seq<TraceV>, n: int) -> int
    decreases n,
{
    if n <= 0 {
        0
    } else {
        total_events_prefix(traces, n - 1) + traces[n - 1].events.len()
    }
}

/// The number of events over all traces of a log view.
pub open spec fn total_events_of(traces: Seq<TraceV>) -> int {
    total_events_prefix(traces, traces.len() as int)
}

} // verus!
