use yawl_engine::assoc::Assoc;
use yawl_engine::discovery::{discover_alpha_ppp, discover_dfg};
use yawl_engine::log_codec::parse_xes;
use yawl_engine::log_model::{Event, EventLog, Trace};
use yawl_engine::net_codec::{export_pnml, parse_pnml};
use yawl_engine::net_model::{Arc, PetriNet, Place, Transition};
use yawl_engine::ocel::convert_to_ocel;
use yawl_engine::performance::compute_performance_stats;
use yawl_engine::replay::token_based_replay;

fn event(activity: &str, timestamp: Option<i64>) -> Event {
    Event { activity: activity.to_string(), timestamp, attributes: Assoc { pairs: vec![] } }
}

fn trace(case_id: &str, activities: &[&str]) -> Trace {
    Trace {
        case_id: case_id.to_string(),
        events: activities.iter().map(|a| event(a, None)).collect(),
        attributes: Assoc { pairs: vec![] },
    }
}

fn place(id: &str) -> Place {
    Place { id: id.to_string(), label: id.to_string() }
}

fn visible(id: &str, label: &str) -> Transition {
    Transition { id: id.to_string(), label: label.to_string(), is_invisible: false }
}

fn arc(source: &str, target: &str) -> Arc {
    Arc { source: source.to_string(), target: target.to_string(), multiplicity: 1 }
}

/// The sequential net p0 -> t_A -> p1 -> t_B -> p2 with one token on p0.
fn ab_net() -> PetriNet {
    PetriNet {
        places: vec![place("p0"), place("p1"), place("p2")],
        transitions: vec![visible("t_A", "A"), visible("t_B", "B")],
        arcs: vec![arc("p0", "t_A"), arc("t_A", "p1"), arc("p1", "t_B"), arc("t_B", "p2")],
        initial_marking: Assoc { pairs: vec![("p0".to_string(), 1)] },
        final_markings: vec![],
    }
}

#[test]
fn replay_perfect_fit_two_steps() {
    let log = EventLog { traces: vec![trace("case1", &["A", "B"])] };
    let r = token_based_replay(&ab_net(), &log).unwrap();
    assert_eq!(r.produced, 2);
    assert_eq!(r.consumed, 2);
    assert_eq!(r.missing, 0);
    assert_eq!(r.remaining, 0);
    assert_eq!(r.fitness.num, r.fitness.den);
    assert!(r.fitness.den > 0);
    assert!(r.deviating_traces.is_empty());
}

#[test]
fn replay_perfect_fit_single_transition() {
    let net = PetriNet {
        places: vec![place("in"), place("out")],
        transitions: vec![visible("t_A", "A")],
        arcs: vec![arc("in", "t_A"), arc("t_A", "out")],
        initial_marking: Assoc { pairs: vec![("in".to_string(), 1)] },
        final_markings: vec![],
    };
    let log = EventLog { traces: vec![trace("c", &["A"])] };
    let r = token_based_replay(&net, &log).unwrap();
    assert_eq!((r.produced, r.consumed, r.missing, r.remaining), (1, 1, 0, 0));
    assert_eq!(r.fitness.num, r.fitness.den);
}

#[test]
fn replay_missing_activity_deviates() {
    // same log, but the net only knows t_A
    let net = PetriNet {
        places: vec![place("p0"), place("p1")],
        transitions: vec![visible("t_A", "A")],
        arcs: vec![arc("p0", "t_A"), arc("t_A", "p1")],
        initial_marking: Assoc { pairs: vec![("p0".to_string(), 1)] },
        final_markings: vec![],
    };
    let log = EventLog { traces: vec![trace("case1", &["A", "B"])] };
    let r = token_based_replay(&net, &log).unwrap();
    assert_eq!(r.missing, 1);
    assert_eq!(r.deviating_traces, vec!["case1".to_string()]);
    // produced fitness 0, consumed fitness 1: exactly one half
    assert_eq!(r.fitness.num * 2, r.fitness.den);
}

#[test]
fn replay_invisible_transition_never_matches() {
    let net = PetriNet {
        places: vec![place("p0")],
        transitions: vec![Transition {
            id: "t_A".to_string(),
            label: "A".to_string(),
            is_invisible: true,
        }],
        arcs: vec![arc("p0", "t_A")],
        initial_marking: Assoc { pairs: vec![("p0".to_string(), 1)] },
        final_markings: vec![],
    };
    let log = EventLog { traces: vec![trace("c", &["A"])] };
    let r = token_based_replay(&net, &log).unwrap();
    assert_eq!(r.missing, 1);
    assert_eq!(r.produced, 0);
}

#[test]
fn replay_empty_log_scores_a_full_one() {
    // nothing produced and nothing consumed: both sides default to one
    let log = EventLog { traces: vec![] };
    let r = token_based_replay(&ab_net(), &log).unwrap();
    assert_eq!(r.fitness.num, 1);
    assert_eq!(r.fitness.den, 1);
}

#[test]
fn dfg_totals_balance() {
    let log = EventLog {
        traces: vec![trace("a", &["A", "B"]), trace("b", &["A"]), trace("c", &[])],
    };
    let dfg = discover_dfg(&log);
    let edge_total: u64 = dfg.edges.iter().map(|e| e.count).sum();
    // three events over two non-empty traces
    assert_eq!(edge_total, 3 - 2);
    let start_total: u64 = dfg.start_activities.pairs.iter().map(|p| p.1).sum();
    let end_total: u64 = dfg.end_activities.pairs.iter().map(|p| p.1).sum();
    assert_eq!(start_total, 2);
    assert_eq!(end_total, 2);
    let a_node = dfg.nodes.iter().find(|n| n.id == "A").unwrap();
    assert_eq!(a_node.count, 2);
    let ab = dfg.edges.iter().find(|e| e.source == "A" && e.target == "B").unwrap();
    assert_eq!(ab.count, 1);
}

#[test]
fn discovered_net_round_trips_through_the_codec() {
    let log = EventLog {
        traces: vec![trace("a", &["A", "B", "C"]), trace("b", &["A", "C"])],
    };
    let net = discover_alpha_ppp(&log).unwrap();
    let text = export_pnml(&net);
    let back = parse_pnml(&text).unwrap();
    assert_eq!(back.places.len(), net.places.len());
    assert_eq!(back.transitions.len(), net.transitions.len());
    assert_eq!(back.arcs.len(), net.arcs.len());
    let total_before: u64 = net.initial_marking.pairs.iter().map(|p| p.1).sum();
    let total_after: u64 = back.initial_marking.pairs.iter().map(|p| p.1).sum();
    assert_eq!(total_before, 1);
    assert_eq!(total_after, 1);
}

#[test]
fn discovered_net_replays_its_own_log_perfectly() {
    let log = EventLog { traces: vec![trace("case1", &["A", "B"])] };
    let net = discover_alpha_ppp(&log).unwrap();
    assert_eq!(net.transitions.len(), 2);
    assert_eq!(net.places.len(), 3); // source, sink, one edge place
    assert_eq!(net.arcs.len(), 4); // start, end, and the wired edge place
    let r = token_based_replay(&net, &log).unwrap();
    assert_eq!(r.missing, 0);
    assert_eq!(r.remaining, 0);
    assert_eq!(r.fitness.num, r.fitness.den);
}

#[test]
fn pnml_parser_reads_places_transitions_arcs_and_marking() {
    let text = "<pnml>\n  <place id=\"p0\">\n    <name><text>start</text></name>\n    <initialMarking><text>p0,p0</text></initialMarking>\n  </place>\n  <transition id=\"t1\">\n    <name><text>A</text></name>\n  </transition>\n  <transition id=\"t2\">\n    <name><text>tau</text></name>\n  </transition>\n  <arc id=\"a1\" source=\"p0\" target=\"t1\"/>\n</pnml>";
    let net = parse_pnml(text).unwrap();
    assert_eq!(net.places.len(), 1);
    assert_eq!(net.places[0].id, "p0");
    assert_eq!(net.places[0].label, "start");
    assert_eq!(net.transitions.len(), 2);
    assert!(!net.transitions[0].is_invisible);
    assert!(net.transitions[1].is_invisible);
    assert_eq!(net.arcs.len(), 1);
    assert_eq!(net.arcs[0].source, "p0");
    assert_eq!(net.arcs[0].target, "t1");
    // the marking names p0 twice
    let tokens = net.initial_marking.pairs.iter().find(|p| p.0 == "p0").unwrap().1;
    assert_eq!(tokens, 2);
}

#[test]
fn pnml_parser_requires_a_transition() {
    let err = match parse_pnml("<pnml></pnml>") {
        Err(e) => e,
        Ok(_) => panic!("expected an error"),
    };
    assert_eq!(err, "No transitions found in PNML");
}

#[test]
fn export_emits_marking_only_when_positive() {
    let net = PetriNet {
        places: vec![place("p0"), place("p1")],
        transitions: vec![visible("t", "T")],
        arcs: vec![],
        initial_marking: Assoc {
            pairs: vec![("p0".to_string(), 1), ("p1".to_string(), 0)],
        },
        final_markings: vec![],
    };
    let text = export_pnml(&net);
    assert!(text.contains("<place id=\"p0\">"));
    assert_eq!(text.matches("<initialMarking>").count(), 1);
    assert!(text.contains("<initialMarking><text>1</text></initialMarking>"));
}

#[test]
fn test_parse_xes_basic() {
    let xes = "<?xml version=\"1.0\"?>\n<log>\n  <trace>\n    <string key=\"concept:name\" value=\"case1\"/>\n    <event>\n      <string key=\"concept:name\" value=\"A\"/>\n    </event>\n  </trace>\n</log>";
    let log = parse_xes(xes).expect("Parse failed");
    assert_eq!(log.traces.len(), 1);
    assert_eq!(log.traces[0].events.len(), 1);
}

#[test]
fn xes_parser_defaults_and_timestamps() {
    let xes = "<log><trace><event><string key=\"concept:name\" value=\"A\"/><date key=\"time:timestamp\" value=\"1970-01-01T00:00:01Z\"/></event><event><date key=\"time:timestamp\" value=\"not a date\"/></event></trace></log>";
    let log = parse_xes(xes).unwrap();
    // the attribute scan covers the whole trace block, so the event's
    // concept:name also names the case
    assert_eq!(log.traces[0].case_id, "A");
    assert_eq!(log.traces[0].events[0].activity, "A");
    assert_eq!(log.traces[0].events[0].timestamp, Some(1000));
    assert_eq!(log.traces[0].events[1].activity, "unknown");
    assert_eq!(log.traces[0].events[1].timestamp, None);
}

#[test]
fn xes_parser_requires_a_trace() {
    let err = match parse_xes("<log></log>") {
        Err(e) => e,
        Ok(_) => panic!("expected an error"),
    };
    assert_eq!(err, "No traces found in XES log");
}

#[test]
fn ocel_counts_objects_and_events_in_order() {
    let log = EventLog {
        traces: vec![trace("c1", &["A", "B"]), trace("c2", &["C"])],
    };
    let doc = convert_to_ocel(&log);
    assert_eq!(doc.objects.len(), 2);
    assert_eq!(doc.objects[0].id, "c1");
    assert_eq!(doc.objects[0].object_type, "case");
    assert_eq!(doc.events.len(), 3);
    assert_eq!(doc.events[0].id, "event-0");
    assert_eq!(doc.events[2].id, "event-2");
    assert_eq!(doc.events[2].case_id, "c2");
    assert_eq!(doc.events[2].activity, "C");
    assert_eq!(doc.events[0].timestamp, "1970-01-01T00:00:00Z");
}

#[test]
fn ocel_filters_structural_attribute_keys() {
    let ev = Event {
        activity: "A".to_string(),
        timestamp: None,
        attributes: Assoc {
            pairs: vec![
                ("concept:name".to_string(), "A".to_string()),
                ("time:timestamp".to_string(), "x".to_string()),
                ("cost".to_string(), "40".to_string()),
            ],
        },
    };
    let log = EventLog {
        traces: vec![Trace {
            case_id: "c".to_string(),
            events: vec![ev],
            attributes: Assoc { pairs: vec![] },
        }],
    };
    let doc = convert_to_ocel(&log);
    assert_eq!(doc.events[0].attributes.pairs.len(), 1);
    assert_eq!(doc.events[0].attributes.pairs[0].0, "cost");
    assert_eq!(doc.events[0].attributes.pairs[0].1, "40");
}

#[test]
fn ocel_renders_real_timestamps() {
    let log = EventLog {
        traces: vec![Trace {
            case_id: "c".to_string(),
            events: vec![event("A", Some(0)), event("B", Some(86_400_000))],
            attributes: Assoc { pairs: vec![] },
        }],
    };
    let doc = convert_to_ocel(&log);
    assert_eq!(doc.events[0].timestamp, "1970-01-01T00:00:00+00:00");
    assert_eq!(doc.events[1].timestamp, "1970-01-02T00:00:00+00:00");
}

#[test]
fn performance_sums_and_extremes() {
    let t1 = Trace {
        case_id: "c1".to_string(),
        events: vec![
            event("A", Some(0)),
            event("B", Some(1500)),
            event("A", Some(1000)), // out of order: negative gap dropped
        ],
        attributes: Assoc { pairs: vec![] },
    };
    let t2 = trace("c2", &["B"]);
    let log = EventLog { traces: vec![t1, t2] };
    let stats = compute_performance_stats(&log);
    assert_eq!(stats.trace_count, 2);
    assert_eq!(stats.total_events, 4);
    assert_eq!(stats.min_trace_length, 1);
    assert_eq!(stats.max_trace_length, 3);
    // flow time of c1: 1000 - 0; c2 has no timestamps
    assert_eq!(stats.flow_time_sum_ms, 1000);
    assert_eq!(stats.flow_time_count, 1);
    let a = stats.activity_stats.pairs.iter().find(|p| p.0 == "A").unwrap();
    assert_eq!(a.1.count, 2);
    assert_eq!(a.1.duration_count, 1);
    assert_eq!(a.1.duration_sum_ms, 1500);
    assert_eq!(a.1.min_duration_ms, 1500);
    assert_eq!(a.1.max_duration_ms, 1500);
    let b = stats.activity_stats.pairs.iter().find(|p| p.0 == "B").unwrap();
    assert_eq!(b.1.count, 2);
    assert_eq!(b.1.duration_count, 0);
    assert_eq!(b.1.duration_sum_ms, 0);
}

#[test]
fn replay_shortfall_counts_the_deficit() {
    // t_A needs a token that is not there
    let net = PetriNet {
        places: vec![place("p0"), place("p1")],
        transitions: vec![visible("t_A", "A")],
        arcs: vec![arc("p0", "t_A"), arc("t_A", "p1")],
        initial_marking: Assoc { pairs: vec![] },
        final_markings: vec![],
    };
    let log = EventLog { traces: vec![trace("c", &["A"])] };
    let r = token_based_replay(&net, &log).unwrap();
    assert_eq!(r.remaining, 1);
    assert_eq!(r.produced, 1);
    assert_eq!(r.consumed, 0);
    assert_eq!(r.deviating_traces, vec!["c".to_string()]);
}
