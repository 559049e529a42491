//! The event-log codec: a parser for a restricted XES-like markup.
//!
//! A `<trace>` block carries string attributes (`<string key="…" value="…"/>`,
//! where key `concept:name` names the case) and `<event>` blocks; an event
//! carries its own string attributes (`concept:name` is the activity) and
//! date attributes (`time:timestamp` in RFC 3339). Parsing is tolerant:
//! missing names fall back to sentinels and unparsable timestamps are
//! dropped; the one hard failure is a log without trace blocks.

use vstd::prelude::*;

use crate::assoc::{amap, Assoc};
use crate::log_model::{Event, EventLog, Trace};
use crate::text::{find_from, is_match, lemma_find_props, match_at, scan_blocks, spec_find};

verus! {

// ─── patterns ──────────────────────────────────────────────────────────────

pub open spec fn pat_skey() -> Seq<char> {
    "<string key=\""@
}

pub open spec fn pat_dkey() -> Seq<char> {
    "<date key=\""@
}

pub open spec fn pat_value() -> Seq<char> {
    "\" value=\""@
}

pub open spec fn pat_attr_close() -> Seq<char> {
    "\"/>"@
}

pub open spec fn pat_quote() -> Seq<char> {
    "\""@
}

pub open spec fn pat_trace_open() -> Seq<char> {
    "<trace>"@
}

pub open spec fn pat_trace_close() -> Seq<char> {
    "</trace>"@
}

pub open spec fn pat_event_open() -> Seq<char> {
    "<event>"@
}

pub open spec fn pat_event_close() -> Seq<char> {
    "</event>"@
}

/// Pins down the lengths of all patterns.
pub proof fn xes_pattern_lengths()
    ensures
        pat_skey().len() == 13,
        pat_dkey().len() == 11,
        pat_value().len() == 9,
        pat_attr_close().len() == 3,
        pat_quote().len() == 1,
        pat_trace_open().len() == 7,
        pat_trace_close().len() == 8,
        pat_event_open().len() == 7,
        pat_event_close().len() == 8,
{
    reveal_strlit("<string key=\"");
    reveal_strlit("<date key=\"");
    reveal_strlit("\" value=\"");
    reveal_strlit("\"/>");
    reveal_strlit("\"");
    reveal_strlit("<trace>");
    reveal_strlit("</trace>");
    reveal_strlit("<event>");
    reveal_strlit("</event>");
}

// ─── key/value attribute scanning ──────────────────────────────────────────

/// Successive `(key, value)` pairs of attributes introduced by `prefix`
/// (`<string key="` or `<date key="`): the key runs to the next quote and
/// must be non-empty, then `" value="` must follow, the value runs to the
/// next quote, and `"/>` must close the element; anything else skips to the
/// next opener.
pub open spec fn scan_kv(s: Seq<char>, prefix: Seq<char>, i: int) -> Seq<(Seq<char>, Seq<char>)>
    decreases s.len() - i
        when prefix.len() > 0
        via scan_kv_dec
{
    match spec_find(s, prefix, i) {
        None => seq![],
        Some(a) => {
            let ks = a + prefix.len();
            match spec_find(s, pat_quote(), ks) {
                None => seq![],
                Some(q) => if q == ks || !match_at(s, pat_value(), q) {
                    scan_kv(s, prefix, a + 1)
                } else {
                    let vs = q + pat_value().len();
                    match spec_find(s, pat_quote(), vs) {
                        None => seq![],
                        Some(q2) => if match_at(s, pat_attr_close(), q2) {
                            seq![(s.subrange(ks, q), s.subrange(vs, q2))] + scan_kv(
                                s,
                                prefix,
                                q2 + pat_attr_close().len(),
                            )
                        } else {
                            scan_kv(s, prefix, a + 1)
                        },
                    }
                },
            }
        },
    }
}

#[via_fn]
proof fn scan_kv_dec(s: Seq<char>, prefix: Seq<char>, i: int) {
    xes_pattern_lengths();
    lemma_find_props(s, prefix, i);
    match spec_find(s, prefix, i) {
        None => {},
        Some(a) => {
            lemma_find_props(s, pat_quote(), a + prefix.len());
            match spec_find(s, pat_quote(), a + prefix.len()) {
                None => {},
                Some(q) => {
                    lemma_find_props(s, pat_quote(), q + pat_value().len());
                },
            }
        },
    }
}

/// The value of the last pair carrying `key`, if any.
pub open spec fn kv_last(pairs: Seq<(Seq<char>, Seq<char>)>, key: Seq<char>) -> Option<Seq<char>>
    decreases pairs.len(),
{
    if pairs.len() == 0 {
        None
    } else if pairs.last().0 == key {
        Some(pairs.last().1)
    } else {
        kv_last(pairs.drop_last(), key)
    }
}

/// An attribute map agrees with a scanned pair list: each key maps to the
/// value of its last pair.
pub open spec fn map_matches_kv(
    m: Map<Seq<char>, Seq<char>>,
    pairs: Seq<(Seq<char>, Seq<char>)>,
) -> bool {
    forall|key: Seq<char>|
        match #[trigger] kv_last(pairs, key) {
            Some(v) => m.contains_key(key) && m[key] == v,
            None => !m.contains_key(key),
        }
}

// ─── timestamps (chrono) ───────────────────────────────────────────────────

/// The milliseconds since the Unix epoch denoted by an RFC 3339 string, if
/// it parses; a function of the text alone.
pub uninterp spec fn rfc3339_millis(s: Seq<char>) -> Option<i64>;

/// Relies on chrono's `DateTime::parse_from_rfc3339`: whether a string
/// parses, and the instant it denotes, depend on the characters alone; the
/// instant is converted to UTC and returned in milliseconds since the epoch.
#[verifier::external_body]
pub fn parse_rfc3339_ms(s: &str) -> (r: Option<i64>)
    ensures
        r == rfc3339_millis(s@),
{
    match chrono::DateTime::parse_from_rfc3339(s) {
        Ok(dt) => Some(dt.with_timezone(&chrono::Utc).timestamp_millis()),
        Err(_) => None,
    }
}

/// The timestamp of an event: the last `time:timestamp` date attribute
/// whose value parses as RFC 3339.
pub open spec fn ts_last(pairs: Seq<(Seq<char>, Seq<char>)>) -> Option<i64>
    decreases pairs.len(),
{
    if pairs.len() == 0 {
        None
    } else if pairs.last().0 == "time:timestamp"@ && rfc3339_millis(pairs.last().1) is Some {
        rfc3339_millis(pairs.last().1)
    } else {
        ts_last(pairs.drop_last())
    }
}

// ─── the grammar, per block ────────────────────────────────────────────────

/// The content ranges of the `<trace>` blocks of a document.
pub open spec fn trace_ranges(s: Seq<char>) -> Seq<(int, int)> {
    scan_blocks(s, pat_trace_open(), pat_trace_close(), 0)
}

/// The content ranges of the `<event>` blocks of a trace.
pub open spec fn event_ranges(content: Seq<char>) -> Seq<(int, int)> {
    scan_blocks(content, pat_event_open(), pat_event_close(), 0)
}

/// The case identifier of a trace: the last `concept:name` string attribute
/// anywhere in its content, or the sentinel.
pub open spec fn spec_case_id(content: Seq<char>) -> Seq<char> {
    match kv_last(scan_kv(content, pat_skey(), 0), "concept:name"@) {
        Some(v) => v,
        None => "case-unknown"@,
    }
}

/// The activity of an event: the last `concept:name` string attribute in
/// its content, or the sentinel.
pub open spec fn spec_activity(content: Seq<char>) -> Seq<char> {
    match kv_last(scan_kv(content, pat_skey(), 0), "concept:name"@) {
        Some(v) => v,
        None => "unknown"@,
    }
}

/// The timestamp of an event, from its date attributes.
pub open spec fn spec_timestamp(content: Seq<char>) -> Option<i64> {
    ts_last(scan_kv(content, pat_dkey(), 0))
}

/// What a parsed trace states about its source block content.
pub open spec fn trace_content_matches(content: Seq<char>, tv: crate::log_model::TraceV) -> bool {
    &&& tv.case_id == spec_case_id(content)
    &&& map_matches_kv(amap(tv.attributes), scan_kv(content, pat_skey(), 0))
    &&& tv.events.len() == event_ranges(content).len()
    &&& forall|e: int|
        0 <= e < event_ranges(content).len() ==> event_content_matches(
            content.subrange(
                (#[trigger] event_ranges(content)[e]).0,
                event_ranges(content)[e].1,
            ),
            tv.events[e],
        )
}

/// What a parsed event states about its source block content.
pub open spec fn event_content_matches(ec: Seq<char>, ev: crate::log_model::EventV) -> bool {
    &&& ev.activity == spec_activity(ec)
    &&& ev.timestamp == spec_timestamp(ec)
    &&& map_matches_kv(amap(ev.attributes), scan_kv(ec, pat_skey(), 0))
}

// ─── executable scanning and building ──────────────────────────────────────

/// All `(key, value)` attribute pairs introduced by `prefix`; agrees with
/// `scan_kv`.
fn scan_attr_pairs(s: &str, v: &Vec<char>, prefix: &Vec<char>) -> (r: Vec<(String, String)>)
    requires
        v@ == s@,
        prefix@.len() > 0,
    ensures
        r@.map(|_k: int, p: (String, String)| (p.0@, p.1@)) == scan_kv(s@, prefix@, 0),
{
    let n = v.len();
    let quote = crate::text::to_chars("\"");
    let val_open = crate::text::to_chars("\" value=\"");
    let attr_close = crate::text::to_chars("\"/>");
    proof {
        xes_pattern_lengths();
    }
    let mut r: Vec<(String, String)> = Vec::new();
    let mut i: usize = 0;
    loop
        invariant
            n == v@.len(),
            v@ == s@,
            prefix@.len() > 0,
            quote@ == pat_quote(),
            val_open@ == pat_value(),
            attr_close@ == pat_attr_close(),
            r@.map(|_k: int, p: (String, String)| (p.0@, p.1@)) + scan_kv(s@, prefix@, i as int)
                == scan_kv(s@, prefix@, 0),
        decreases n + 1 - i,
    {
        let ghost pre = r@.map(|_k: int, p: (String, String)| (p.0@, p.1@));
        match find_from(v, prefix, i) {
            None => {
                proof {
                    assert(pre + scan_kv(s@, prefix@, i as int) =~= pre);
                }
                return r;
            },
            Some(a) => {
                proof {
                    lemma_find_props(v@, prefix@, i as int);
                }
                let ks = a + prefix.len();
                match find_from(v, &quote, ks) {
                    None => {
                        proof {
                            assert(pre + scan_kv(s@, prefix@, i as int) =~= pre);
                        }
                        return r;
                    },
                    Some(q) => {
                        proof {
                            lemma_find_props(v@, pat_quote(), ks as int);
                        }
                        if q == ks || !(n - q >= 9 && is_match(v, &val_open, q)) {
                            proof {
                                if q != ks && q + 9 > n {
                                    assert(!match_at(v@, pat_value(), q as int));
                                }
                            }
                            i = a + 1;
                        } else {
                            let vs = q + 9;
                            match find_from(v, &quote, vs) {
                                None => {
                                    proof {
                                        assert(pre + scan_kv(s@, prefix@, i as int) =~= pre);
                                    }
                                    return r;
                                },
                                Some(q2) => {
                                    proof {
                                        lemma_find_props(v@, pat_quote(), vs as int);
                                    }
                                    if n - q2 >= 3 && is_match(v, &attr_close, q2) {
                                        let key = s.substring_char(ks, q).to_owned();
                                        let value = s.substring_char(vs, q2).to_owned();
                                        r.push((key, value));
                                        proof {
                                            assert(r@.map(
                                                |_k: int, p: (String, String)| (p.0@, p.1@),
                                            ) + scan_kv(s@, prefix@, q2 + 3 as int) =~= pre
                                                + scan_kv(s@, prefix@, i as int));
                                        }
                                        i = q2 + 3;
                                    } else {
                                        proof {
                                            if q2 + 3 > n {
                                                assert(!match_at(v@, pat_attr_close(), q2 as int));
                                            }
                                        }
                                        i = a + 1;
                                    }
                                },
                            }
                        }
                    },
                }
            },
        }
    }
}

/// Build the attribute table of a block and extract its last
/// `concept:name`, falling back to `default_name`.
fn build_attrs(pairs: &Vec<(String, String)>, default_name: &str) -> (r: (Assoc<String>, String))
    ensures
        r.0.wf(),
        map_matches_kv(
            amap(crate::log_model::attrs_view(r.0)),
            pairs@.map(|_k: int, p: (String, String)| (p.0@, p.1@)),
        ),
        r.1@ == (match kv_last(
            pairs@.map(|_k: int, p: (String, String)| (p.0@, p.1@)),
            "concept:name"@,
        ) {
            Some(v) => v,
            None => default_name@,
        }),
{
    let ghost pv = pairs@.map(|_k: int, p: (String, String)| (p.0@, p.1@));
    let mut attrs: Assoc<String> = Assoc::new();
    let mut name = default_name.to_owned();
    let n = pairs.len();
    let mut j: usize = 0;
    while j < n
        invariant
            j <= n,
            n == pairs@.len(),
            pv == pairs@.map(|_k: int, p: (String, String)| (p.0@, p.1@)),
            attrs.wf(),
            forall|key: Seq<char>|
                match #[trigger] kv_last(pv.take(j as int), key) {
                    Some(v) => attrs.m().contains_key(key) && attrs.m()[key]@ == v,
                    None => !attrs.m().contains_key(key),
                },
            name@ == (match kv_last(pv.take(j as int), "concept:name"@) {
                Some(v) => v,
                None => default_name@,
            }),
        decreases n - j,
    {
        let key = &pairs[j].0;
        let value = &pairs[j].1;
        if crate::text::str_eq(key.as_str(), "concept:name") {
            name = value.clone();
        }
        let ghost olda = attrs;
        attrs.set(key.as_str(), value.clone());
        proof {
            assert(pv.take(j + 1 as int).drop_last() =~= pv.take(j as int));
            assert(pv.take(j + 1 as int).last() == pv[j as int]);
            assert forall|k2: Seq<char>|
                match #[trigger] kv_last(pv.take(j + 1 as int), k2) {
                    Some(v) => attrs.m().contains_key(k2) && attrs.m()[k2]@ == v,
                    None => !attrs.m().contains_key(k2),
                } by {
                assert(kv_last(pv.take(j + 1 as int), k2) == (if pv[j as int].0 == k2 {
                    Some(pv[j as int].1)
                } else {
                    kv_last(pv.take(j as int), k2)
                }));
            }
        }
        j += 1;
    }
    proof {
        assert(pv.take(n as int) =~= pv);
        assert forall|key: Seq<char>|
            match #[trigger] kv_last(pv, key) {
                Some(v) => amap(crate::log_model::attrs_view(attrs)).contains_key(key) && amap(
                    crate::log_model::attrs_view(attrs),
                )[key] == v,
                None => !amap(crate::log_model::attrs_view(attrs)).contains_key(key),
            } by {
            crate::log_model::lemma_amap_views(attrs.pairs@, key);
            assert(attrs.pseq() == attrs.pairs@.map(|_i: int, p: (String, String)| (p.0@, p.1)));
            assert(crate::log_model::attrs_view(attrs) == attrs.pairs@.map(
                |_i: int, p: (String, String)| (p.0@, p.1@),
            ));
        }
    }
    (attrs, name)
}

/// Parse one event block.
fn parse_event(content: &str) -> (ev: Event)
    ensures
        ev.wf(),
        event_content_matches(content@, ev@),
{
    let v = crate::text::to_chars(content);
    let skey = crate::text::to_chars("<string key=\"");
    let dkey = crate::text::to_chars("<date key=\"");
    proof {
        xes_pattern_lengths();
    }
    let string_pairs = scan_attr_pairs(content, &v, &skey);
    let (attributes, activity) = build_attrs(&string_pairs, "unknown");

    let date_pairs = scan_attr_pairs(content, &v, &dkey);
    let ghost dv = date_pairs@.map(|_k: int, p: (String, String)| (p.0@, p.1@));
    let mut timestamp: Option<i64> = None;
    let nd = date_pairs.len();
    let mut j: usize = 0;
    while j < nd
        invariant
            j <= nd,
            nd == date_pairs@.len(),
            dv == date_pairs@.map(|_k: int, p: (String, String)| (p.0@, p.1@)),
            timestamp == ts_last(dv.take(j as int)),
        decreases nd - j,
    {
        if crate::text::str_eq(date_pairs[j].0.as_str(), "time:timestamp") {
            match parse_rfc3339_ms(date_pairs[j].1.as_str()) {
                Some(ms) => {
                    timestamp = Some(ms);
                },
                None => {},
            }
        }
        proof {
            assert(dv.take(j + 1 as int).drop_last() =~= dv.take(j as int));
            assert(dv.take(j + 1 as int).last() == dv[j as int]);
        }
        j += 1;
    }
    proof {
        assert(dv.take(nd as int) =~= dv);
    }
    Event { activity, timestamp, attributes }
}

/// Parse one trace block.
fn parse_trace(content: &str) -> (tr: Trace)
    ensures
        tr.wf(),
        trace_content_matches(content@, tr@),
{
    let v = crate::text::to_chars(content);
    let skey = crate::text::to_chars("<string key=\"");
    let eopen = crate::text::to_chars("<event>");
    let eclose = crate::text::to_chars("</event>");
    proof {
        xes_pattern_lengths();
    }
    let string_pairs = scan_attr_pairs(content, &v, &skey);
    let (attributes, case_id) = build_attrs(&string_pairs, "case-unknown");

    let eranges = crate::text::find_blocks(&v, &eopen, &eclose);
    let ghost ers = event_ranges(content@);
    let mut events: Vec<Event> = Vec::new();
    let ne = eranges.len();
    let mut e: usize = 0;
    while e < ne
        invariant
            e <= ne,
            ne == eranges@.len(),
            eranges@.map(|_k: int, p: (usize, usize)| (p.0 as int, p.1 as int)) == ers,
            forall|k: int|
                0 <= k < eranges@.len() ==> (#[trigger] eranges@[k]).0 <= eranges@[k].1
                    && eranges@[k].1 <= content@.len(),
            events@.len() == e,
            forall|k: int|
                0 <= k < e ==> (#[trigger] events@[k]).wf() && event_content_matches(
                    content@.subrange(ers[k].0, ers[k].1),
                    events@[k]@,
                ),
        decreases ne - e,
    {
        let ec = content.substring_char(eranges[e].0, eranges[e].1);
        proof {
            assert(ers[e as int] == (eranges@[e as int].0 as int, eranges@[e as int].1 as int));
        }
        let ev = parse_event(ec);
        events.push(ev);
        e += 1;
    }
    Trace { case_id, events, attributes }
}

/// Parse the XES-like log text: one trace per `<trace>` block, in document
/// order, each with the case identifier, attributes, events, activities and
/// timestamps its block content denotes. Fails exactly when the text holds
/// no trace block.
pub fn parse_xes(xes_str: &str) -> (r: Result<EventLog, String>)
    ensures
        ({
            let s = xes_str@;
            match r {
                Ok(log) => {
                    &&& trace_ranges(s).len() > 0
                    &&& log.wf()
                    &&& log@.traces.len() == trace_ranges(s).len()
                    &&& forall|t: int|
                        0 <= t < trace_ranges(s).len() ==> trace_content_matches(
                            s.subrange((#[trigger] trace_ranges(s)[t]).0, trace_ranges(s)[t].1),
                            log@.traces[t],
                        )
                },
                Err(e) => trace_ranges(s).len() == 0 && e@ == "No traces found in XES log"@,
            }
        }),
{
    let ghost s = xes_str@;
    let v = crate::text::to_chars(xes_str);
    let topen = crate::text::to_chars("<trace>");
    let tclose = crate::text::to_chars("</trace>");
    proof {
        xes_pattern_lengths();
    }
    let ranges = crate::text::find_blocks(&v, &topen, &tclose);
    let ghost trs = trace_ranges(s);
    if ranges.len() == 0 {
        proof {
            assert(ranges@.map(|_k: int, p: (usize, usize)| (p.0 as int, p.1 as int)).len() == 0);
        }
        return Err("No traces found in XES log".to_owned());
    }
    let mut traces: Vec<Trace> = Vec::new();
    let nt = ranges.len();
    let mut t: usize = 0;
    while t < nt
        invariant
            t <= nt,
            nt == ranges@.len(),
            v@ == s,
            ranges@.map(|_k: int, p: (usize, usize)| (p.0 as int, p.1 as int)) == trs,
            forall|k: int|
                0 <= k < ranges@.len() ==> (#[trigger] ranges@[k]).0 <= ranges@[k].1
                    && ranges@[k].1 <= v@.len(),
            traces@.len() == t,
            forall|k: int|
                0 <= k < t ==> (#[trigger] traces@[k]).wf() && trace_content_matches(
                    s.subrange(trs[k].0, trs[k].1),
                    traces@[k]@,
                ),
        decreases nt - t,
    {
        let content = xes_str.substring_char(ranges[t].0, ranges[t].1);
        proof {
            assert(trs[t as int] == (ranges@[t as int].0 as int, ranges@[t as int].1 as int));
        }
        let tr = parse_trace(content);
        traces.push(tr);
        t += 1;
    }
    Ok(EventLog { traces })
}

} // verus!
