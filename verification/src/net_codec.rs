//! The process-model codec: a parser and a serializer for a restricted
//! PNML-like markup.
//!
//! The parser scans for `<place id="…"> … <name> … <text>…</text>`,
//! the transition equivalent, `<arc … source="…" … target="…"` (within one
//! line), and `<initialMarking><text>…</text>` elements, tolerating any
//! surrounding text. Its one hard failure is a model without transitions.
//! The serializer writes one element per entity; an initial marking entry is
//! emitted only for places holding at least one token.

use vstd::prelude::*;

use crate::assoc::Assoc;
use crate::log_model::EventLog;
use crate::net_model::{Arc, Marking, PetriNet, Place, Transition};
use crate::text::{find_from, is_match, is_space, lemma_find_props, match_at, spec_find, trim_end, trim_start, trim_token};

verus! {

// ─── patterns ──────────────────────────────────────────────────────────────

pub open spec fn pat_place() -> Seq<char> {
    "<place id=\""@
}

pub open spec fn pat_trans() -> Seq<char> {
    "<transition id=\""@
}

pub open spec fn pat_arc() -> Seq<char> {
    "<arc"@
}

pub open spec fn pat_source() -> Seq<char> {
    "source=\""@
}

pub open spec fn pat_target() -> Seq<char> {
    "target=\""@
}

pub open spec fn pat_quote() -> Seq<char> {
    "\""@
}

pub open spec fn pat_lt() -> Seq<char> {
    "<"@
}

pub open spec fn pat_name() -> Seq<char> {
    "<name>"@
}

pub open spec fn pat_text() -> Seq<char> {
    "<text>"@
}

pub open spec fn pat_text_close() -> Seq<char> {
    "</text>"@
}

pub open spec fn pat_im() -> Seq<char> {
    "<initialMarking><text>"@
}

/// Pins down the lengths of all patterns.
pub proof fn pattern_lengths()
    ensures
        pat_place().len() == 11,
        pat_trans().len() == 16,
        pat_arc().len() == 4,
        pat_source().len() == 8,
        pat_target().len() == 8,
        pat_quote().len() == 1,
        pat_lt().len() == 1,
        pat_name().len() == 6,
        pat_text().len() == 6,
        pat_text_close().len() == 7,
        pat_im().len() == 22,
{
    reveal_strlit("<place id=\"");
    reveal_strlit("<transition id=\"");
    reveal_strlit("<arc");
    reveal_strlit("source=\"");
    reveal_strlit("target=\"");
    reveal_strlit("\"");
    reveal_strlit("<");
    reveal_strlit("<name>");
    reveal_strlit("<text>");
    reveal_strlit("</text>");
    reveal_strlit("<initialMarking><text>");
}

// ─── element scanning ──────────────────────────────────────────────────────

/// The first workable `<text>…</text>` value at or after `from`: the value
/// runs from just after `<text>` to the next `<`, which must open `</text>`;
/// a `<text>` whose next `<` does not close it is skipped.
pub open spec fn text_value(s: Seq<char>, from: int) -> Option<(int, int)>
    decreases s.len() - from
        via text_value_dec
{
    match spec_find(s, pat_text(), from) {
        None => None,
        Some(t) => {
            let vs = t + pat_text().len();
            match spec_find(s, pat_lt(), vs) {
                None => None,
                Some(u) => if match_at(s, pat_text_close(), u) {
                    Some((vs, u))
                } else {
                    text_value(s, t + 1)
                },
            }
        },
    }
}

#[via_fn]
proof fn text_value_dec(s: Seq<char>, from: int) {
    pattern_lengths();
    lemma_find_props(s, pat_text(), from);
}

/// Where a found text value lies relative to the search start.
pub proof fn lemma_text_value_props(s: Seq<char>, from: int)
    ensures
        match text_value(s, from) {
            Some(r) => from + pat_text().len() <= r.0 <= r.1 && r.1 + pat_text_close().len()
                <= s.len(),
            None => true,
        },
    decreases (if from <= s.len() { s.len() - from + 1 } else { 0 }),
{
    pattern_lengths();
    lemma_find_props(s, pat_text(), from);
    match spec_find(s, pat_text(), from) {
        None => {},
        Some(t) => {
            lemma_find_props(s, pat_lt(), t + pat_text().len());
            match spec_find(s, pat_lt(), t + pat_text().len()) {
                None => {},
                Some(u) => {
                    if !match_at(s, pat_text_close(), u) {
                        lemma_text_value_props(s, t + 1);
                    }
                },
            }
        },
    }
}

/// Successive `(id, label)` pairs of elements introduced by `prefix` (a
/// `<place id="` or `<transition id="` opener): the identifier runs to the
/// next quote and must be non-empty, the label is the element's first
/// workable `<name>…<text>` value; the scan resumes after the value.
pub open spec fn scan_id_name(s: Seq<char>, prefix: Seq<char>, i: int) -> Seq<
    (Seq<char>, Seq<char>),
>
    decreases s.len() - i
        when prefix.len() > 0
        via scan_id_name_dec
{
    match spec_find(s, prefix, i) {
        None => seq![],
        Some(a) => {
            let ids = a + prefix.len();
            match spec_find(s, pat_quote(), ids) {
                None => seq![],
                Some(q) => if q == ids {
                    scan_id_name(s, prefix, a + 1)
                } else {
                    match spec_find(s, pat_name(), q + 1) {
                        None => seq![],
                        Some(nm) => match text_value(s, nm + pat_name().len()) {
                            None => seq![],
                            Some(r) => seq![(s.subrange(ids, q), s.subrange(r.0, r.1))]
                                + scan_id_name(s, prefix, r.1 + pat_text_close().len()),
                        },
                    }
                },
            }
        },
    }
}

#[via_fn]
proof fn scan_id_name_dec(s: Seq<char>, prefix: Seq<char>, i: int) {
    pattern_lengths();
    lemma_find_props(s, prefix, i);
    match spec_find(s, prefix, i) {
        None => {},
        Some(a) => {
            lemma_find_props(s, pat_quote(), a + prefix.len());
            match spec_find(s, pat_quote(), a + prefix.len()) {
                None => {},
                Some(q) => {
                    lemma_find_props(s, pat_name(), q + 1);
                    match spec_find(s, pat_name(), q + 1) {
                        None => {},
                        Some(nm) => {
                            lemma_text_value_props(s, nm + pat_name().len());
                        },
                    }
                },
            }
        },
    }
}

/// There is a newline strictly between `a` (inclusive) and `b` (exclusive).
pub open spec fn has_newline(s: Seq<char>, a: int, b: int) -> bool {
    exists|k: int| a <= k < b && 0 <= k < s.len() && s[k] == '\n'
}

/// Successive `(source, target)` pairs of `<arc` elements: the `source="`
/// and `target="` attributes must follow on the same line, each value runs
/// to the next quote and must be non-empty. An arc whose attributes cannot
/// be matched on its line is skipped.
pub open spec fn scan_arcs(s: Seq<char>, i: int) -> Seq<(Seq<char>, Seq<char>)>
    decreases s.len() - i
        via scan_arcs_dec
{
    match spec_find(s, pat_arc(), i) {
        None => seq![],
        Some(a) => {
            match spec_find(s, pat_source(), a + pat_arc().len()) {
                None => seq![],
                Some(sp) => if has_newline(s, a + pat_arc().len(), sp) {
                    scan_arcs(s, a + 1)
                } else {
                    let ss = sp + pat_source().len();
                    match spec_find(s, pat_quote(), ss) {
                        None => seq![],
                        Some(q1) => if q1 == ss {
                            scan_arcs(s, a + 1)
                        } else {
                            match spec_find(s, pat_target(), q1 + 1) {
                                None => seq![],
                                Some(tp) => if has_newline(s, q1 + 1, tp) {
                                    scan_arcs(s, a + 1)
                                } else {
                                    let ts = tp + pat_target().len();
                                    match spec_find(s, pat_quote(), ts) {
                                        None => seq![],
                                        Some(q2) => if q2 == ts {
                                            scan_arcs(s, a + 1)
                                        } else {
                                            seq![(s.subrange(ss, q1), s.subrange(ts, q2))]
                                                + scan_arcs(s, q2 + 1)
                                        },
                                    }
                                },
                            }
                        },
                    }
                },
            }
        },
    }
}

#[via_fn]
proof fn scan_arcs_dec(s: Seq<char>, i: int) {
    pattern_lengths();
    lemma_find_props(s, pat_arc(), i);
    match spec_find(s, pat_arc(), i) {
        None => {},
        Some(a) => {
            lemma_find_props(s, pat_source(), a + pat_arc().len());
            match spec_find(s, pat_source(), a + pat_arc().len()) {
                None => {},
                Some(sp) => {
                    lemma_find_props(s, pat_quote(), sp + pat_source().len());
                    match spec_find(s, pat_quote(), sp + pat_source().len()) {
                        None => {},
                        Some(q1) => {
                            lemma_find_props(s, pat_target(), q1 + 1);
                            match spec_find(s, pat_target(), q1 + 1) {
                                None => {},
                                Some(tp) => {
                                    lemma_find_props(s, pat_quote(), tp + pat_target().len());
                                },
                            }
                        },
                    }
                },
            }
        },
    }
}

/// Value ranges of successive `<initialMarking><text>…</text>` elements;
/// the value runs to the next `<`, which must open `</text>`.
pub open spec fn scan_initials(s: Seq<char>, i: int) -> Seq<(int, int)>
    decreases s.len() - i
        via scan_initials_dec
{
    match spec_find(s, pat_im(), i) {
        None => seq![],
        Some(a) => {
            let vs = a + pat_im().len();
            match spec_find(s, pat_lt(), vs) {
                None => seq![],
                Some(u) => if match_at(s, pat_text_close(), u) {
                    seq![(vs, u)] + scan_initials(s, u + pat_text_close().len())
                } else {
                    scan_initials(s, a + 1)
                },
            }
        },
    }
}

#[via_fn]
proof fn scan_initials_dec(s: Seq<char>, i: int) {
    pattern_lengths();
    lemma_find_props(s, pat_im(), i);
    match spec_find(s, pat_im(), i) {
        None => {},
        Some(a) => {
            lemma_find_props(s, pat_lt(), a + pat_im().len());
        },
    }
}

// ─── marking tokens ────────────────────────────────────────────────────────

/// The trimmed text of a token range.
pub open spec fn tok_of(s: Seq<char>, t: (int, int)) -> Seq<char> {
    let a = trim_start(s, t.0, t.1);
    let b = trim_end(s, a, t.1);
    s.subrange(a, b)
}

/// Token ranges of a comma-separated value range: each token runs to the
/// next comma, the last to the end.
pub open spec fn split_range(s: Seq<char>, a: int, b: int) -> Seq<(int, int)>
    decreases b - a
        when a <= b
        via split_range_dec
{
    match spec_find(s, ","@, a) {
        Some(k) => if k < b {
            seq![(a, k)] + split_range(s, k + 1, b)
        } else {
            seq![(a, b)]
        },
        None => seq![(a, b)],
    }
}

#[via_fn]
proof fn split_range_dec(s: Seq<char>, a: int, b: int) {
    lemma_find_props(s, ","@, a);
}

/// All marking tokens of the document: the tokens of every non-empty
/// initial-marking value, in document order.
pub open spec fn ranges_tokens(s: Seq<char>, rs: Seq<(int, int)>) -> Seq<(int, int)>
    decreases rs.len(),
{
    if rs.len() == 0 {
        seq![]
    } else {
        ranges_tokens(s, rs.drop_last()) + (if rs.last().0 == rs.last().1 {
            seq![]
        } else {
            split_range(s, rs.last().0, rs.last().1)
        })
    }
}

/// How many of the given tokens trim to `p`.
pub open spec fn cnt_toks(s: Seq<char>, toks: Seq<(int, int)>, p: Seq<char>) -> int
    decreases toks.len(),
{
    if toks.len() == 0 {
        0
    } else {
        cnt_toks(s, toks.drop_last(), p) + if tok_of(s, toks.last()) == p {
            1int
        } else {
            0int
        }
    }
}

/// The token count of place `p` over the whole document.
pub open spec fn spec_marking_count(s: Seq<char>, p: Seq<char>) -> int {
    cnt_toks(s, ranges_tokens(s, scan_initials(s, 0)), p)
}

/// Token prefix counts never exceed the full count.
pub proof fn lemma_cnt_toks_prefix(s: Seq<char>, toks: Seq<(int, int)>, n: int, p: Seq<char>)
    requires
        0 <= n <= toks.len(),
    ensures
        0 <= cnt_toks(s, toks.take(n), p) <= cnt_toks(s, toks, p),
    decreases toks.len(),
{
    if toks.len() > 0 {
        if n == toks.len() {
            assert(toks.take(n) =~= toks);
            lemma_cnt_toks_prefix(s, toks.drop_last(), n - 1, p);
            assert(toks.drop_last().take(n - 1) =~= toks.drop_last());
        } else {
            assert(toks.take(n) =~= toks.drop_last().take(n));
            lemma_cnt_toks_prefix(s, toks.drop_last(), n, p);
        }
    }
}

// ─── executable scanners ───────────────────────────────────────────────────

/// A single-character pattern matches where that character stands.
proof fn lemma_newline_match(s: Seq<char>, k: int)
    ensures
        match_at(s, "\n"@, k) <==> 0 <= k < s.len() && s[k] == '\n',
{
    reveal_strlit("\n");
    if 0 <= k < s.len() && s[k] == '\n' {
        assert(s.subrange(k, k + 1) =~= "\n"@);
    }
    if match_at(s, "\n"@, k) {
        assert(s.subrange(k, k + 1)[0] == '\n');
    }
}

/// Whether `[a, b)` contains a newline; agrees with `has_newline`.
fn check_newline(v: &Vec<char>, nl: &Vec<char>, a: usize, b: usize) -> (r: bool)
    requires
        nl@ == "\n"@,
        b <= v@.len(),
    ensures
        r == has_newline(v@, a as int, b as int),
{
    proof {
        lemma_find_props(v@, nl@, a as int);
        reveal_strlit("\n");
    }
    match find_from(v, nl, a) {
        Some(k) => {
            proof {
                lemma_newline_match(v@, k as int);
                if k >= b {
                    assert forall|t: int|
                        a <= t < b && 0 <= t < v@.len() implies v@[t] != '\n' by {
                        lemma_newline_match(v@, t);
                    }
                }
            }
            k < b
        },
        None => {
            proof {
                assert forall|t: int| a <= t < b && 0 <= t < v@.len() implies v@[t] != '\n' by {
                    lemma_newline_match(v@, t);
                }
            }
            false
        },
    }
}

/// The first workable text value at or after `from`; agrees with
/// `text_value`.
fn find_text_value(v: &Vec<char>, topen: &Vec<char>, tlt: &Vec<char>, tclose: &Vec<char>, from: usize) -> (r:
    Option<(usize, usize)>)
    requires
        topen@ == pat_text(),
        tlt@ == pat_lt(),
        tclose@ == pat_text_close(),
    ensures
        match r {
            Some(p) => text_value(v@, from as int) == Some((p.0 as int, p.1 as int)) && p.0 <= p.1
                && p.1 + pat_text_close().len() <= v@.len(),
            None => text_value(v@, from as int) is None,
        },
{
    let n = v.len();
    proof {
        pattern_lengths();
    }
    let mut c = from;
    loop
        invariant
            n == v@.len(),
            text_value(v@, from as int) == text_value(v@, c as int),
        decreases n + 1 - c,
    {
        match find_from(v, topen, c) {
            None => {
                return None;
            },
            Some(t) => {
                proof {
                    lemma_find_props(v@, pat_text(), c as int);
                }
                match find_from(v, tlt, t + 6) {
                    None => {
                        return None;
                    },
                    Some(u) => {
                        proof {
                            lemma_find_props(v@, pat_lt(), t + 6 as int);
                        }
                        if n - u >= 7 && is_match(v, tclose, u) {
                            return Some((t + 6, u));
                        }
                        proof {
                            if u + 7 <= n {
                            } else {
                                assert(!match_at(v@, pat_text_close(), u as int));
                            }
                        }
                        c = t + 1;
                    },
                }
            },
        }
    }
}

/// All `(id, label)` element pairs introduced by `prefix`; agrees with
/// `scan_id_name`.
fn scan_entities(s: &str, v: &Vec<char>, prefix: &Vec<char>) -> (r: Vec<(String, String)>)
    requires
        v@ == s@,
        prefix@.len() > 0,
    ensures
        r@.map(|_k: int, p: (String, String)| (p.0@, p.1@)) == scan_id_name(s@, prefix@, 0),
{
    let n = v.len();
    let quote = crate::text::to_chars("\"");
    let name_open = crate::text::to_chars("<name>");
    let topen = crate::text::to_chars("<text>");
    let tlt = crate::text::to_chars("<");
    let tclose = crate::text::to_chars("</text>");
    proof {
        pattern_lengths();
    }
    let mut r: Vec<(String, String)> = Vec::new();
    let mut i: usize = 0;
    loop
        invariant
            n == v@.len(),
            v@ == s@,
            prefix@.len() > 0,
            quote@ == pat_quote(),
            name_open@ == pat_name(),
            topen@ == pat_text(),
            tlt@ == pat_lt(),
            tclose@ == pat_text_close(),
            r@.map(|_k: int, p: (String, String)| (p.0@, p.1@)) + scan_id_name(
                s@,
                prefix@,
                i as int,
            ) == scan_id_name(s@, prefix@, 0),
        decreases n + 1 - i,
    {
        let ghost pre = r@.map(|_k: int, p: (String, String)| (p.0@, p.1@));
        match find_from(v, prefix, i) {
            None => {
                proof {
                    assert(pre + scan_id_name(s@, prefix@, i as int) =~= pre);
                }
                return r;
            },
            Some(a) => {
                proof {
                    lemma_find_props(v@, prefix@, i as int);
                }
                let ids = a + prefix.len();
                match find_from(v, &quote, ids) {
                    None => {
                        proof {
                            assert(pre + scan_id_name(s@, prefix@, i as int) =~= pre);
                        }
                        return r;
                    },
                    Some(q) => {
                        proof {
                            lemma_find_props(v@, pat_quote(), ids as int);
                        }
                        if q == ids {
                            i = a + 1;
                        } else {
                            match find_from(v, &name_open, q + 1) {
                                None => {
                                    proof {
                                        assert(pre + scan_id_name(s@, prefix@, i as int) =~= pre);
                                    }
                                    return r;
                                },
                                Some(nm) => {
                                    proof {
                                        lemma_find_props(v@, pat_name(), q + 1 as int);
                                    }
                                    match find_text_value(v, &topen, &tlt, &tclose, nm + 6) {
                                        None => {
                                            proof {
                                                assert(pre + scan_id_name(s@, prefix@, i as int)
                                                    =~= pre);
                                            }
                                            return r;
                                        },
                                        Some((vs, ve)) => {
                                            proof {
                                                lemma_text_value_props(v@, nm + 6 as int);
                                            }
                                            let id = s.substring_char(ids, q).to_owned();
                                            let label = s.substring_char(vs, ve).to_owned();
                                            r.push((id, label));
                                            proof {
                                                assert(r@.map(
                                                    |_k: int, p: (String, String)| (p.0@, p.1@),
                                                ) + scan_id_name(s@, prefix@, ve + 7 as int) =~= pre
                                                    + scan_id_name(s@, prefix@, i as int));
                                            }
                                            i = ve + 7;
                                        },
                                    }
                                },
                            }
                        }
                    },
                }
            },
        }
    }
}

/// All `(source, target)` arc pairs; agrees with `scan_arcs`.
fn scan_arc_pairs(s: &str, v: &Vec<char>) -> (r: Vec<(String, String)>)
    requires
        v@ == s@,
    ensures
        r@.map(|_k: int, p: (String, String)| (p.0@, p.1@)) == scan_arcs(s@, 0),
{
    let n = v.len();
    let arc_open = crate::text::to_chars("<arc");
    let src_open = crate::text::to_chars("source=\"");
    let tgt_open = crate::text::to_chars("target=\"");
    let quote = crate::text::to_chars("\"");
    let nl = crate::text::to_chars("\n");
    proof {
        pattern_lengths();
        reveal_strlit("\n");
    }
    let mut r: Vec<(String, String)> = Vec::new();
    let mut i: usize = 0;
    loop
        invariant
            n == v@.len(),
            v@ == s@,
            arc_open@ == pat_arc(),
            src_open@ == pat_source(),
            tgt_open@ == pat_target(),
            quote@ == pat_quote(),
            nl@ == "\n"@,
            r@.map(|_k: int, p: (String, String)| (p.0@, p.1@)) + scan_arcs(s@, i as int)
                == scan_arcs(s@, 0),
        decreases n + 1 - i,
    {
        let ghost pre = r@.map(|_k: int, p: (String, String)| (p.0@, p.1@));
        match find_from(v, &arc_open, i) {
            None => {
                proof {
                    assert(pre + scan_arcs(s@, i as int) =~= pre);
                }
                return r;
            },
            Some(a) => {
                proof {
                    lemma_find_props(v@, pat_arc(), i as int);
                }
                match find_from(v, &src_open, a + 4) {
                    None => {
                        proof {
                            assert(pre + scan_arcs(s@, i as int) =~= pre);
                        }
                        return r;
                    },
                    Some(sp) => {
                        proof {
                            lemma_find_props(v@, pat_source(), a + 4 as int);
                        }
                        if check_newline(v, &nl, a + 4, sp) {
                            i = a + 1;
                        } else {
                            let ss = sp + 8;
                            match find_from(v, &quote, ss) {
                                None => {
                                    proof {
                                        assert(pre + scan_arcs(s@, i as int) =~= pre);
                                    }
                                    return r;
                                },
                                Some(q1) => {
                                    proof {
                                        lemma_find_props(v@, pat_quote(), ss as int);
                                    }
                                    if q1 == ss {
                                        i = a + 1;
                                    } else {
                                        match find_from(v, &tgt_open, q1 + 1) {
                                            None => {
                                                proof {
                                                    assert(pre + scan_arcs(s@, i as int) =~= pre);
                                                }
                                                return r;
                                            },
                                            Some(tp) => {
                                                proof {
                                                    lemma_find_props(v@, pat_target(), q1 + 1 as int);
                                                }
                                                if check_newline(v, &nl, q1 + 1, tp) {
                                                    i = a + 1;
                                                } else {
                                                    let ts = tp + 8;
                                                    match find_from(v, &quote, ts) {
                                                        None => {
                                                            proof {
                                                                assert(pre + scan_arcs(s@, i as int)
                                                                    =~= pre);
                                                            }
                                                            return r;
                                                        },
                                                        Some(q2) => {
                                                            proof {
                                                                lemma_find_props(
                                                                    v@,
                                                                    pat_quote(),
                                                                    ts as int,
                                                                );
                                                            }
                                                            if q2 == ts {
                                                                i = a + 1;
                                                            } else {
                                                                let src = s.substring_char(
                                                                    ss,
                                                                    q1,
                                                                ).to_owned();
                                                                let tgt = s.substring_char(
                                                                    ts,
                                                                    q2,
                                                                ).to_owned();
                                                                r.push((src, tgt));
                                                                proof {
                                                                    assert(r@.map(
                                                                        |_k: int, p: (
                                                                            String,
                                                                            String,
                                                                        )| (p.0@, p.1@),
                                                                    ) + scan_arcs(s@, q2 + 1 as int)
                                                                        =~= pre + scan_arcs(
                                                                        s@,
                                                                        i as int,
                                                                    ));
                                                                }
                                                                i = q2 + 1;
                                                            }
                                                        },
                                                    }
                                                }
                                            },
                                        }
                                    }
                                },
                            }
                        }
                    },
                }
            },
        }
    }
}

/// All initial-marking value ranges; agrees with `scan_initials`.
fn scan_initial_ranges(v: &Vec<char>) -> (r: Vec<(usize, usize)>)
    ensures
        r@.map(|_k: int, p: (usize, usize)| (p.0 as int, p.1 as int)) == scan_initials(v@, 0),
        forall|k: int|
            0 <= k < r@.len() ==> (#[trigger] r@[k]).0 <= r@[k].1 && r@[k].1 <= v@.len(),
{
    let n = v.len();
    let im_open = crate::text::to_chars("<initialMarking><text>");
    let tlt = crate::text::to_chars("<");
    let tclose = crate::text::to_chars("</text>");
    proof {
        pattern_lengths();
    }
    let mut r: Vec<(usize, usize)> = Vec::new();
    let mut i: usize = 0;
    loop
        invariant
            n == v@.len(),
            im_open@ == pat_im(),
            tlt@ == pat_lt(),
            tclose@ == pat_text_close(),
            r@.map(|_k: int, p: (usize, usize)| (p.0 as int, p.1 as int)) + scan_initials(
                v@,
                i as int,
            ) == scan_initials(v@, 0),
            forall|k: int|
                0 <= k < r@.len() ==> (#[trigger] r@[k]).0 <= r@[k].1 && r@[k].1 <= v@.len(),
        decreases n + 1 - i,
    {
        let ghost pre = r@.map(|_k: int, p: (usize, usize)| (p.0 as int, p.1 as int));
        match find_from(v, &im_open, i) {
            None => {
                proof {
                    assert(pre + scan_initials(v@, i as int) =~= pre);
                }
                return r;
            },
            Some(a) => {
                proof {
                    lemma_find_props(v@, pat_im(), i as int);
                }
                let vs = a + 22;
                match find_from(v, &tlt, vs) {
                    None => {
                        proof {
                            assert(pre + scan_initials(v@, i as int) =~= pre);
                        }
                        return r;
                    },
                    Some(u) => {
                        proof {
                            lemma_find_props(v@, pat_lt(), vs as int);
                        }
                        if n - u >= 7 && is_match(v, &tclose, u) {
                            r.push((vs, u));
                            proof {
                                assert(r@.map(|_k: int, p: (usize, usize)| (p.0 as int, p.1 as int))
                                    + scan_initials(v@, u + 7 as int) =~= pre + scan_initials(
                                    v@,
                                    i as int,
                                ));
                            }
                            i = u + 7;
                        } else {
                            proof {
                                if u + 7 <= n {
                                } else {
                                    assert(!match_at(v@, pat_text_close(), u as int));
                                }
                            }
                            i = a + 1;
                        }
                    },
                }
            },
        }
    }
}

/// Token ranges of `[a, b)` split at commas; appended to `out`.
fn split_tokens(v: &Vec<char>, comma: &Vec<char>, a: usize, b: usize, out: &mut Vec<(usize, usize)>)
    requires
        comma@ == ","@,
        a <= b <= v@.len(),
    ensures
        final(out)@.map(|_k: int, p: (usize, usize)| (p.0 as int, p.1 as int)) == old(out)@.map(
            |_k: int, p: (usize, usize)| (p.0 as int, p.1 as int),
        ) + split_range(v@, a as int, b as int),
        final(out)@.len() >= old(out)@.len(),
        forall|t: int|
            old(out)@.len() <= t < final(out)@.len() ==> a <= (#[trigger] final(out)@[t]).0
                && final(out)@[t].0 <= final(out)@[t].1 <= b,
{
    let ghost base = old(out)@.map(|_k: int, p: (usize, usize)| (p.0 as int, p.1 as int));
    let ghost base_len = old(out)@.len();
    let mut cur = a;
    loop
        invariant
            a <= cur <= b,
            b <= v@.len(),
            comma@ == ","@,
            out@.len() >= base_len,
            forall|t: int|
                base_len <= t < out@.len() ==> a <= (#[trigger] out@[t]).0 && out@[t].0
                    <= out@[t].1 <= b,
            out@.map(|_k: int, p: (usize, usize)| (p.0 as int, p.1 as int)) + split_range(
                v@,
                cur as int,
                b as int,
            ) == base + split_range(v@, a as int, b as int),
        decreases b - cur,
    {
        let ghost pre = out@.map(|_k: int, p: (usize, usize)| (p.0 as int, p.1 as int));
        let next = find_from(v, comma, cur);
        proof {
            lemma_find_props(v@, ","@, cur as int);
        }
        match next {
            Some(k) if k < b => {
                out.push((cur, k));
                proof {
                    assert(out@.map(|_t: int, p: (usize, usize)| (p.0 as int, p.1 as int))
                        + split_range(v@, k + 1 as int, b as int) =~= pre + split_range(
                        v@,
                        cur as int,
                        b as int,
                    ));
                }
                cur = k + 1;
            },
            _ => {
                out.push((cur, b));
                proof {
                    assert(out@.map(|_t: int, p: (usize, usize)| (p.0 as int, p.1 as int)) =~= pre
                        + split_range(v@, cur as int, b as int));
                }
                return ;
            },
        }
    }
}

// ─── the parser ────────────────────────────────────────────────────────────

/// Label text that marks a transition as invisible.
pub open spec fn spec_invisible(label: Seq<char>) -> bool {
    label.len() == 0 || label == "tau"@
}

/// Parse the PNML-like model text. The places, transitions and arcs are
/// exactly what the element scans find, in document order; every arc has
/// multiplicity one; a transition is invisible when its label is empty or
/// "tau". The initial marking counts, for every place identifier, how often
/// a trimmed token of an `<initialMarking>` list names it (places declared
/// but never named hold zero tokens). One candidate final marking exists and
/// is empty. Fails exactly when no transition is found.
pub fn parse_pnml(pnml_str: &str) -> (r: Result<PetriNet, String>)
    requires
        forall|p: Seq<char>| spec_marking_count(pnml_str@, p) <= u64::MAX,
    ensures
        ({
            let s = pnml_str@;
            match r {
                Ok(net) => {
                    let places = scan_id_name(s, pat_place(), 0);
                    let trans = scan_id_name(s, pat_trans(), 0);
                    let arcs = scan_arcs(s, 0);
                    &&& trans.len() > 0
                    &&& net.wf()
                    &&& net.places@.len() == places.len()
                    &&& forall|k: int|
                        0 <= k < places.len() ==> (#[trigger] net.places@[k]).id@ == places[k].0
                            && net.places@[k].label@ == places[k].1
                    &&& net.transitions@.len() == trans.len()
                    &&& forall|k: int|
                        0 <= k < trans.len() ==> (#[trigger] net.transitions@[k]).id@ == trans[k].0
                            && net.transitions@[k].label@ == trans[k].1
                            && net.transitions@[k].is_invisible == spec_invisible(trans[k].1)
                    &&& net.arcs@.len() == arcs.len()
                    &&& forall|k: int|
                        0 <= k < arcs.len() ==> (#[trigger] net.arcs@[k]).source@ == arcs[k].0
                            && net.arcs@[k].target@ == arcs[k].1 && net.arcs@[k].multiplicity == 1
                    &&& forall|p: Seq<char>| #[trigger] net.initial_marking.spec_count(p)
                        == spec_marking_count(s, p)
                    &&& forall|k: int|
                        0 <= k < places.len() ==> net.initial_marking.m().contains_key(
                            (#[trigger] places[k]).0,
                        )
                    &&& net.final_markings@.len() == 1
                    &&& net.final_markings@[0].pseq() == Seq::<(Seq<char>, u64)>::empty()
                },
                Err(e) => scan_id_name(s, pat_trans(), 0).len() == 0 && e@
                    == "No transitions found in PNML"@,
            }
        }),
{
    let ghost s = pnml_str@;
    let v = crate::text::to_chars(pnml_str);
    let place_prefix = crate::text::to_chars("<place id=\"");
    let trans_prefix = crate::text::to_chars("<transition id=\"");
    let comma = crate::text::to_chars(",");
    proof {
        pattern_lengths();
    }

    let trans_pairs = scan_entities(pnml_str, &v, &trans_prefix);
    if trans_pairs.len() == 0 {
        proof {
            assert(trans_pairs@.map(|_k: int, p: (String, String)| (p.0@, p.1@)).len() == 0);
        }
        return Err("No transitions found in PNML".to_owned());
    }
    let place_pairs = scan_entities(pnml_str, &v, &place_prefix);

    // places, with a zero marking entry per declared place
    let mut places: Vec<Place> = Vec::new();
    let mut initial_marking: Marking = Assoc::new();
    let np = place_pairs.len();
    let mut i: usize = 0;
    while i < np
        invariant
            i <= np,
            np == place_pairs@.len(),
            places@.len() == i,
            forall|k: int|
                0 <= k < i ==> (#[trigger] places@[k]).id@ == place_pairs@[k].0@ && places@[k].label@
                    == place_pairs@[k].1@,
            initial_marking.wf(),
            forall|p: Seq<char>| #[trigger] initial_marking.spec_count(p) == 0,
            forall|t: int|
                0 <= t < i ==> initial_marking.m().contains_key(
                    (#[trigger] place_pairs@[t]).0@,
                ),
        decreases np - i,
    {
        let id = place_pairs[i].0.clone();
        let label = place_pairs[i].1.clone();
        let ghost oldm = initial_marking;
        initial_marking.set(id.as_str(), 0);
        proof {
            assert forall|p: Seq<char>| #[trigger] initial_marking.spec_count(p) == 0 by {
                assert(oldm.spec_count(p) == 0);
            }
            assert forall|t: int|
                0 <= t < i + 1 implies initial_marking.m().contains_key(
                (#[trigger] place_pairs@[t]).0@,
            ) by {
                if t < i {
                    assert(oldm.m().contains_key(place_pairs@[t].0@));
                }
            }
        }
        places.push(Place { id, label });
        i += 1;
    }

    // transitions, with the invisibility rule
    let mut transitions: Vec<Transition> = Vec::new();
    let nt = trans_pairs.len();
    let mut j: usize = 0;
    while j < nt
        invariant
            j <= nt,
            nt == trans_pairs@.len(),
            transitions@.len() == j,
            forall|k: int|
                0 <= k < j ==> (#[trigger] transitions@[k]).id@ == trans_pairs@[k].0@
                    && transitions@[k].label@ == trans_pairs@[k].1@ && transitions@[k].is_invisible
                    == spec_invisible(trans_pairs@[k].1@),
        decreases nt - j,
    {
        let id = trans_pairs[j].0.clone();
        let label = trans_pairs[j].1.clone();
        let is_invisible = label.as_str().is_empty() || crate::text::str_eq(
            label.as_str(),
            "tau",
        );
        transitions.push(Transition { id, label, is_invisible });
        j += 1;
    }

    // arcs, all with multiplicity one
    let arc_pairs = scan_arc_pairs(pnml_str, &v);
    let mut arcs: Vec<Arc> = Vec::new();
    let na = arc_pairs.len();
    let mut k: usize = 0;
    while k < na
        invariant
            k <= na,
            na == arc_pairs@.len(),
            arcs@.len() == k,
            forall|t: int|
                0 <= t < k ==> (#[trigger] arcs@[t]).source@ == arc_pairs@[t].0@ && arcs@[t].target@
                    == arc_pairs@[t].1@ && arcs@[t].multiplicity == 1,
        decreases na - k,
    {
        let source = arc_pairs[k].0.clone();
        let target = arc_pairs[k].1.clone();
        arcs.push(Arc { source, target, multiplicity: 1 });
        k += 1;
    }

    // marking tokens
    let ranges = scan_initial_ranges(&v);
    let mut tokens: Vec<(usize, usize)> = Vec::new();
    let nr = ranges.len();
    let ghost rs = ranges@.map(|_t: int, p: (usize, usize)| (p.0 as int, p.1 as int));
    let mut ri: usize = 0;
    while ri < nr
        invariant
            ri <= nr,
            nr == ranges@.len(),
            rs == ranges@.map(|_t: int, p: (usize, usize)| (p.0 as int, p.1 as int)),
            forall|t: int|
                0 <= t < nr ==> (#[trigger] ranges@[t]).0 <= ranges@[t].1 && ranges@[t].1
                    <= v@.len(),
            forall|t: int|
                0 <= t < tokens@.len() ==> (#[trigger] tokens@[t]).0 <= tokens@[t].1 && tokens@[t].1
                    <= v@.len(),
            tokens@.map(|_t: int, p: (usize, usize)| (p.0 as int, p.1 as int)) == ranges_tokens(
                v@,
                rs.take(ri as int),
            ),
        decreases nr - ri,
    {
        let ghost pre = tokens@.map(|_t: int, p: (usize, usize)| (p.0 as int, p.1 as int));
        let (a, b) = (ranges[ri].0, ranges[ri].1);
        if a != b {
            let ghost tok0 = tokens@;
            split_tokens(&v, &comma, a, b, &mut tokens);
            proof {
                let m0 = tok0.map(|_t: int, p: (usize, usize)| (p.0 as int, p.1 as int));
                let m1 = tokens@.map(|_t: int, p: (usize, usize)| (p.0 as int, p.1 as int));
                assert forall|t: int|
                    0 <= t < tokens@.len() implies (#[trigger] tokens@[t]).0 <= tokens@[t].1
                    && tokens@[t].1 <= v@.len() by {
                    if t < tok0.len() {
                        assert(m1[t] == m0[t]);
                        assert(m0[t] == (tok0[t].0 as int, tok0[t].1 as int));
                        assert(m1[t] == (tokens@[t].0 as int, tokens@[t].1 as int));
                        assert(tok0[t].0 <= tok0[t].1 && tok0[t].1 <= v@.len());
                    } else {
                        assert(tokens@[t].0 <= tokens@[t].1 && tokens@[t].1 <= b);
                        assert(ranges@[ri as int].1 <= v@.len());
                    }
                }
            }
        }
        proof {
            assert(rs.take(ri + 1 as int).drop_last() =~= rs.take(ri as int));
            assert(tokens@.map(|_t: int, p: (usize, usize)| (p.0 as int, p.1 as int))
                =~= ranges_tokens(v@, rs.take(ri + 1 as int)));
        }
        ri += 1;
    }
    proof {
        assert(rs.take(nr as int) =~= rs);
        assert(rs == scan_initials(s, 0));
    }

    // apply the tokens to the marking
    let ghost toks = tokens@.map(|_t: int, p: (usize, usize)| (p.0 as int, p.1 as int));
    let ntk = tokens.len();
    let mut ti: usize = 0;
    while ti < ntk
        invariant
            ti <= ntk,
            ntk == tokens@.len(),
            v@ == s,
            toks == tokens@.map(|_t: int, p: (usize, usize)| (p.0 as int, p.1 as int)),
            toks == ranges_tokens(v@, scan_initials(s, 0)),
            forall|t: int|
                0 <= t < tokens@.len() ==> (#[trigger] tokens@[t]).0 <= tokens@[t].1 && tokens@[t].1
                    <= v@.len(),
            initial_marking.wf(),
            forall|p: Seq<char>| #[trigger] initial_marking.spec_count(p) == cnt_toks(
                s,
                toks.take(ti as int),
                p,
            ),
            forall|t: int|
                0 <= t < place_pairs@.len() ==> initial_marking.m().contains_key(
                    (#[trigger] place_pairs@[t]).0@,
                ),
            forall|p: Seq<char>| spec_marking_count(s, p) <= u64::MAX,
        decreases ntk - ti,
    {
        let (a, b) = (tokens[ti].0, tokens[ti].1);
        let (x, y) = trim_token(&v, a, b);
        let tok = pnml_str.substring_char(x, y).to_owned();
        proof {
            assert(tok@ == tok_of(s, toks[ti as int]));
            lemma_cnt_toks_prefix(s, toks, ti + 1 as int, tok@);
            assert(cnt_toks(s, toks, tok@) == spec_marking_count(s, tok@));
            assert(spec_marking_count(s, tok@) <= u64::MAX);
            assert(toks.take(ti + 1 as int).drop_last() =~= toks.take(ti as int));
            assert(cnt_toks(s, toks.take(ti + 1 as int), tok@) == cnt_toks(
                s,
                toks.take(ti as int),
                tok@,
            ) + 1);
        }
        let ghost oldm = initial_marking;
        initial_marking.bump(tok.as_str(), 1);
        proof {
            assert forall|p: Seq<char>| #[trigger] initial_marking.spec_count(p) == cnt_toks(
                s,
                toks.take(ti + 1 as int),
                p,
            ) by {
                assert(toks.take(ti + 1 as int).drop_last() =~= toks.take(ti as int));
                assert(toks.take(ti + 1 as int).last() == toks[ti as int]);
                assert(oldm.spec_count(p) == cnt_toks(s, toks.take(ti as int), p));
            }
            assert forall|t: int|
                0 <= t < place_pairs@.len() implies initial_marking.m().contains_key(
                (#[trigger] place_pairs@[t]).0@,
            ) by {
                assert(oldm.m().contains_key(place_pairs@[t].0@));
            }
        }
        ti += 1;
    }
    proof {
        assert(toks.take(ntk as int) =~= toks);
    }

    let mut final_markings: Vec<Marking> = Vec::new();
    final_markings.push(Assoc::new());
    proof {
        assert(final_markings@[0].pseq() =~= Seq::<(Seq<char>, u64)>::empty());
    }

    Ok(PetriNet { places, transitions, arcs, initial_marking, final_markings })
}

// ─── the serializer ────────────────────────────────────────────────────────

/// The document head of a serialized model.
pub open spec fn export_header() -> Seq<char> {
    "<?xml version=\"1.0\" encoding=\"UTF-8\"?>\n<pnml xmlns=\"http://www.pnml.org/version-2009-05-13/grammar/pnml\">\n  <net id=\"net\" type=\"http://www.pnml.org/version-2009-05-13/grammar/pnmlcoremodel\">\n"@
}

pub open spec fn export_footer() -> Seq<char> {
    "  </net>\n</pnml>\n"@
}

/// The serialized form of one place holding `tokens` initial tokens; the
/// marking line appears only for a positive count.
pub open spec fn place_block(p: crate::net_model::PlaceV, tokens: u64) -> Seq<char> {
    "    <place id=\""@ + p.id + "\">\n      <name>\n        <text>"@ + p.label
        + "</text>\n      </name>\n"@ + (if tokens > 0 {
        "      <initialMarking><text>"@ + crate::text::spec_dec(tokens as int)
            + "</text></initialMarking>\n"@
    } else {
        Seq::<char>::empty()
    }) + "    </place>\n"@
}

/// The serialized form of one transition.
pub open spec fn trans_block(t: crate::net_model::TransitionV) -> Seq<char> {
    "    <transition id=\""@ + t.id + "\">\n      <name>\n        <text>"@ + t.label
        + "</text>\n      </name>\n    </transition>\n"@
}

/// The serialized form of one arc, its multiplicity as inscription text.
pub open spec fn arc_block(a: crate::net_model::ArcV) -> Seq<char> {
    "    <arc id=\"arc_"@ + a.source + "_to_"@ + a.target + "\" source=\""@ + a.source
        + "\" target=\""@ + a.target + "\">\n      <inscription><text>"@ + crate::text::spec_dec(
        a.multiplicity as int,
    ) + "</text></inscription>\n    </arc>\n"@
}

/// The token count a marking map assigns to a place identifier.
pub open spec fn im_tokens(im: Map<Seq<char>, u64>, id: Seq<char>) -> u64 {
    if im.contains_key(id) {
        im[id]
    } else {
        0
    }
}

pub open spec fn places_text(
    places: Seq<crate::net_model::PlaceV>,
    im: Map<Seq<char>, u64>,
    n: int,
) -> Seq<char>
    decreases n,
{
    if n <= 0 {
        Seq::empty()
    } else {
        places_text(places, im, n - 1) + place_block(
            places[n - 1],
            im_tokens(im, places[n - 1].id),
        )
    }
}

pub open spec fn trans_text(ts: Seq<crate::net_model::TransitionV>, n: int) -> Seq<char>
    decreases n,
{
    if n <= 0 {
        Seq::empty()
    } else {
        trans_text(ts, n - 1) + trans_block(ts[n - 1])
    }
}

pub open spec fn arcs_text(arcs: Seq<crate::net_model::ArcV>, n: int) -> Seq<char>
    decreases n,
{
    if n <= 0 {
        Seq::empty()
    } else {
        arcs_text(arcs, n - 1) + arc_block(arcs[n - 1])
    }
}

/// The whole serialized document of a net.
pub open spec fn spec_export(net: crate::net_model::PetriNetV) -> Seq<char> {
    export_header() + places_text(
        net.places,
        crate::assoc::amap(net.initial_marking),
        net.places.len() as int,
    ) + trans_text(net.transitions, net.transitions.len() as int) + arcs_text(
        net.arcs,
        net.arcs.len() as int,
    ) + export_footer()
}

/// Serialize a net to the PNML-like markup: the head, one block per place
/// (with its positive initial-marking count, if any), one per transition,
/// one per arc, and the closing tags — exactly `spec_export`.
#[verifier::rlimit(100)]
pub fn export_pnml(net: &PetriNet) -> (r: String)
    requires
        net.wf(),
    ensures
        r@ == spec_export(net@),
{
    let mut out =
        "<?xml version=\"1.0\" encoding=\"UTF-8\"?>\n<pnml xmlns=\"http://www.pnml.org/version-2009-05-13/grammar/pnml\">\n  <net id=\"net\" type=\"http://www.pnml.org/version-2009-05-13/grammar/pnmlcoremodel\">\n".to_owned();

    let np = net.places.len();
    let mut i: usize = 0;
    while i < np
        invariant
            i <= np,
            np == net@.places.len(),
            net.wf(),
            out@ == export_header() + places_text(
                net@.places,
                crate::assoc::amap(net@.initial_marking),
                i as int,
            ),
        decreases np - i,
    {
        let place = &net.places[i];
        out.append("    <place id=\"");
        out.append(place.id.as_str());
        out.append("\">\n      <name>\n        <text>");
        out.append(place.label.as_str());
        out.append("</text>\n      </name>\n");
        let tokens = net.initial_marking.count(place.id.as_str());
        if tokens > 0 {
            out.append("      <initialMarking><text>");
            let dec = crate::text::u64_to_string(tokens);
            out.append(dec.as_str());
            out.append("</text></initialMarking>\n");
        }
        out.append("    </place>\n");
        proof {
            assert(out@ =~= export_header() + places_text(
                net@.places,
                crate::assoc::amap(net@.initial_marking),
                i + 1 as int,
            ));
        }
        i += 1;
    }

    let ghost after_places = out@;
    let nt = net.transitions.len();
    let mut j: usize = 0;
    while j < nt
        invariant
            j <= nt,
            nt == net@.transitions.len(),
            out@ == after_places + trans_text(net@.transitions, j as int),
        decreases nt - j,
    {
        let t = &net.transitions[j];
        out.append("    <transition id=\"");
        out.append(t.id.as_str());
        out.append("\">\n      <name>\n        <text>");
        out.append(t.label.as_str());
        out.append("</text>\n      </name>\n    </transition>\n");
        proof {
            assert(out@ =~= after_places + trans_text(net@.transitions, j + 1 as int));
        }
        j += 1;
    }

    let ghost after_trans = out@;
    let na = net.arcs.len();
    let mut k: usize = 0;
    while k < na
        invariant
            k <= na,
            na == net@.arcs.len(),
            out@ == after_trans + arcs_text(net@.arcs, k as int),
        decreases na - k,
    {
        let a = &net.arcs[k];
        out.append("    <arc id=\"arc_");
        out.append(a.source.as_str());
        out.append("_to_");
        out.append(a.target.as_str());
        out.append("\" source=\"");
        out.append(a.source.as_str());
        out.append("\" target=\"");
        out.append(a.target.as_str());
        out.append("\">\n      <inscription><text>");
        let dec = crate::text::u64_to_string(a.multiplicity as u64);
        out.append(dec.as_str());
        out.append("</text></inscription>\n    </arc>\n");
        proof {
            assert(out@ =~= after_trans + arcs_text(net@.arcs, k + 1 as int));
        }
        k += 1;
    }

    out.append("  </net>\n</pnml>\n");
    proof {
        assert(out@ =~= spec_export(net@));
    }
    out
}

/// Every token range produced by a split lies within its value range.
proof fn lemma_split_range_bounds(s: Seq<char>, a: int, b: int)
    requires
        0 <= a <= b <= s.len(),
    ensures
        forall|k: int|
            0 <= k < split_range(s, a, b).len() ==> {
                let t = #[trigger] split_range(s, a, b)[k];
                a <= t.0 <= t.1 <= b
            },
    decreases b - a,
{
    lemma_find_props(s, ","@, a);
    match spec_find(s, ","@, a) {
        Some(k) => {
            if k < b {
                lemma_split_range_bounds(s, k + 1, b);
                let rest = split_range(s, k + 1, b);
                let all = split_range(s, a, b);
                assert forall|t: int| 0 <= t < all.len() implies {
                    let x = #[trigger] all[t];
                    a <= x.0 <= x.1 <= b
                } by {
                    if t > 0 {
                        assert(all[t] == rest[t - 1]);
                    }
                }
            }
        },
        None => {},
    }
}

} // verus!
