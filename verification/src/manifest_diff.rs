//! Structured diffing of manifest files: dependency version constraints of
//! build manifests, and acceptance criteria of ticket files. No text diff
//! algorithm — both sides are parsed and compared field by field.

use vstd::prelude::*;

use crate::assoc::amap;
use crate::facts::{Change, Delta};
use crate::text::{spec_find, str_eq, strip_trailing, to_chars};

verus! {

// ─── trusted parsing ───────────────────────────────────────────────────────

/// One manifest table observed generically: for each entry of the
/// top-level table named `section`, its key, the value's string form (when
/// the value is a string), whether the value is a table, the string form of
/// the value's `subkey` field (when the value is a table whose `subkey`
/// field is a string), and the value's printed representation. `None` when
/// the text is not a well-formed document, `Some` of the empty sequence
/// when the section is absent. A function of the three texts alone.
pub uninterp spec fn toml_section_entries_of(
    s: Seq<char>,
    section: Seq<char>,
    subkey: Seq<char>,
) -> Option<Seq<(Seq<char>, Option<Seq<char>>, bool, Option<Seq<char>>, Seq<char>)>>;

/// Relies on toml::from_str for Table, Map::get, Value::as_str,
/// Value::is_table, Value::as_table and the display form of toml::Value;
/// which keys to look under comes from the caller.
#[verifier::external_body]
pub(crate) fn toml_section_entries(content: &str, section: &str, subkey: &str) -> (r: Option<
    Vec<(String, Option<String>, bool, Option<String>, String)>,
>)
    ensures
        match r {
            Some(l) => toml_section_entries_of(content@, section@, subkey@) == Some(
                l@.map(
                    |_k: int, e: (String, Option<String>, bool, Option<String>, String)|
                        (
                            e.0@,
                            match e.1 {
                                Some(x) => Some(x@),
                                None => None,
                            },
                            e.2,
                            match e.3 {
                                Some(x) => Some(x@),
                                None => None,
                            },
                            e.4@,
                        ),
                ),
            ),
            None => toml_section_entries_of(content@, section@, subkey@) is None,
        },
{
    let table: toml::Table = content.parse().ok()?;
    let mut out: Vec<(String, Option<String>, bool, Option<String>, String)> = Vec::new();
    if let Some(t) = table.get(section).and_then(|v| v.as_table()) {
        for (key, val) in t {
            let sval = val.as_str().map(|s| s.to_string());
            let sub = val.as_table().and_then(|t2| t2.get(subkey)).and_then(|v| v.as_str()).map(
                |s| s.to_string(),
            );
            out.push((key.clone(), sval, val.is_table(), sub, val.to_string()));
        }
    }
    Some(out)
}

/// The entries of the table two keys deep (at `key1`, then `key2`), each as
/// its key and its value's printed representation. `None` when the text is
/// not a well-formed document, `Some` of the empty sequence when the path
/// leads to no table. A function of the three texts alone.
pub uninterp spec fn toml_nested_entries_of(s: Seq<char>, key1: Seq<char>, key2: Seq<char>) -> Option<
    Seq<(Seq<char>, Seq<char>)>,
>;

/// Relies on toml::from_str for Table, Map::get, Value::get, Value::as_table
/// and the display form of toml::Value; the path comes from the caller.
#[verifier::external_body]
fn toml_nested_entries(content: &str, key1: &str, key2: &str) -> (r: Option<Vec<(String, String)>>)
    ensures
        match r {
            Some(l) => toml_nested_entries_of(content@, key1@, key2@) == Some(
                l@.map(|_k: int, p: (String, String)| (p.0@, p.1@)),
            ),
            None => toml_nested_entries_of(content@, key1@, key2@) is None,
        },
{
    let table: toml::Table = content.parse().ok()?;
    let mut out: Vec<(String, String)> = Vec::new();
    if let Some(t) = table.get(key1).and_then(|v| v.get(key2)).and_then(|v| v.as_table()) {
        for (key, val) in t {
            out.push((key.clone(), val.to_string()));
        }
    }
    Some(out)
}

/// The version a dependency entry carries: the value itself when it is a
/// string, the table's version field (or `*` when it has none) when it is
/// a table, its printed form otherwise.
pub open spec fn entry_version(
    e: (Seq<char>, Option<Seq<char>>, bool, Option<Seq<char>>, Seq<char>),
) -> Seq<char> {
    match e.1 {
        Some(v) => v,
        None => if e.2 {
            match e.3 {
                Some(v) => v,
                None => "*"@,
            }
        } else {
            e.4
        },
    }
}

/// The dependencies one section contributes: each entry's key with the
/// version it carries; nothing when the document does not parse.
pub open spec fn section_deps(s: Seq<char>, section: Seq<char>) -> Seq<(Seq<char>, Seq<char>)> {
    match toml_section_entries_of(s, section, "version"@) {
        Some(es) => es.map(
            |_k: int, e: (Seq<char>, Option<Seq<char>>, bool, Option<Seq<char>>, Seq<char>)|
                (e.0, entry_version(e)),
        ),
        None => seq![],
    }
}

/// The dependency entries of a manifest, over the `dependencies`,
/// `dev-dependencies`, `build-dependencies` and `workspace.dependencies`
/// sections in that order; `None` when the text is not a well-formed
/// manifest.
pub open spec fn cargo_deps_of(s: Seq<char>) -> Option<Seq<(Seq<char>, Seq<char>)>> {
    if toml_section_entries_of(s, "dependencies"@, "version"@) is None {
        None
    } else {
        Some(
            section_deps(s, "dependencies"@) + section_deps(s, "dev-dependencies"@) + section_deps(
                s,
                "build-dependencies"@,
            ) + section_deps(s, "workspace.dependencies"@),
        )
    }
}

/// The acceptance criteria of a ticket file: each key under
/// `[ticket.acceptance_criteria]` with its value's printed form; `None`
/// when the text is not a well-formed ticket.
pub open spec fn ticket_criteria_of(s: Seq<char>) -> Option<Seq<(Seq<char>, Seq<char>)>> {
    toml_nested_entries_of(s, "ticket"@, "acceptance_criteria"@)
}

/// Append one section's dependencies to the list.
fn push_section_deps(out: &mut Vec<(String, String)>, content: &str, section: &str)
    ensures
        final(out)@.map(|_k: int, p: (String, String)| (p.0@, p.1@)) == old(out)@.map(
            |_k: int, p: (String, String)| (p.0@, p.1@),
        ) + section_deps(content@, section@),
{
    let ghost base = old(out)@.map(|_k: int, p: (String, String)| (p.0@, p.1@));
    match toml_section_entries(content, section, "version") {
        None => {
            proof {
                assert(base + section_deps(content@, section@) =~= base);
            }
        },
        Some(entries) => {
            let ghost ev = entries@.map(
                |_k: int, e: (String, Option<String>, bool, Option<String>, String)|
                    (
                        e.0@,
                        match e.1 {
                            Some(x) => Some(x@),
                            None => None,
                        },
                        e.2,
                        match e.3 {
                            Some(x) => Some(x@),
                            None => None,
                        },
                        e.4@,
                    ),
            );
            let ghost sel = ev.map(
                |_k: int, e: (Seq<char>, Option<Seq<char>>, bool, Option<Seq<char>>, Seq<char>)|
                    (e.0, entry_version(e)),
            );
            proof {
                assert(section_deps(content@, section@) == sel);
            }
            let n = entries.len();
            let mut i: usize = 0;
            while i < n
                invariant
                    i <= n,
                    n == entries@.len(),
                    ev == entries@.map(
                        |_k: int, e: (String, Option<String>, bool, Option<String>, String)|
                            (
                                e.0@,
                                match e.1 {
                                    Some(x) => Some(x@),
                                    None => None,
                                },
                                e.2,
                                match e.3 {
                                    Some(x) => Some(x@),
                                    None => None,
                                },
                                e.4@,
                            ),
                    ),
                    sel == ev.map(
                        |_k: int, e: (
                            Seq<char>,
                            Option<Seq<char>>,
                            bool,
                            Option<Seq<char>>,
                            Seq<char>,
                        )| (e.0, entry_version(e)),
                    ),
                    out@.map(|_k: int, p: (String, String)| (p.0@, p.1@)) == base + sel.take(
                        i as int,
                    ),
                decreases n - i,
            {
                proof {
                    assert(ev[i as int] == (
                        entries@[i as int].0@,
                        match entries@[i as int].1 {
                            Some(x) => Some(x@),
                            None => None,
                        },
                        entries@[i as int].2,
                        match entries@[i as int].3 {
                            Some(x) => Some(x@),
                            None => None,
                        },
                        entries@[i as int].4@,
                    ));
                    assert(sel[i as int] == (ev[i as int].0, entry_version(ev[i as int])));
                }
                let name = entries[i].0.clone();
                let version = match &entries[i].1 {
                    Some(v) => v.clone(),
                    None => {
                        if entries[i].2 {
                            match &entries[i].3 {
                                Some(v) => v.clone(),
                                None => "*".to_owned(),
                            }
                        } else {
                            entries[i].4.clone()
                        }
                    },
                };
                proof {
                    assert(version@ == entry_version(ev[i as int]));
                    assert(name@ == ev[i as int].0);
                    assert((name@, version@) == sel[i as int]);
                    assert(sel.take(i + 1 as int).drop_last() =~= sel.take(i as int));
                    assert(sel.take(i + 1 as int).last() == sel[i as int]);
                }
                let ghost pre = out@.map(|_k: int, p: (String, String)| (p.0@, p.1@));
                out.push((name, version));
                proof {
                    assert(out@.map(|_k: int, p: (String, String)| (p.0@, p.1@)) =~= pre.push(
                        sel[i as int],
                    ));
                    assert(pre.push(sel[i as int]) =~= base + sel.take(i + 1 as int));
                }
                i += 1;
            }
            proof {
                assert(sel.take(n as int) =~= sel);
            }
        },
    }
}

/// Collect the dependency entries of a manifest; agrees with
/// `cargo_deps_of`.
fn parse_cargo_deps(content: &str) -> (r: Option<Vec<(String, String)>>)
    ensures
        match r {
            Some(l) => cargo_deps_of(content@) == Some(
                l@.map(|_k: int, p: (String, String)| (p.0@, p.1@)),
            ),
            None => cargo_deps_of(content@) is None,
        },
{
    match toml_section_entries(content, "dependencies", "version") {
        None => None,
        Some(_first) => {
            let mut out: Vec<(String, String)> = Vec::new();
            push_section_deps(&mut out, content, "dependencies");
            push_section_deps(&mut out, content, "dev-dependencies");
            push_section_deps(&mut out, content, "build-dependencies");
            push_section_deps(&mut out, content, "workspace.dependencies");
            Some(out)
        },
    }
}

/// Collect the acceptance criteria of a ticket file; agrees with
/// `ticket_criteria_of`.
fn parse_ticket_criteria(content: &str) -> (r: Option<Vec<(String, String)>>)
    ensures
        match r {
            Some(l) => ticket_criteria_of(content@) == Some(
                l@.map(|_k: int, p: (String, String)| (p.0@, p.1@)),
            ),
            None => ticket_criteria_of(content@) is None,
        },
{
    toml_nested_entries(content, "ticket", "acceptance_criteria")
}

/// Every character is a decimal digit.
pub open spec fn all_digits(s: Seq<char>) -> bool {
    forall|k: int| 0 <= k < s.len() ==> 48 <= (#[trigger] s[k]) as u32 <= 57
}

/// The number a digit string denotes.
pub open spec fn digits_val(s: Seq<char>) -> int
    decreases s.len(),
{
    if s.len() == 0 {
        0
    } else {
        digits_val(s.drop_last()) * 10 + (s.last() as u32 - 48)
    }
}

/// The value a `u64` reading of the text denotes: an optional leading plus,
/// then at least one decimal digit, and the number must fit.
pub open spec fn u64_parse_of(s: Seq<char>) -> Option<u64> {
    let body = if s.len() > 0 && s[0] == '+' {
        s.drop_first()
    } else {
        s
    };
    if body.len() > 0 && all_digits(body) && digits_val(body) <= u64::MAX {
        Some(digits_val(body) as u64)
    } else {
        None
    }
}

/// A digit-string prefix never denotes more than the whole string.
proof fn lemma_digits_val_mono(s: Seq<char>, j: int)
    requires
        all_digits(s),
        0 <= j <= s.len(),
    ensures
        0 <= digits_val(s.take(j)) <= digits_val(s),
    decreases s.len(),
{
    if s.len() > 0 {
        assert(all_digits(s.drop_last()));
        if j == s.len() {
            assert(s.take(j) =~= s);
            lemma_digits_val_mono(s.drop_last(), s.len() - 1);
            assert(digits_val(s.drop_last()) * 10 >= digits_val(s.drop_last())) by (nonlinear_arith)
                requires
                    digits_val(s.drop_last()) >= 0,
            ;
        } else {
            assert(s.take(j) =~= s.drop_last().take(j));
            lemma_digits_val_mono(s.drop_last(), j);
            assert(digits_val(s.drop_last()) * 10 >= digits_val(s.drop_last())) by (nonlinear_arith)
                requires
                    digits_val(s.drop_last()) >= 0,
            ;
        }
    } else {
        assert(s.take(j) =~= s);
    }
}

/// Read a `u64` from decimal text; agrees with `u64_parse_of`.
fn parse_u64(s: &str) -> (r: Option<u64>)
    ensures
        r == u64_parse_of(s@),
{
    let v = to_chars(s);
    let n = v.len();
    let start: usize = if n > 0 && v[0] == '+' {
        1
    } else {
        0
    };
    let ghost body = if s@.len() > 0 && s@[0] == '+' {
        s@.drop_first()
    } else {
        s@
    };
    proof {
        assert(body =~= s@.subrange(start as int, n as int));
    }
    if start >= n {
        return None;
    }
    let mut val: u64 = 0;
    let mut i = start;
    while i < n
        invariant
            start <= i <= n,
            start < n,
            n == v@.len(),
            v@ == s@,
            body == s@.subrange(start as int, n as int),
            all_digits(body.take(i - start as int)),
            val == digits_val(body.take(i - start as int)),
        decreases n - i,
    {
        let cu = v[i] as u32;
        proof {
            assert(body.take(i + 1 - start as int).drop_last() =~= body.take(i - start as int));
            assert(body.take(i + 1 - start as int).last() == v@[i as int]);
        }
        if cu < 48 || cu > 57 {
            proof {
                assert(body[i - start as int] == v@[i as int]);
                assert(!all_digits(body));
            }
            return None;
        }
        let d = (cu - 48) as u64;
        if val > (u64::MAX - d) / 10 {
            proof {
                let q = (u64::MAX - d) as int / 10;
                assert(q * 10 <= u64::MAX - d && u64::MAX - d < (q + 1) * 10) by (nonlinear_arith)
                    requires
                        q == (u64::MAX - d) as int / 10,
                        0 <= d <= 9,
                ;
                assert(val * 10 >= (q + 1) * 10) by (nonlinear_arith)
                    requires
                        val as int >= q + 1,
                ;
                assert(digits_val(body.take(i + 1 - start as int)) > u64::MAX);
                lemma_digits_val_mono_range(body, i + 1 - start as int);
            }
            return None;
        }
        proof {
            let q = (u64::MAX - d) as int / 10;
            assert(q * 10 <= u64::MAX - d) by (nonlinear_arith)
                requires
                    q == (u64::MAX - d) as int / 10,
                    0 <= d <= 9,
            ;
            assert(val * 10 <= q * 10) by (nonlinear_arith)
                requires
                    0 <= val as int <= q,
            ;
        }
        val = val * 10 + d;
        i += 1;
    }
    proof {
        assert(body.take(n - start as int) =~= body);
    }
    Some(val)
}

/// If a digit prefix already exceeds the limit, the whole string does.
proof fn lemma_digits_val_mono_range(s: Seq<char>, j: int)
    requires
        0 <= j <= s.len(),
        digits_val(s.take(j)) > u64::MAX,
    ensures
        all_digits(s) ==> digits_val(s) > u64::MAX,
{
    if all_digits(s) {
        lemma_digits_val_mono(s, j);
    }
}

// ─── version comparison ────────────────────────────────────────────────────

/// `s` with every leading occurrence of `c` removed.
pub open spec fn strip_leading(s: Seq<char>, c: char) -> Seq<char>
    decreases s.len(),
{
    if s.len() > 0 && s[0] == c {
        strip_leading(s.drop_first(), c)
    } else {
        s
    }
}

pub fn strip_leading_char(s: &str, v: &Vec<char>, c: char) -> (r: (String, Vec<char>))
    requires
        v@ == s@,
    ensures
        r.0@ == strip_leading(s@, c),
        r.1@ == r.0@,
{
    let n = v.len();
    proof {
        assert(v@.skip(0) =~= v@);
    }
    let mut i: usize = 0;
    while i < n && v[i] == c
        invariant
            i <= n,
            n == v@.len(),
            strip_leading(v@, c) == strip_leading(v@.skip(i as int), c),
        decreases n - i,
    {
        proof {
            assert(v@.skip(i as int).drop_first() =~= v@.skip(i + 1 as int));
        }
        i += 1;
    }
    proof {
        assert(strip_leading(v@.skip(i as int), c) == v@.skip(i as int));
        assert(v@.skip(i as int) =~= v@.subrange(i as int, n as int));
    }
    let out = s.substring_char(i, n).to_owned();
    let ov = to_chars(out.as_str());
    (out, ov)
}

/// The major version of a constraint: leading `^`, `~` and `=` markers
/// stripped in that order, the part before the first dot read as a number,
/// zero when it does not read.
pub open spec fn spec_major(v: Seq<char>) -> int {
    let w = strip_leading(strip_leading(strip_leading(v, '^'), '~'), '=');
    let head = match spec_find(w, "."@, 0) {
        Some(p) => w.take(p),
        None => w,
    };
    match u64_parse_of(head) {
        Some(x) => x as int,
        None => 0,
    }
}

fn major_version(v: &str) -> (r: u64)
    ensures
        r as int == spec_major(v@),
{
    let vv = to_chars(v);
    let (s1, v1) = strip_leading_char(v, &vv, '^');
    let (s2, v2) = strip_leading_char(s1.as_str(), &v1, '~');
    let (s3, v3) = strip_leading_char(s2.as_str(), &v2, '=');
    let dot = to_chars(".");
    let head = match crate::text::find_from(&v3, &dot, 0) {
        Some(p) => {
            proof {
                crate::text::lemma_find_props(v3@, "."@, 0);
            }
            let h = s3.substring_char(0, p).to_owned();
            proof {
                assert(h@ =~= s3@.take(p as int));
            }
            h
        },
        None => s3,
    };
    match parse_u64(head.as_str()) {
        Some(x) => x,
        None => 0,
    }
}

/// A version change is breaking when the major goes down, or goes up from a
/// stable (non-zero) major.
pub open spec fn spec_breaking(oldv: Seq<char>, newv: Seq<char>) -> bool {
    let om = spec_major(oldv);
    let nm = spec_major(newv);
    nm < om || (om > 0 && nm > om)
}

// ─── the diffs ─────────────────────────────────────────────────────────────

/// A dependency delta judged against the two dependency maps.
pub open spec fn cargo_delta_ok(
    d: Delta,
    om: Map<Seq<char>, Seq<char>>,
    nm: Map<Seq<char>, Seq<char>>,
) -> bool {
    match d {
        Delta::Dependency { name, from, to, breaking } => {
            if !om.contains_key(name@) {
                nm.contains_key(name@) && from@.len() == 0 && to@ == nm[name@] && !breaking
            } else if !nm.contains_key(name@) {
                from@ == om[name@] && to@.len() == 0 && breaking
            } else {
                om[name@] != nm[name@] && from@ == om[name@] && to@ == nm[name@] && breaking
                    == spec_breaking(om[name@], nm[name@])
            }
        },
        _ => false,
    }
}

/// Some delta is a dependency delta for this name.
pub open spec fn dep_delta_named(ds: Seq<Delta>, name: Seq<char>) -> bool {
    exists|k: int|
        0 <= k < ds.len() && match #[trigger] ds[k] {
            Delta::Dependency { name: n, from, to, breaking } => n@ == name,
            _ => false,
        }
}

proof fn lemma_dep_delta_push(ds: Seq<Delta>, d: Delta, name: Seq<char>)
    ensures
        dep_delta_named(ds, name) ==> dep_delta_named(ds.push(d), name),
        (match d {
            Delta::Dependency { name: n, from, to, breaking } => n@ == name,
            _ => false,
        }) ==> dep_delta_named(ds.push(d), name),
{
    if dep_delta_named(ds, name) {
        let k = choose|k: int|
            0 <= k < ds.len() && match #[trigger] ds[k] {
                Delta::Dependency { name: n, from, to, breaking } => n@ == name,
                _ => false,
            };
        assert(ds.push(d)[k] == ds[k]);
    }
    assert(ds.push(d)[ds.len() as int] == d);
}

/// The name a dependency delta carries.
pub open spec fn dep_name_of(d: Delta) -> Seq<char> {
    match d {
        Delta::Dependency { name, from, to, breaking } => name@,
        _ => Seq::empty(),
    }
}

/// The manifest-diff contract: sound dependency deltas, exactly one per
/// name, and one for every added, removed or version-changed name.
pub open spec fn cargo_diff_ok(ds: Seq<Delta>, old_text: Seq<char>, new_text: Seq<char>) -> bool {
    let om = amap(cargo_deps_of(old_text).unwrap());
    let nm = amap(cargo_deps_of(new_text).unwrap());
    &&& forall|k: int| 0 <= k < ds.len() ==> cargo_delta_ok(#[trigger] ds[k], om, nm)
    &&& forall|k1: int, k2: int|
        0 <= k1 < k2 < ds.len() ==> dep_name_of(#[trigger] ds[k1]) != dep_name_of(
            #[trigger] ds[k2],
        )
    &&& forall|name: Seq<char>|
        #![trigger dep_delta_named(ds, name)]
        ((om.contains_key(name) && !nm.contains_key(name)) || (nm.contains_key(name)
            && !om.contains_key(name)) || (om.contains_key(name) && nm.contains_key(name)
            && om[name] != nm[name]) ==> dep_delta_named(ds, name))
}

/// Diff the dependency constraints of two manifests: exactly one delta per
/// added name (never breaking), removed name (always breaking) and changed
/// version (breaking per the major comparison), in no promised order. Fails
/// exactly when either text is not a well-formed manifest.
pub fn diff_cargo_toml(old: &str, new: &str) -> (r: Result<Vec<Delta>, String>)
    ensures
        match r {
            Ok(ds) => cargo_deps_of(old@) is Some && cargo_deps_of(new@) is Some && cargo_diff_ok(
                ds@,
                old@,
                new@,
            ),
            Err(e) => (cargo_deps_of(old@) is None || cargo_deps_of(new@) is None) && e@
                == "TOML parse error"@,
        },
{
    let old_list = match parse_cargo_deps(old) {
        Some(l) => l,
        None => {
            return Err("TOML parse error".to_owned());
        },
    };
    let new_list = match parse_cargo_deps(new) {
        Some(l) => l,
        None => {
            return Err("TOML parse error".to_owned());
        },
    };
    let old_tbl = pairs_table(&old_list);
    let new_tbl = pairs_table(&new_list);
    let ghost om = amap(cargo_deps_of(old@).unwrap());
    let ghost nm = amap(cargo_deps_of(new@).unwrap());
    let mut deltas: Vec<Delta> = Vec::new();

    // added names
    let nn = new_tbl.pairs.len();
    let mut j: usize = 0;
    while j < nn
        invariant
            j <= nn,
            nn == new_tbl.pseq().len(),
            old_tbl.wf(),
            new_tbl.wf(),
            forall|key: Seq<char>| #[trigger] old_tbl.m().contains_key(key) == om.contains_key(
                key,
            ),
            forall|key: Seq<char>|
                old_tbl.m().contains_key(key) ==> #[trigger] old_tbl.m()[key]@ == om[key],
            forall|key: Seq<char>| #[trigger] new_tbl.m().contains_key(key) == nm.contains_key(
                key,
            ),
            forall|key: Seq<char>|
                new_tbl.m().contains_key(key) ==> #[trigger] new_tbl.m()[key]@ == nm[key],
            forall|k: int| 0 <= k < deltas@.len() ==> cargo_delta_ok(#[trigger] deltas@[k], om, nm),
            forall|k: int|
                #![trigger deltas@[k]]
                0 <= k < deltas@.len() ==> !om.contains_key(dep_name_of(deltas@[k]))
                    && exists|x: int|
                    0 <= x < j && (#[trigger] new_tbl.pseq()[x]).0 == dep_name_of(deltas@[k]),
            forall|k1: int, k2: int|
                0 <= k1 < k2 < deltas@.len() ==> dep_name_of(#[trigger] deltas@[k1])
                    != dep_name_of(#[trigger] deltas@[k2]),
            forall|name: Seq<char>|
                #![trigger dep_delta_named(deltas@, name)]
                ((exists|x: int| 0 <= x < j && (#[trigger] new_tbl.pseq()[x]).0 == name)
                    && !om.contains_key(name) ==> dep_delta_named(deltas@, name)),
        decreases nn - j,
    {
        proof {
            new_tbl.lemma_pairs(j as int);
            assert(new_tbl.m().contains_key(new_tbl.pseq()[j as int].0));
            assert(nm.contains_key(new_tbl.pseq()[j as int].0));
            assert(new_tbl.m()[new_tbl.pseq()[j as int].0]@ == nm[new_tbl.pseq()[j as int].0]);
        }
        let name = &new_tbl.pairs[j].0;
        let ghost before = deltas@;
        let mut emitted = false;
        if !old_tbl.contains(name.as_str()) {
            deltas.push(
                Delta::Dependency {
                    name: name.clone(),
                    from: "".to_owned(),
                    to: new_tbl.pairs[j].1.clone(),
                    breaking: false,
                },
            );
            emitted = true;
            proof {
                reveal_strlit("");
            }
        }
        proof {
            if emitted {
                assert(deltas@ =~= before.push(deltas@.last()));
                assert(dep_name_of(deltas@.last()) == name@);
            }
            assert forall|k: int|
                #![trigger deltas@[k]]
                0 <= k < deltas@.len() implies !om.contains_key(dep_name_of(deltas@[k]))
                && exists|x: int|
                0 <= x < j + 1 && (#[trigger] new_tbl.pseq()[x]).0 == dep_name_of(deltas@[k]) by {
                if emitted && k == deltas@.len() - 1 {
                    assert(new_tbl.pseq()[j as int].0 == dep_name_of(deltas@[k]));
                } else {
                    assert(deltas@[k] == before[k]);
                    let x = choose|x: int|
                        0 <= x < j && (#[trigger] new_tbl.pseq()[x]).0 == dep_name_of(before[k]);
                    assert(new_tbl.pseq()[x].0 == dep_name_of(deltas@[k]));
                }
            }
            assert forall|k1: int, k2: int|
                0 <= k1 < k2 < deltas@.len() implies dep_name_of(#[trigger] deltas@[k1])
                != dep_name_of(#[trigger] deltas@[k2]) by {
                assert(deltas@[k1] == before[k1]);
                if emitted && k2 == deltas@.len() - 1 {
                    let x = choose|x: int|
                        0 <= x < j && (#[trigger] new_tbl.pseq()[x]).0 == dep_name_of(before[k1]);
                    assert(new_tbl.pseq()[x].0 != new_tbl.pseq()[j as int].0);
                } else {
                    assert(deltas@[k2] == before[k2]);
                }
            }
            assert forall|name2: Seq<char>|
                #![trigger dep_delta_named(deltas@, name2)]
                ((exists|x: int| 0 <= x < j + 1 && (#[trigger] new_tbl.pseq()[x]).0 == name2)
                    && !om.contains_key(name2)) implies dep_delta_named(deltas@, name2) by {
                if emitted {
                    lemma_dep_delta_push(before, deltas@.last(), name2);
                }
                if name2 != name@ {
                    let x = choose|x: int|
                        0 <= x < j + 1 && (#[trigger] new_tbl.pseq()[x]).0 == name2;
                    assert(0 <= x < j && new_tbl.pseq()[x].0 == name2);
                    assert(dep_delta_named(before, name2));
                } else {
                    assert(emitted || om.contains_key(name2));
                }
            }
        }
        j += 1;
    }

    proof {
        assert forall|name: Seq<char>|
            #![trigger dep_delta_named(deltas@, name)]
            nm.contains_key(name) && !om.contains_key(name) implies dep_delta_named(
            deltas@,
            name,
        ) by {
            assert(new_tbl.m().contains_key(name) == nm.contains_key(name));
            crate::assoc::lemma_amap_contains(new_tbl.pseq(), name);
        }
    }

    // removed and changed names
    let no = old_tbl.pairs.len();
    let mut i: usize = 0;
    while i < no
        invariant
            i <= no,
            no == old_tbl.pseq().len(),
            old_tbl.wf(),
            new_tbl.wf(),
            forall|key: Seq<char>| #[trigger] old_tbl.m().contains_key(key) == om.contains_key(
                key,
            ),
            forall|key: Seq<char>|
                old_tbl.m().contains_key(key) ==> #[trigger] old_tbl.m()[key]@ == om[key],
            forall|key: Seq<char>| #[trigger] new_tbl.m().contains_key(key) == nm.contains_key(
                key,
            ),
            forall|key: Seq<char>|
                new_tbl.m().contains_key(key) ==> #[trigger] new_tbl.m()[key]@ == nm[key],
            forall|k: int| 0 <= k < deltas@.len() ==> cargo_delta_ok(#[trigger] deltas@[k], om, nm),
            forall|k: int|
                #![trigger deltas@[k]]
                0 <= k < deltas@.len() ==> (!om.contains_key(dep_name_of(deltas@[k]))
                    || exists|x: int|
                    0 <= x < i && (#[trigger] old_tbl.pseq()[x]).0 == dep_name_of(deltas@[k])),
            forall|k1: int, k2: int|
                0 <= k1 < k2 < deltas@.len() ==> dep_name_of(#[trigger] deltas@[k1])
                    != dep_name_of(#[trigger] deltas@[k2]),
            forall|name: Seq<char>|
                #![trigger dep_delta_named(deltas@, name)]
                (nm.contains_key(name) && !om.contains_key(name) ==> dep_delta_named(
                    deltas@,
                    name,
                )),
            forall|name: Seq<char>|
                #![trigger dep_delta_named(deltas@, name)]
                ((exists|x: int| 0 <= x < i && (#[trigger] old_tbl.pseq()[x]).0 == name) && (
                !nm.contains_key(name) || (nm.contains_key(name) && om[name] != nm[name]))
                    ==> dep_delta_named(deltas@, name)),
        decreases no - i,
    {
        proof {
            old_tbl.lemma_pairs(i as int);
            assert(old_tbl.m().contains_key(old_tbl.pseq()[i as int].0));
            assert(om.contains_key(old_tbl.pseq()[i as int].0));
            assert(old_tbl.m()[old_tbl.pseq()[i as int].0]@ == om[old_tbl.pseq()[i as int].0]);
        }
        let name = &old_tbl.pairs[i].0;
        let old_version = &old_tbl.pairs[i].1;
        let ghost before = deltas@;
        let mut emitted = false;
        proof {
            assert(new_tbl.m().contains_key(name@) == nm.contains_key(name@));
        }
        match new_tbl.get_ref(name.as_str()) {
            None => {
                deltas.push(
                    Delta::Dependency {
                        name: name.clone(),
                        from: old_version.clone(),
                        to: "".to_owned(),
                        breaking: true,
                    },
                );
                emitted = true;
                proof {
                    reveal_strlit("");
                }
            },
            Some(new_version) => {
                if !str_eq(old_version.as_str(), new_version.as_str()) {
                    let breaking = {
                        let om_major = major_version(old_version.as_str());
                        let nm_major = major_version(new_version.as_str());
                        nm_major < om_major || (om_major > 0 && nm_major > om_major)
                    };
                    deltas.push(
                        Delta::Dependency {
                            name: name.clone(),
                            from: old_version.clone(),
                            to: new_version.clone(),
                            breaking,
                        },
                    );
                    emitted = true;
                }
            },
        }
        proof {
            if emitted {
                assert(deltas@ =~= before.push(deltas@.last()));
                assert(dep_name_of(deltas@.last()) == name@);
            }
            assert forall|k: int|
                #![trigger deltas@[k]]
                0 <= k < deltas@.len() implies (!om.contains_key(dep_name_of(deltas@[k]))
                || exists|x: int|
                0 <= x < i + 1 && (#[trigger] old_tbl.pseq()[x]).0 == dep_name_of(
                    deltas@[k],
                )) by {
                if emitted && k == deltas@.len() - 1 {
                    assert(old_tbl.pseq()[i as int].0 == dep_name_of(deltas@[k]));
                } else {
                    assert(deltas@[k] == before[k]);
                    if om.contains_key(dep_name_of(before[k])) {
                        let x = choose|x: int|
                            0 <= x < i && (#[trigger] old_tbl.pseq()[x]).0 == dep_name_of(
                                before[k],
                            );
                        assert(old_tbl.pseq()[x].0 == dep_name_of(deltas@[k]));
                    }
                }
            }
            assert forall|k1: int, k2: int|
                0 <= k1 < k2 < deltas@.len() implies dep_name_of(#[trigger] deltas@[k1])
                != dep_name_of(#[trigger] deltas@[k2]) by {
                assert(deltas@[k1] == before[k1]);
                if emitted && k2 == deltas@.len() - 1 {
                    assert(dep_name_of(deltas@[k2]) == name@);
                    assert(om.contains_key(name@));
                    if om.contains_key(dep_name_of(before[k1])) {
                        let x = choose|x: int|
                            0 <= x < i && (#[trigger] old_tbl.pseq()[x]).0 == dep_name_of(
                                before[k1],
                            );
                        assert(old_tbl.pseq()[x].0 != old_tbl.pseq()[i as int].0);
                    }
                } else {
                    assert(deltas@[k2] == before[k2]);
                }
            }
            assert forall|name2: Seq<char>|
                #![trigger dep_delta_named(deltas@, name2)]
                nm.contains_key(name2) && !om.contains_key(name2) implies dep_delta_named(
                deltas@,
                name2,
            ) by {
                assert(dep_delta_named(before, name2));
                if emitted {
                    lemma_dep_delta_push(before, deltas@.last(), name2);
                }
            }
            assert forall|name2: Seq<char>|
                #![trigger dep_delta_named(deltas@, name2)]
                ((exists|x: int| 0 <= x < i + 1 && (#[trigger] old_tbl.pseq()[x]).0 == name2) && (
                !nm.contains_key(name2) || (nm.contains_key(name2) && om[name2] != nm[name2])))
                    implies dep_delta_named(deltas@, name2) by {
                if emitted {
                    lemma_dep_delta_push(before, deltas@.last(), name2);
                }
                if name2 != name@ {
                    let x = choose|x: int|
                        0 <= x < i + 1 && (#[trigger] old_tbl.pseq()[x]).0 == name2;
                    assert(0 <= x < i && old_tbl.pseq()[x].0 == name2);
                    assert(dep_delta_named(before, name2));
                } else {
                    assert(emitted || (nm.contains_key(name@) && om[name@] == nm[name@]));
                }
            }
        }
        i += 1;
    }
    proof {
        assert forall|name: Seq<char>|
            #![trigger dep_delta_named(deltas@, name)]
            ((om.contains_key(name) && !nm.contains_key(name)) || (nm.contains_key(name)
                && !om.contains_key(name)) || (om.contains_key(name) && nm.contains_key(name)
                && om[name] != nm[name])) implies dep_delta_named(deltas@, name) by {
            assert(old_tbl.m().contains_key(name) == om.contains_key(name));
            assert(new_tbl.m().contains_key(name) == nm.contains_key(name));
            crate::assoc::lemma_amap_contains(old_tbl.pseq(), name);
            crate::assoc::lemma_amap_contains(new_tbl.pseq(), name);
        }
    }
    Ok(deltas)
}

/// Build a table from parsed pairs; its map is the pairs' association map.
fn pairs_table(l: &Vec<(String, String)>) -> (r: crate::assoc::Assoc<String>)
    ensures
        r.wf(),
        forall|key: Seq<char>| #[trigger] r.m().contains_key(key) == amap(
            l@.map(|_k: int, p: (String, String)| (p.0@, p.1@)),
        ).contains_key(key),
        forall|key: Seq<char>|
            r.m().contains_key(key) ==> #[trigger] r.m()[key]@ == amap(
                l@.map(|_k: int, p: (String, String)| (p.0@, p.1@)),
            )[key],
{
    let ghost lv = l@.map(|_k: int, p: (String, String)| (p.0@, p.1@));
    let ghost ls = l@.map(|_k: int, p: (String, String)| (p.0@, p.1));
    let mut r: crate::assoc::Assoc<String> = crate::assoc::Assoc::new();
    let n = l.len();
    let mut i: usize = 0;
    while i < n
        invariant
            i <= n,
            n == l@.len(),
            lv == l@.map(|_k: int, p: (String, String)| (p.0@, p.1@)),
            ls == l@.map(|_k: int, p: (String, String)| (p.0@, p.1)),
            r.wf(),
            r.m() == amap(ls.take(i as int)),
        decreases n - i,
    {
        r.set(l[i].0.as_str(), l[i].1.clone());
        proof {
            assert(ls.take(i + 1 as int).drop_last() =~= ls.take(i as int));
            assert(ls.take(i + 1 as int).last() == ls[i as int]);
        }
        i += 1;
    }
    proof {
        assert(ls.take(n as int) =~= ls);
        assert forall|key: Seq<char>| #[trigger] r.m().contains_key(key) == amap(lv).contains_key(
            key,
        ) && (r.m().contains_key(key) ==> r.m()[key]@ == amap(lv)[key]) by {
            crate::log_model::lemma_amap_views(l@, key);
        }
    }
    r
}

/// A criterion delta judged against the two criteria maps.
pub open spec fn ticket_delta_ok(
    d: Delta,
    tid: Seq<char>,
    om: Map<Seq<char>, Seq<char>>,
    nm: Map<Seq<char>, Seq<char>>,
) -> bool {
    match d {
        Delta::Criterion { ticket_id, ac, change } => {
            &&& ticket_id@ == tid
            &&& match change {
                Change::Added => nm.contains_key(ac@) && !om.contains_key(ac@),
                Change::Removed => om.contains_key(ac@) && !nm.contains_key(ac@),
                Change::Modified { from, to } => om.contains_key(ac@) && nm.contains_key(ac@)
                    && om[ac@] != nm[ac@] && from@ == om[ac@] && to@ == nm[ac@],
            }
        },
        _ => false,
    }
}

/// Some delta is a criterion delta for this key.
pub open spec fn ac_named(ds: Seq<Delta>, ac: Seq<char>) -> bool {
    exists|k: int|
        0 <= k < ds.len() && match #[trigger] ds[k] {
            Delta::Criterion { ticket_id, ac: a, change } => a@ == ac,
            _ => false,
        }
}

proof fn lemma_ac_named_push(ds: Seq<Delta>, d: Delta, ac: Seq<char>)
    ensures
        ac_named(ds, ac) ==> ac_named(ds.push(d), ac),
        (match d {
            Delta::Criterion { ticket_id, ac: a, change } => a@ == ac,
            _ => false,
        }) ==> ac_named(ds.push(d), ac),
{
    if ac_named(ds, ac) {
        let k = choose|k: int|
            0 <= k < ds.len() && match #[trigger] ds[k] {
                Delta::Criterion { ticket_id, ac: a, change } => a@ == ac,
                _ => false,
            };
        assert(ds.push(d)[k] == ds[k]);
    }
    assert(ds.push(d)[ds.len() as int] == d);
}

/// The criterion key a delta carries.
pub open spec fn ac_name_of(d: Delta) -> Seq<char> {
    match d {
        Delta::Criterion { ticket_id, ac, change } => ac@,
        _ => Seq::empty(),
    }
}

/// The ticket-diff contract: sound criterion deltas, exactly one per
/// criterion, and one for every added, removed or changed criterion.
pub open spec fn ticket_diff_ok(
    ds: Seq<Delta>,
    tid: Seq<char>,
    old_text: Seq<char>,
    new_text: Seq<char>,
) -> bool {
    let om = amap(ticket_criteria_of(old_text).unwrap());
    let nm = amap(ticket_criteria_of(new_text).unwrap());
    &&& forall|k: int| 0 <= k < ds.len() ==> ticket_delta_ok(#[trigger] ds[k], tid, om, nm)
    &&& forall|k1: int, k2: int|
        0 <= k1 < k2 < ds.len() ==> ac_name_of(#[trigger] ds[k1]) != ac_name_of(#[trigger] ds[k2])
    &&& forall|ac: Seq<char>|
        #![trigger ac_named(ds, ac)]
        ((om.contains_key(ac) && !nm.contains_key(ac)) || (nm.contains_key(ac)
            && !om.contains_key(ac)) || (om.contains_key(ac) && nm.contains_key(ac) && om[ac]
            != nm[ac]) ==> ac_named(ds, ac))
}

/// Diff the acceptance criteria of two ticket files: exactly one criterion
/// delta per added, removed or value-changed criterion, carrying the ticket
/// identifier, in no promised order. Fails exactly when either text is not
/// a well-formed ticket.
pub fn diff_ticket_toml(ticket_id: &str, old: &str, new: &str) -> (r: Result<Vec<Delta>, String>)
    ensures
        match r {
            Ok(ds) => ticket_criteria_of(old@) is Some && ticket_criteria_of(new@) is Some
                && ticket_diff_ok(ds@, ticket_id@, old@, new@),
            Err(e) => (ticket_criteria_of(old@) is None || ticket_criteria_of(new@) is None) && e@
                == "TOML parse error"@,
        },
{
    let old_list = match parse_ticket_criteria(old) {
        Some(l) => l,
        None => {
            return Err("TOML parse error".to_owned());
        },
    };
    let new_list = match parse_ticket_criteria(new) {
        Some(l) => l,
        None => {
            return Err("TOML parse error".to_owned());
        },
    };
    let old_tbl = pairs_table(&old_list);
    let new_tbl = pairs_table(&new_list);
    let ghost om = amap(ticket_criteria_of(old@).unwrap());
    let ghost nm = amap(ticket_criteria_of(new@).unwrap());
    let mut deltas: Vec<Delta> = Vec::new();

    // added and changed criteria
    let nn = new_tbl.pairs.len();
    let mut j: usize = 0;
    while j < nn
        invariant
            j <= nn,
            nn == new_tbl.pseq().len(),
            old_tbl.wf(),
            new_tbl.wf(),
            forall|key: Seq<char>| #[trigger] old_tbl.m().contains_key(key) == om.contains_key(
                key,
            ),
            forall|key: Seq<char>|
                old_tbl.m().contains_key(key) ==> #[trigger] old_tbl.m()[key]@ == om[key],
            forall|key: Seq<char>| #[trigger] new_tbl.m().contains_key(key) == nm.contains_key(
                key,
            ),
            forall|key: Seq<char>|
                new_tbl.m().contains_key(key) ==> #[trigger] new_tbl.m()[key]@ == nm[key],
            forall|k: int|
                0 <= k < deltas@.len() ==> ticket_delta_ok(#[trigger] deltas@[k], ticket_id@, om, nm),
            forall|k: int|
                #![trigger deltas@[k]]
                0 <= k < deltas@.len() ==> exists|x: int|
                    0 <= x < j && (#[trigger] new_tbl.pseq()[x]).0 == ac_name_of(deltas@[k]),
            forall|k1: int, k2: int|
                0 <= k1 < k2 < deltas@.len() ==> ac_name_of(#[trigger] deltas@[k1]) != ac_name_of(
                    #[trigger] deltas@[k2],
                ),
            forall|ac: Seq<char>|
                #![trigger ac_named(deltas@, ac)]
                ((exists|x: int| 0 <= x < j && (#[trigger] new_tbl.pseq()[x]).0 == ac) && (
                !om.contains_key(ac) || (om.contains_key(ac) && om[ac] != nm[ac]))
                    ==> ac_named(deltas@, ac)),
        decreases nn - j,
    {
        proof {
            new_tbl.lemma_pairs(j as int);
            assert(new_tbl.m().contains_key(new_tbl.pseq()[j as int].0));
            assert(nm.contains_key(new_tbl.pseq()[j as int].0));
            assert(new_tbl.m()[new_tbl.pseq()[j as int].0]@ == nm[new_tbl.pseq()[j as int].0]);
        }
        let ac = &new_tbl.pairs[j].0;
        let new_val = &new_tbl.pairs[j].1;
        let ghost before = deltas@;
        let mut emitted = false;
        proof {
            assert(old_tbl.m().contains_key(ac@) == om.contains_key(ac@));
        }
        match old_tbl.get_ref(ac.as_str()) {
            None => {
                deltas.push(
                    Delta::Criterion {
                        ticket_id: ticket_id.to_owned(),
                        ac: ac.clone(),
                        change: Change::Added,
                    },
                );
                emitted = true;
            },
            Some(old_val) => {
                if !str_eq(old_val.as_str(), new_val.as_str()) {
                    deltas.push(
                        Delta::Criterion {
                            ticket_id: ticket_id.to_owned(),
                            ac: ac.clone(),
                            change: Change::Modified {
                                from: old_val.clone(),
                                to: new_val.clone(),
                            },
                        },
                    );
                    emitted = true;
                }
            },
        }
        proof {
            if emitted {
                assert(deltas@ =~= before.push(deltas@.last()));
                assert(ac_name_of(deltas@.last()) == ac@);
            }
            assert forall|k: int|
                #![trigger deltas@[k]]
                0 <= k < deltas@.len() implies exists|x: int|
                0 <= x < j + 1 && (#[trigger] new_tbl.pseq()[x]).0 == ac_name_of(deltas@[k]) by {
                if emitted && k == deltas@.len() - 1 {
                    assert(new_tbl.pseq()[j as int].0 == ac_name_of(deltas@[k]));
                } else {
                    assert(deltas@[k] == before[k]);
                    let x = choose|x: int|
                        0 <= x < j && (#[trigger] new_tbl.pseq()[x]).0 == ac_name_of(before[k]);
                    assert(new_tbl.pseq()[x].0 == ac_name_of(deltas@[k]));
                }
            }
            assert forall|k1: int, k2: int|
                0 <= k1 < k2 < deltas@.len() implies ac_name_of(#[trigger] deltas@[k1])
                != ac_name_of(#[trigger] deltas@[k2]) by {
                assert(deltas@[k1] == before[k1]);
                if emitted && k2 == deltas@.len() - 1 {
                    let x = choose|x: int|
                        0 <= x < j && (#[trigger] new_tbl.pseq()[x]).0 == ac_name_of(before[k1]);
                    assert(new_tbl.pseq()[x].0 != new_tbl.pseq()[j as int].0);
                } else {
                    assert(deltas@[k2] == before[k2]);
                }
            }
            assert forall|ac2: Seq<char>|
                #![trigger ac_named(deltas@, ac2)]
                ((exists|x: int| 0 <= x < j + 1 && (#[trigger] new_tbl.pseq()[x]).0 == ac2) && (
                !om.contains_key(ac2) || (om.contains_key(ac2) && om[ac2] != nm[ac2])))
                    implies ac_named(deltas@, ac2) by {
                if emitted {
                    lemma_ac_named_push(before, deltas@.last(), ac2);
                }
                if ac2 != ac@ {
                    let x = choose|x: int|
                        0 <= x < j + 1 && (#[trigger] new_tbl.pseq()[x]).0 == ac2;
                    assert(0 <= x < j && new_tbl.pseq()[x].0 == ac2);
                    assert(ac_named(before, ac2));
                } else {
                    assert(emitted || (om.contains_key(ac@) && om[ac@] == nm[ac@]));
                }
            }
        }
        j += 1;
    }

    proof {
        assert forall|ac: Seq<char>|
            #![trigger ac_named(deltas@, ac)]
            nm.contains_key(ac) && (!om.contains_key(ac) || om[ac] != nm[ac]) implies ac_named(
            deltas@,
            ac,
        ) by {
            assert(new_tbl.m().contains_key(ac) == nm.contains_key(ac));
            crate::assoc::lemma_amap_contains(new_tbl.pseq(), ac);
        }
        assert forall|k: int|
            #![trigger deltas@[k]]
            0 <= k < deltas@.len() implies nm.contains_key(ac_name_of(deltas@[k])) by {
            let x = choose|x: int|
                0 <= x < nn && (#[trigger] new_tbl.pseq()[x]).0 == ac_name_of(deltas@[k]);
            new_tbl.lemma_pairs(x);
            assert(new_tbl.m().contains_key(ac_name_of(deltas@[k])));
        }
    }

    // removed criteria
    let no = old_tbl.pairs.len();
    let mut i: usize = 0;
    while i < no
        invariant
            i <= no,
            no == old_tbl.pseq().len(),
            old_tbl.wf(),
            new_tbl.wf(),
            forall|key: Seq<char>| #[trigger] old_tbl.m().contains_key(key) == om.contains_key(
                key,
            ),
            forall|key: Seq<char>|
                old_tbl.m().contains_key(key) ==> #[trigger] old_tbl.m()[key]@ == om[key],
            forall|key: Seq<char>| #[trigger] new_tbl.m().contains_key(key) == nm.contains_key(
                key,
            ),
            forall|key: Seq<char>|
                new_tbl.m().contains_key(key) ==> #[trigger] new_tbl.m()[key]@ == nm[key],
            forall|k: int|
                0 <= k < deltas@.len() ==> ticket_delta_ok(#[trigger] deltas@[k], ticket_id@, om, nm),
            forall|k: int|
                #![trigger deltas@[k]]
                0 <= k < deltas@.len() ==> (nm.contains_key(ac_name_of(deltas@[k]))
                    || exists|x: int|
                    0 <= x < i && (#[trigger] old_tbl.pseq()[x]).0 == ac_name_of(deltas@[k])),
            forall|k1: int, k2: int|
                0 <= k1 < k2 < deltas@.len() ==> ac_name_of(#[trigger] deltas@[k1]) != ac_name_of(
                    #[trigger] deltas@[k2],
                ),
            forall|ac: Seq<char>|
                #![trigger ac_named(deltas@, ac)]
                (nm.contains_key(ac) && (!om.contains_key(ac) || om[ac] != nm[ac]) ==> ac_named(
                    deltas@,
                    ac,
                )),
            forall|ac: Seq<char>|
                #![trigger ac_named(deltas@, ac)]
                ((exists|x: int| 0 <= x < i && (#[trigger] old_tbl.pseq()[x]).0 == ac)
                    && !nm.contains_key(ac) ==> ac_named(deltas@, ac)),
        decreases no - i,
    {
        proof {
            old_tbl.lemma_pairs(i as int);
            assert(old_tbl.m().contains_key(old_tbl.pseq()[i as int].0));
            assert(om.contains_key(old_tbl.pseq()[i as int].0));
        }
        let ac = &old_tbl.pairs[i].0;
        let ghost before = deltas@;
        let mut emitted = false;
        if !new_tbl.contains(ac.as_str()) {
            deltas.push(
                Delta::Criterion {
                    ticket_id: ticket_id.to_owned(),
                    ac: ac.clone(),
                    change: Change::Removed,
                },
            );
            emitted = true;
        }
        proof {
            if emitted {
                assert(deltas@ =~= before.push(deltas@.last()));
                assert(ac_name_of(deltas@.last()) == ac@);
            }
            assert forall|k: int|
                #![trigger deltas@[k]]
                0 <= k < deltas@.len() implies (nm.contains_key(ac_name_of(deltas@[k]))
                || exists|x: int|
                0 <= x < i + 1 && (#[trigger] old_tbl.pseq()[x]).0 == ac_name_of(
                    deltas@[k],
                )) by {
                if emitted && k == deltas@.len() - 1 {
                    assert(old_tbl.pseq()[i as int].0 == ac_name_of(deltas@[k]));
                } else {
                    assert(deltas@[k] == before[k]);
                    if !nm.contains_key(ac_name_of(before[k])) {
                        let x = choose|x: int|
                            0 <= x < i && (#[trigger] old_tbl.pseq()[x]).0 == ac_name_of(
                                before[k],
                            );
                        assert(old_tbl.pseq()[x].0 == ac_name_of(deltas@[k]));
                    }
                }
            }
            assert forall|k1: int, k2: int|
                0 <= k1 < k2 < deltas@.len() implies ac_name_of(#[trigger] deltas@[k1])
                != ac_name_of(#[trigger] deltas@[k2]) by {
                assert(deltas@[k1] == before[k1]);
                if emitted && k2 == deltas@.len() - 1 {
                    assert(ac_name_of(deltas@[k2]) == ac@);
                    assert(!nm.contains_key(ac@));
                    if !nm.contains_key(ac_name_of(before[k1])) {
                        let x = choose|x: int|
                            0 <= x < i && (#[trigger] old_tbl.pseq()[x]).0 == ac_name_of(
                                before[k1],
                            );
                        assert(old_tbl.pseq()[x].0 != old_tbl.pseq()[i as int].0);
                    }
                } else {
                    assert(deltas@[k2] == before[k2]);
                }
            }
            assert forall|ac2: Seq<char>|
                #![trigger ac_named(deltas@, ac2)]
                nm.contains_key(ac2) && (!om.contains_key(ac2) || om[ac2] != nm[ac2]) implies ac_named(
                deltas@,
                ac2,
            ) by {
                assert(ac_named(before, ac2));
                if emitted {
                    lemma_ac_named_push(before, deltas@.last(), ac2);
                }
            }
            assert forall|ac2: Seq<char>|
                #![trigger ac_named(deltas@, ac2)]
                ((exists|x: int| 0 <= x < i + 1 && (#[trigger] old_tbl.pseq()[x]).0 == ac2)
                    && !nm.contains_key(ac2)) implies ac_named(deltas@, ac2) by {
                if emitted {
                    lemma_ac_named_push(before, deltas@.last(), ac2);
                }
                if ac2 != ac@ {
                    let x = choose|x: int|
                        0 <= x < i + 1 && (#[trigger] old_tbl.pseq()[x]).0 == ac2;
                    assert(0 <= x < i && old_tbl.pseq()[x].0 == ac2);
                    assert(ac_named(before, ac2));
                } else {
                    assert(emitted || nm.contains_key(ac@));
                }
            }
        }
        i += 1;
    }
    proof {
        assert forall|ac: Seq<char>|
            #![trigger ac_named(deltas@, ac)]
            ((om.contains_key(ac) && !nm.contains_key(ac)) || (nm.contains_key(ac)
                && !om.contains_key(ac)) || (om.contains_key(ac) && nm.contains_key(ac) && om[ac]
                != nm[ac])) implies ac_named(deltas@, ac) by {
            assert(old_tbl.m().contains_key(ac) == om.contains_key(ac));
            assert(new_tbl.m().contains_key(ac) == nm.contains_key(ac));
            crate::assoc::lemma_amap_contains(old_tbl.pseq(), ac);
            crate::assoc::lemma_amap_contains(new_tbl.pseq(), ac);
        }
    }
    Ok(deltas)
}

} // verus!
