//! The differ entry point: dispatch a file's old and new contents to the
//! right diff algorithm by the artifact's semantic unit, plus the semantic
//! (changelog) differ it dispatches to.

use vstd::prelude::*;

use crate::facts::{spec_unit_of, Delta, SemanticUnit};
use crate::manifest_diff::{
    cargo_deps_of, cargo_diff_ok, diff_cargo_toml, diff_ticket_toml, ticket_criteria_of,
    ticket_diff_ok,
};
use crate::structural::{
    decl_diff_ok, diff_declarations, diff_quads, diff_rules, nonblank, quads_diff_ok,
    rules_diff_ok,
};
use crate::text::nonblank_range;
use crate::text::{
    has_prefix, lines_of, match_at, spec_find, spec_lines, spec_rfind, to_chars, trim_of, trim_str,
};

verus! {

// ─── changelog diffing (dissimilar) ────────────────────────────────────────

/// One chunk of a character-level diff.
pub enum DiffChunk {
    Equal(String),
    Delete(String),
    Insert(String),
}

/// A chunk as a plain tagged pair.
pub open spec fn chunk_enc(c: DiffChunk) -> (int, Seq<char>) {
    match c {
        DiffChunk::Equal(s) => (0int, s@),
        DiffChunk::Delete(s) => (1int, s@),
        DiffChunk::Insert(s) => (2int, s@),
    }
}

/// The chunk list of the character-level diff of two texts, encoded as
/// tagged pairs (equal, deleted, inserted); a function of the texts alone.
pub uninterp spec fn diff_chunks_of(a: Seq<char>, b: Seq<char>) -> Seq<(int, Seq<char>)>;

/// Relies on dissimilar::diff; each chunk is carried over by kind.
#[verifier::external_body]
fn diff_chunks(a: &str, b: &str) -> (r: Vec<DiffChunk>)
    ensures
        r@.map(|_k: int, c: DiffChunk| chunk_enc(c)) == diff_chunks_of(a@, b@),
{
    dissimilar::diff(a, b).into_iter().map(
        |c|
            match c {
                dissimilar::Chunk::Equal(s) => DiffChunk::Equal(s.to_string()),
                dissimilar::Chunk::Delete(s) => DiffChunk::Delete(s.to_string()),
                dissimilar::Chunk::Insert(s) => DiffChunk::Insert(s.to_string()),
            },
    ).collect()
}

/// The lowercase form of a text; a function of the characters alone.
pub uninterp spec fn lower_of(s: Seq<char>) -> Seq<char>;

/// Relies on str::to_lowercase.
#[verifier::external_body]
fn str_lower(s: &str) -> (r: String)
    ensures
        r@ == lower_of(s@),
{
    s.to_lowercase()
}

/// The concatenation of the chunks with the given tag.
pub open spec fn cat_tag(cs: Seq<(int, Seq<char>)>, tag: int, n: int) -> Seq<char>
    decreases n,
{
    if n <= 0 {
        Seq::empty()
    } else if cs[n - 1].0 == tag {
        cat_tag(cs, tag, n - 1) + cs[n - 1].1
    } else {
        cat_tag(cs, tag, n - 1)
    }
}

/// The changelog-entry fold: a heading or bullet line closes a non-blank
/// buffer as one trimmed entry.
pub open spec fn entry_state(lines: Seq<Seq<char>>, n: int) -> (Seq<char>, Seq<Seq<char>>)
    decreases n,
{
    if n <= 0 {
        (Seq::empty(), seq![])
    } else {
        let prev = entry_state(lines, n - 1);
        let l = lines[n - 1];
        if (match_at(l, "## "@, 0) || match_at(l, "### "@, 0) || match_at(l, "- "@, 0)) && nonblank(
            prev.0,
        ) {
            (l + "\n"@, prev.1.push(trim_of(prev.0)))
        } else {
            (prev.0 + l + "\n"@, prev.1)
        }
    }
}

/// The trimmed entries of a changelog text.
pub open spec fn spec_entries(s: Seq<char>) -> Seq<Seq<char>> {
    let st = entry_state(spec_lines(s), spec_lines(s).len() as int);
    if nonblank(st.0) {
        st.1.push(trim_of(st.0))
    } else {
        st.1
    }
}

/// Split a changelog text into entries; agrees with `spec_entries`.
fn split_changelog_entries(text: &str) -> (r: Vec<String>)
    ensures
        r@.map(|_k: int, t: String| t@) == spec_entries(text@),
{
    let v = to_chars(text);
    let lines = lines_of(text, &v);
    let ghost lv = lines@.map(|_k: int, l: String| l@);
    let mut current = "".to_owned();
    proof {
        reveal_strlit("");
        assert(current@ =~= Seq::<char>::empty());
    }
    let mut entries: Vec<String> = Vec::new();
    let n = lines.len();
    let mut i: usize = 0;
    while i < n
        invariant
            i <= n,
            n == lines@.len(),
            lv == lines@.map(|_k: int, l: String| l@),
            current@ == entry_state(lv, i as int).0,
            entries@.map(|_k: int, t: String| t@) == entry_state(lv, i as int).1,
        decreases n - i,
    {
        let line = &lines[i];
        proof {
            assert(line@ == lv[i as int]);
        }
        let cv = to_chars(current.as_str());
        let boundary = has_prefix(line.as_str(), "## ") || has_prefix(line.as_str(), "### ")
            || has_prefix(line.as_str(), "- ");
        if boundary && crate::text::is_nonblank(&cv) {
            entries.push(trim_str(current.as_str(), &cv));
            current = line.clone();
            current.append("\n");
            proof {
                assert(entries@.map(|_k: int, t: String| t@) =~= entry_state(lv, i + 1 as int).1);
            }
        } else {
            current.append(line.as_str());
            current.append("\n");
            proof {
                assert(current@ =~= entry_state(lv, i + 1 as int).0);
            }
        }
        i += 1;
    }
    let cv = to_chars(current.as_str());
    if crate::text::is_nonblank(&cv) {
        entries.push(trim_str(current.as_str(), &cv));
        proof {
            assert(entries@.map(|_k: int, t: String| t@) =~= spec_entries(text@));
        }
    } else {
        proof {
            assert(entries@.map(|_k: int, t: String| t@) == spec_entries(text@));
        }
    }
    entries
}

/// An entry is marked breaking when its lowercase form mentions "breaking"
/// or the entry itself carries the upper-case marker.
pub open spec fn spec_breaking_entry(entry: Seq<char>) -> bool {
    spec_find(lower_of(entry), "breaking"@, 0) is Some || spec_find(entry, "BREAKING"@, 0) is Some
}

/// The behavior-diff contract: one delta per inserted changelog entry, each
/// carrying the component, the first deleted entry (or nothing) as the old
/// text, the entry as the new text, and the breaking marker.
pub open spec fn behavior_diff_ok(ds: Seq<Delta>, component: Seq<char>, a: Seq<char>, b: Seq<char>) -> bool {
    let cs = diff_chunks_of(a, b);
    let new_entries = spec_entries(cat_tag(cs, 2, cs.len() as int));
    let old_entries = spec_entries(cat_tag(cs, 1, cs.len() as int));
    let old_first = if old_entries.len() > 0 {
        old_entries[0]
    } else {
        Seq::empty()
    };
    &&& ds.len() == new_entries.len()
    &&& forall|k: int|
        0 <= k < ds.len() ==> (match #[trigger] ds[k] {
            Delta::Behavior { component: c, old, new, breaking } => {
                &&& c@ == component
                &&& old@ == old_first
                &&& new@ == new_entries[k]
                &&& breaking == spec_breaking_entry(new_entries[k])
            },
            _ => false,
        })
}

/// Diff two changelog texts: the inserted entries, each against the first
/// deleted entry.
pub fn diff_behavior(component: &str, old: &str, new: &str) -> (r: Vec<Delta>)
    ensures
        behavior_diff_ok(r@, component@, old@, new@),
{
    let chunks = diff_chunks(old, new);
    let ghost cs = diff_chunks_of(old@, new@);
    let mut new_text = "".to_owned();
    let mut old_text = "".to_owned();
    proof {
        reveal_strlit("");
        assert(new_text@ =~= Seq::<char>::empty());
    }
    let n = chunks.len();
    let mut i: usize = 0;
    while i < n
        invariant
            i <= n,
            n == chunks@.len(),
            cs == chunks@.map(|_k: int, c: DiffChunk| chunk_enc(c)),
            new_text@ == cat_tag(cs, 2, i as int),
            old_text@ == cat_tag(cs, 1, i as int),
        decreases n - i,
    {
        proof {
            assert(chunk_enc(chunks@[i as int]) == cs[i as int]);
        }
        match &chunks[i] {
            DiffChunk::Insert(s) => {
                new_text.append(s.as_str());
            },
            DiffChunk::Delete(s) => {
                old_text.append(s.as_str());
            },
            DiffChunk::Equal(_s) => {},
        }
        i += 1;
    }
    proof {
        assert(cs.len() == n);
    }
    let mut deltas: Vec<Delta> = Vec::new();
    if !new_text.as_str().is_empty() || !old_text.as_str().is_empty() {
        let old_entries = split_changelog_entries(old_text.as_str());
        let new_entries = split_changelog_entries(new_text.as_str());
        let ghost ne = spec_entries(new_text@);
        let ghost oe = spec_entries(old_text@);
        let old_first = if old_entries.len() > 0 {
            proof {
                assert(old_entries@.map(|_k: int, t: String| t@)[0] == old_entries@[0]@);
            }
            old_entries[0].clone()
        } else {
            "".to_owned()
        };
        proof {
            reveal_strlit("");
            if oe.len() == 0 {
                assert(old_first@ =~= Seq::<char>::empty());
            }
        }
        let m = new_entries.len();
        let mut k: usize = 0;
        while k < m
            invariant
                k <= m,
                m == new_entries@.len(),
                ne == new_entries@.map(|_k: int, t: String| t@),
                old_first@ == (if oe.len() > 0 {
                    oe[0]
                } else {
                    Seq::<char>::empty()
                }),
                deltas@.len() == k,
                forall|k2: int|
                    0 <= k2 < k ==> (match #[trigger] deltas@[k2] {
                        Delta::Behavior { component: c, old, new, breaking } => {
                            &&& c@ == component@
                            &&& old@ == old_first@
                            &&& new@ == ne[k2]
                            &&& breaking == spec_breaking_entry(ne[k2])
                        },
                        _ => false,
                    }),
            decreases m - k,
        {
            let entry = &new_entries[k];
            proof {
                assert(entry@ == ne[k as int]);
            }
            let ev = to_chars(entry.as_str());
            let lowered = str_lower(entry.as_str());
            let lw = to_chars(lowered.as_str());
            let breaking = crate::text::contains_str(lowered.as_str(), &lw, "breaking")
                || crate::text::contains_str(entry.as_str(), &ev, "BREAKING");
            if crate::text::is_nonblank(&ev) {
                deltas.push(
                    Delta::Behavior {
                        component: component.to_owned(),
                        old: old_first.clone(),
                        new: entry.clone(),
                        breaking,
                    },
                );
            } else {
                proof {
                    lemma_entries_nonblank(new_text@, k as int);
                }
            }
            k += 1;
        }
        proof {
            assert(cat_tag(cs, 2, cs.len() as int) == new_text@);
            assert(cat_tag(cs, 1, cs.len() as int) == old_text@);
        }
    } else {
        proof {
            assert(new_text@ =~= Seq::<char>::empty());
            assert(spec_entries(new_text@) =~= Seq::<Seq<char>>::empty());
            assert(cat_tag(cs, 2, cs.len() as int) == new_text@);
        }
    }
    deltas
}

/// Every folded changelog entry has text: only non-blank buffers are
/// pushed, and trimming a non-blank text leaves it non-blank.
proof fn lemma_entries_nonblank(s: Seq<char>, k: int)
    requires
        0 <= k < spec_entries(s).len(),
    ensures
        nonblank(spec_entries(s)[k]),
{
    let st = entry_state(spec_lines(s), spec_lines(s).len() as int);
    if k < st.1.len() {
        lemma_entry_state_nonblank(spec_lines(s), spec_lines(s).len() as int, k);
    } else {
        lemma_trim_nonblank(st.0);
    }
}

proof fn lemma_entry_state_nonblank(lines: Seq<Seq<char>>, n: int, k: int)
    requires
        0 <= k < entry_state(lines, n).1.len(),
    ensures
        nonblank(entry_state(lines, n).1[k]),
    decreases n,
{
    if n > 0 {
        let prev = entry_state(lines, n - 1);
        if entry_state(lines, n).1.len() > prev.1.len() && k == prev.1.len() {
            lemma_trim_nonblank(prev.0);
        } else {
            lemma_entry_state_nonblank(lines, n - 1, k);
        }
    }
}

/// Trimming keeps some non-whitespace character.
proof fn lemma_trim_nonblank(s: Seq<char>)
    requires
        nonblank(s),
    ensures
        nonblank(trim_of(s)),
{
    assert(exists|k: int| 0 <= k < s.len() && !crate::text::is_space(#[trigger] s[k]));
    let w = choose|k: int| 0 <= k < s.len() && !crate::text::is_space(#[trigger] s[k]);
    let a = crate::text::trim_start(s, 0, s.len() as int);
    let b = crate::text::trim_end(s, a, s.len() as int);
    lemma_trim_start_le(s, 0, s.len() as int, w);
    lemma_trim_end_ge(s, a, s.len() as int, w);
    assert(0 <= a <= w < b <= s.len());
    assert(trim_of(s) == s.subrange(a, b));
    assert(s.subrange(a, b)[w - a] == s[w]);
    assert(!crate::text::is_space(trim_of(s)[w - a]));
    assert(nonblank_range(trim_of(s), 0, trim_of(s).len() as int));
}

proof fn lemma_trim_start_le(s: Seq<char>, a: int, b: int, w: int)
    requires
        a <= w < b <= s.len(),
        0 <= a,
        !crate::text::is_space(s[w]),
    ensures
        a <= crate::text::trim_start(s, a, b) <= w,
    decreases b - a,
{
    if a < b && 0 <= a < s.len() && crate::text::is_space(s[a]) {
        if a < w {
            lemma_trim_start_le(s, a + 1, b, w);
        }
    }
}

proof fn lemma_trim_end_ge(s: Seq<char>, a: int, b: int, w: int)
    requires
        0 <= a <= w < b <= s.len(),
        !crate::text::is_space(s[w]),
    ensures
        w < crate::text::trim_end(s, a, b) <= b,
    decreases b - a,
{
    if b > a && 0 <= b - 1 < s.len() && crate::text::is_space(s[b - 1]) {
        lemma_trim_end_ge(s, a, b - 1, w);
    }
}

// ─── dispatch ──────────────────────────────────────────────────────────────

/// The last path component.
pub open spec fn last_component(path: Seq<char>) -> Seq<char> {
    match spec_rfind(path, "/"@) {
        Some(p) => path.skip(p + 1),
        None => path,
    }
}

/// The file stem: the last component up to its last dot (a leading dot does
/// not count), or the fallback for an empty name.
pub open spec fn stem_of(path: Seq<char>) -> Seq<char> {
    let nm = last_component(path);
    if nm.len() == 0 {
        "UNKNOWN"@
    } else {
        match spec_rfind(nm, "."@) {
            Some(q) => if q > 0 {
                nm.take(q)
            } else {
                nm
            },
            None => nm,
        }
    }
}

/// The file name, or the fallback for an empty name.
pub open spec fn name_of(path: Seq<char>) -> Seq<char> {
    let nm = last_component(path);
    if nm.len() == 0 {
        "unknown"@
    } else {
        nm
    }
}

fn component_of(path: &str) -> (r: (String, String))
    ensures
        r.0@ == stem_of(path@),
        r.1@ == name_of(path@),
{
    let v = to_chars(path);
    let slash = to_chars("/");
    let dot = to_chars(".");
    proof {
        reveal_strlit("/");
        reveal_strlit(".");
        crate::text::lemma_rfind_props(path@, "/"@);
    }
    let n0 = v.len();
    let (name, nv) = match crate::text::rfind(&v, &slash) {
        Some(p) => {
            proof {
                assert(p + 1 <= path@.len());
            }
            let nm = path.substring_char(p + 1, n0);
            let nv = to_chars(nm);
            proof {
                assert(nm@ =~= path@.skip(p + 1 as int));
            }
            (nm, nv)
        },
        None => (path, v),
    };
    proof {
        crate::text::lemma_rfind_props(name@, "."@);
    }
    let n1 = nv.len();
    if n1 == 0 {
        return ("UNKNOWN".to_owned(), "unknown".to_owned());
    }
    let stem = match crate::text::rfind(&nv, &dot) {
        Some(q) => {
            proof {
                assert(q + 1 <= name@.len());
            }
            if q > 0 {
                let s = name.substring_char(0, q).to_owned();
                proof {
                    assert(s@ =~= name@.take(q as int));
                }
                s
            } else {
                name.to_owned()
            }
        },
        None => name.to_owned(),
    };
    (stem, name.to_owned())
}

/// Dispatch to the diff algorithm of the artifact's semantic unit. Source
/// files diff at declaration level, rules documents at rule level, quad
/// files at quad level, manifests and tickets at field level, changelogs at
/// entry level. Fails exactly when a manifest or ticket file does not
/// parse.
pub fn compute_deltas(path: &str, old: &str, new: &str) -> (r: Result<Vec<Delta>, String>)
    ensures
        ({
            let unit = spec_unit_of(path@);
            match r {
                Ok(ds) => {
                    &&& (unit == SemanticUnit::Declaration ==> decl_diff_ok(ds@, old@, new@))
                    &&& (unit == SemanticUnit::Rule ==> rules_diff_ok(ds@, old@, new@))
                    &&& (unit == SemanticUnit::Quad ==> quads_diff_ok(ds@, old@, new@))
                    &&& (unit == SemanticUnit::DependencyConstraint && spec_find(
                        path@,
                        "tickets/"@,
                        0,
                    ) is Some ==> ticket_diff_ok(ds@, stem_of(path@), old@, new@))
                    &&& (unit == SemanticUnit::DependencyConstraint && spec_find(
                        path@,
                        "tickets/"@,
                        0,
                    ) is None ==> cargo_diff_ok(ds@, old@, new@))
                    &&& (unit == SemanticUnit::Criterion ==> ticket_diff_ok(
                        ds@,
                        stem_of(path@),
                        old@,
                        new@,
                    ))
                    &&& (unit == SemanticUnit::Behavior ==> behavior_diff_ok(
                        ds@,
                        name_of(path@),
                        old@,
                        new@,
                    ))
                },
                Err(_) => unit == SemanticUnit::DependencyConstraint || unit
                    == SemanticUnit::Criterion,
            }
        }),
{
    let pv = to_chars(path);
    match crate::facts::SemanticUnit::from_path(path) {
        SemanticUnit::Declaration => Ok(diff_declarations(old, new)),
        SemanticUnit::Rule => Ok(diff_rules(old, new)),
        SemanticUnit::Quad => Ok(diff_quads(old, new)),
        SemanticUnit::DependencyConstraint => {
            if crate::text::contains_str(path, &pv, "tickets/") {
                let (stem, _nm) = component_of(path);
                diff_ticket_toml(stem.as_str(), old, new)
            } else {
                diff_cargo_toml(old, new)
            }
        },
        SemanticUnit::Criterion => {
            let (stem, _nm) = component_of(path);
            diff_ticket_toml(stem.as_str(), old, new)
        },
        SemanticUnit::Behavior => {
            let (_stem, nm) = component_of(path);
            Ok(diff_behavior(nm.as_str(), old, new))
        },
    }
}

} // verus!
