//! The coarse file differ: declaration-level diffing of source files,
//! dependency diffing of manifests, and rule diffing of rules documents,
//! dispatched by file extension.

use vstd::prelude::*;

use crate::assoc::{amap, Assoc};
use crate::delta::{Change, DeclKind, Delta, DeltaList};
use crate::text::{
    ends_with, find_last_word, has_prefix, has_suffix, is_match, is_space, last_word, lines_of, match_at,
    spec_find, spec_lines, spec_rfind, spec_words, split_words, strip_trailing, to_chars,
    trim_end_char, trim_of, trim_str,
};

verus! {

// ─── declaration extraction ────────────────────────────────────────────────

/// Lines that may introduce a declaration.
pub open spec fn is_visibility_line(t: Seq<char>) -> bool {
    match_at(t, "public "@, 0) || match_at(t, "private "@, 0) || match_at(t, "protected "@, 0)
}

/// Lines treated as method declarations by their parameter type markers.
pub open spec fn has_method_marker(t: Seq<char>) -> bool {
    spec_find(t, "void "@, 0) is Some || spec_find(t, "String "@, 0) is Some || spec_find(
        t,
        "int "@,
        0,
    ) is Some
}

/// The declared method name: the last word before the first parenthesis.
pub open spec fn spec_function_name(t: Seq<char>) -> Option<Seq<char>> {
    match spec_find(t, "("@, 0) {
        Some(p) => last_word(t.take(p)),
        None => None,
    }
}

/// The declared type name: the third word, with trailing braces removed.
pub open spec fn spec_class_name(t: Seq<char>) -> Option<Seq<char>> {
    let ws = spec_words(t);
    if ws.len() > 2 {
        Some(strip_trailing(ws[2], '{'))
    } else {
        None
    }
}

/// The declaration a line contributes, if any.
pub open spec fn line_decl(l: Seq<char>) -> Option<(Seq<char>, DeclKind)> {
    let t = trim_of(l);
    if is_visibility_line(t) {
        if has_method_marker(t) {
            match spec_function_name(t) {
                Some(nm) => Some((nm, DeclKind::Function)),
                None => None,
            }
        } else if match_at(t, "public class "@, 0) || match_at(t, "public interface "@, 0) {
            match spec_class_name(t) {
                Some(nm) => Some((nm, DeclKind::Type)),
                None => None,
            }
        } else {
            None
        }
    } else {
        None
    }
}

/// The declarations of the first `n` lines, as a name-to-kind map.
pub open spec fn decl_map(lines: Seq<Seq<char>>, n: int) -> Map<Seq<char>, DeclKind>
    decreases n,
{
    if n <= 0 {
        Map::empty()
    } else {
        match line_decl(lines[n - 1]) {
            Some(d) => decl_map(lines, n - 1).insert(d.0, d.1),
            None => decl_map(lines, n - 1),
        }
    }
}

/// The declaration map of a whole source text.
pub open spec fn spec_decls(s: Seq<char>) -> Map<Seq<char>, DeclKind> {
    decl_map(spec_lines(s), spec_lines(s).len() as int)
}

fn extract_function_name(t: &str) -> (r: Option<String>)
    ensures
        match r {
            Some(nm) => spec_function_name(t@) == Some(nm@),
            None => spec_function_name(t@) is None,
        },
{
    let tv = to_chars(t);
    let paren = to_chars("(");
    match crate::text::find_from(&tv, &paren, 0) {
        Some(p) => {
            proof {
                crate::text::lemma_find_props(tv@, "("@, 0);
            }
            let before = t.substring_char(0, p);
            let bv = to_chars(before);
            proof {
                assert(before@ =~= t@.take(p as int));
            }
            find_last_word(before, &bv)
        },
        None => None,
    }
}

fn extract_class_name(t: &str) -> (r: Option<String>)
    ensures
        match r {
            Some(nm) => spec_class_name(t@) == Some(nm@),
            None => spec_class_name(t@) is None,
        },
{
    let tv = to_chars(t);
    let words = split_words(t, &tv);
    if words.len() > 2 {
        proof {
            assert(words@.map(|_k: int, w: String| w@)[2] == words@[2]@);
        }
        Some(trim_end_char(words[2].as_str(), '{'))
    } else {
        None
    }
}

/// Collect the declarations of a source text, later lines winning on a
/// name collision.
fn extract_declarations(content: &str) -> (r: Assoc<DeclKind>)
    ensures
        r.wf(),
        r.m() == spec_decls(content@),
{
    let v = crate::text::to_chars(content);
    let lines = lines_of(content, &v);
    let ghost lv = lines@.map(|_k: int, l: String| l@);
    let mut r: Assoc<DeclKind> = Assoc::new();
    let n = lines.len();
    let mut i: usize = 0;
    while i < n
        invariant
            i <= n,
            n == lines@.len(),
            lv == lines@.map(|_k: int, l: String| l@),
            r.wf(),
            r.m() == decl_map(lv, i as int),
        decreases n - i,
    {
        let line = &lines[i];
        let line_v = to_chars(line.as_str());
        let t = trim_str(line.as_str(), &line_v);
        let ghost tg = trim_of(lv[i as int]);
        proof {
            assert(t@ == tg);
        }
        if has_prefix(t.as_str(), "public ") || has_prefix(t.as_str(), "private ") || has_prefix(
            t.as_str(),
            "protected ",
        ) {
            let tv2 = to_chars(t.as_str());
            if crate::text::contains_str(t.as_str(), &tv2, "void ") || crate::text::contains_str(
                t.as_str(),
                &tv2,
                "String ",
            ) || crate::text::contains_str(t.as_str(), &tv2, "int ") {
                match extract_function_name(t.as_str()) {
                    Some(nm) => {
                        r.set(nm.as_str(), DeclKind::Function);
                    },
                    None => {},
                }
            } else if has_prefix(t.as_str(), "public class ") || has_prefix(
                t.as_str(),
                "public interface ",
            ) {
                match extract_class_name(t.as_str()) {
                    Some(nm) => {
                        r.set(nm.as_str(), DeclKind::Type);
                    },
                    None => {},
                }
            }
        }
        i += 1;
    }
    proof {
        assert(r.m() == spec_decls(content@));
    }
    r
}

// ─── declaration diff ──────────────────────────────────────────────────────

/// The text a declaration kind prints as.
pub open spec fn spec_kind_label(k: DeclKind) -> Seq<char> {
    match k {
        DeclKind::Function => "Function"@,
        DeclKind::Type => "Type"@,
        DeclKind::Constant => "Constant"@,
        DeclKind::Import => "Import"@,
        DeclKind::Module => "Module"@,
        DeclKind::Field => "Field"@,
    }
}

fn kind_label(k: DeclKind) -> (r: &'static str)
    ensures
        r@ == spec_kind_label(k),
{
    match k {
        DeclKind::Function => "Function",
        DeclKind::Type => "Type",
        DeclKind::Constant => "Constant",
        DeclKind::Import => "Import",
        DeclKind::Module => "Module",
        DeclKind::Field => "Field",
    }
}

/// A delta this differ may emit, judged against the two declaration maps.
pub open spec fn java_delta_ok(
    d: Delta,
    om: Map<Seq<char>, DeclKind>,
    nm: Map<Seq<char>, DeclKind>,
) -> bool {
    match d {
        Delta::Declaration { kind, name, change } => match change {
            Change::Removed => om.contains_key(name@) && !nm.contains_key(name@) && kind
                == om[name@],
            Change::Added => nm.contains_key(name@) && !om.contains_key(name@) && kind
                == nm[name@],
            Change::Modified { from, to } => om.contains_key(name@) && nm.contains_key(name@)
                && om[name@] != nm[name@] && kind == nm[name@] && from@ == spec_kind_label(
                om[name@],
            ) && to@ == spec_kind_label(nm[name@]),
        },
        _ => false,
    }
}

/// The name a declaration delta carries.
pub open spec fn java_name_of(d: Delta) -> Seq<char> {
    match d {
        Delta::Declaration { kind, name, change } => name@,
        _ => Seq::empty(),
    }
}

/// The declaration-diff contract: every delta is sound against the two
/// declaration maps, there is exactly one per name, and every difference
/// between the maps is reported.
pub open spec fn java_diff_ok(ds: Seq<Delta>, old_text: Seq<char>, new_text: Seq<char>) -> bool {
    let om = spec_decls(old_text);
    let nm = spec_decls(new_text);
    &&& forall|k: int| 0 <= k < ds.len() ==> java_delta_ok(#[trigger] ds[k], om, nm)
    &&& forall|k1: int, k2: int|
        0 <= k1 < k2 < ds.len() ==> java_name_of(#[trigger] ds[k1]) != java_name_of(
            #[trigger] ds[k2],
        )
    &&& forall|name: Seq<char>|
        #![trigger names_delta(ds, name)]
        (om.contains_key(name) && !nm.contains_key(name) ==> names_delta(ds, name))
    &&& forall|name: Seq<char>|
        #![trigger names_delta(ds, name)]
        (nm.contains_key(name) && (!om.contains_key(name) || om[name] != nm[name]) ==> names_delta(
            ds,
            name,
        ))
}

/// Diff two source files at declaration level: exactly one delta per
/// removed, added or kind-modified declaration, judged by the
/// visibility-line scan, in no promised order. Never fails.
pub fn diff_java(old_content: &str, new_content: &str, _file_path: &str) -> (r: Result<
    DeltaList,
    String,
>)
    ensures
        match r {
            Ok(dl) => java_diff_ok(dl.deltas@, old_content@, new_content@),
            Err(_) => false,
        },
{
    let old_tbl = extract_declarations(old_content);
    let new_tbl = extract_declarations(new_content);
    let ghost om = old_tbl.m();
    let ghost nm = new_tbl.m();
    let mut deltas = DeltaList::new();

    // removed declarations
    let no = old_tbl.pairs.len();
    let mut i: usize = 0;
    while i < no
        invariant
            i <= no,
            no == old_tbl.pseq().len(),
            old_tbl.wf(),
            new_tbl.wf(),
            om == old_tbl.m(),
            nm == new_tbl.m(),
            forall|k: int|
                0 <= k < deltas.deltas@.len() ==> java_delta_ok(#[trigger] deltas.deltas@[k], om, nm),
            forall|k: int|
                #![trigger deltas.deltas@[k]]
                0 <= k < deltas.deltas@.len() ==> !nm.contains_key(java_name_of(deltas.deltas@[k]))
                    && exists|x: int|
                    0 <= x < i && (#[trigger] old_tbl.pseq()[x]).0 == java_name_of(
                        deltas.deltas@[k],
                    ),
            forall|k1: int, k2: int|
                0 <= k1 < k2 < deltas.deltas@.len() ==> java_name_of(#[trigger] deltas.deltas@[k1])
                    != java_name_of(#[trigger] deltas.deltas@[k2]),
            forall|name: Seq<char>|
                #![trigger names_delta(deltas.deltas@, name)]
                ((exists|x: int| 0 <= x < i && (#[trigger] old_tbl.pseq()[x]).0 == name)
                    && !nm.contains_key(name) ==> names_delta(deltas.deltas@, name)),
        decreases no - i,
    {
        proof {
            old_tbl.lemma_pairs(i as int);
        }
        let name = &old_tbl.pairs[i].0;
        let kind = old_tbl.pairs[i].1;
        if !new_tbl.contains(name.as_str()) {
            let ghost before = deltas.deltas@;
            deltas.add(
                Delta::Declaration { kind, name: name.clone(), change: Change::Removed },
            );
            proof {
                assert(is_decl_named(deltas.deltas@.last(), name@));
                assert(deltas.deltas@ =~= before.push(deltas.deltas@.last()));
                assert(java_name_of(deltas.deltas@.last()) == name@);
                assert forall|k: int|
                    #![trigger deltas.deltas@[k]]
                    0 <= k < deltas.deltas@.len() implies !nm.contains_key(
                    java_name_of(deltas.deltas@[k]),
                ) && exists|x: int|
                    0 <= x < i + 1 && (#[trigger] old_tbl.pseq()[x]).0 == java_name_of(
                        deltas.deltas@[k],
                    ) by {
                    if k == deltas.deltas@.len() - 1 {
                        assert(old_tbl.pseq()[i as int].0 == java_name_of(deltas.deltas@[k]));
                    } else {
                        assert(deltas.deltas@[k] == before[k]);
                        let x = choose|x: int|
                            0 <= x < i && (#[trigger] old_tbl.pseq()[x]).0 == java_name_of(
                                before[k],
                            );
                        assert(old_tbl.pseq()[x].0 == java_name_of(deltas.deltas@[k]));
                    }
                }
                assert forall|k1: int, k2: int|
                    0 <= k1 < k2 < deltas.deltas@.len() implies java_name_of(
                    #[trigger] deltas.deltas@[k1],
                ) != java_name_of(#[trigger] deltas.deltas@[k2]) by {
                    assert(deltas.deltas@[k1] == before[k1]);
                    if k2 == deltas.deltas@.len() - 1 {
                        let x = choose|x: int|
                            0 <= x < i && (#[trigger] old_tbl.pseq()[x]).0 == java_name_of(
                                before[k1],
                            );
                        assert(old_tbl.pseq()[x].0 != old_tbl.pseq()[i as int].0);
                    } else {
                        assert(deltas.deltas@[k2] == before[k2]);
                    }
                }
                assert forall|nm2: Seq<char>|
                    #![trigger names_delta(deltas.deltas@, nm2)]
                    ((exists|x: int| 0 <= x < i + 1 && (#[trigger] old_tbl.pseq()[x]).0 == nm2)
                        && !nm.contains_key(nm2)) implies names_delta(deltas.deltas@, nm2) by {
                    lemma_names_delta_push(before, deltas.deltas@.last(), nm2);
                    if nm2 != name@ {
                        let x = choose|x: int|
                            0 <= x < i + 1 && (#[trigger] old_tbl.pseq()[x]).0 == nm2;
                        assert(0 <= x < i && old_tbl.pseq()[x].0 == nm2);
                        assert(names_delta(before, nm2));
                    }
                }
            }
        } else {
            proof {
                assert forall|nm2: Seq<char>|
                    #![trigger names_delta(deltas.deltas@, nm2)]
                    ((exists|x: int| 0 <= x < i + 1 && (#[trigger] old_tbl.pseq()[x]).0 == nm2)
                        && !nm.contains_key(nm2)) implies names_delta(deltas.deltas@, nm2) by {
                    let x = choose|x: int|
                        0 <= x < i + 1 && (#[trigger] old_tbl.pseq()[x]).0 == nm2;
                    assert(0 <= x < i && old_tbl.pseq()[x].0 == nm2);
                }
            }
        }
        i += 1;
    }

    proof {
        assert forall|name: Seq<char>|
            #![trigger names_delta(deltas.deltas@, name)]
            om.contains_key(name) && !nm.contains_key(name) implies names_delta(
            deltas.deltas@,
            name,
        ) by {
            crate::assoc::lemma_amap_contains(old_tbl.pseq(), name);
        }
    }

    // added and kind-modified declarations
    let nn = new_tbl.pairs.len();
    let mut j: usize = 0;
    while j < nn
        invariant
            j <= nn,
            nn == new_tbl.pseq().len(),
            old_tbl.wf(),
            new_tbl.wf(),
            om == old_tbl.m(),
            nm == new_tbl.m(),
            forall|k: int|
                0 <= k < deltas.deltas@.len() ==> java_delta_ok(#[trigger] deltas.deltas@[k], om, nm),
            forall|k: int|
                #![trigger deltas.deltas@[k]]
                0 <= k < deltas.deltas@.len() ==> (!nm.contains_key(
                    java_name_of(deltas.deltas@[k]),
                ) || exists|x: int|
                    0 <= x < j && (#[trigger] new_tbl.pseq()[x]).0 == java_name_of(
                        deltas.deltas@[k],
                    )),
            forall|k1: int, k2: int|
                0 <= k1 < k2 < deltas.deltas@.len() ==> java_name_of(#[trigger] deltas.deltas@[k1])
                    != java_name_of(#[trigger] deltas.deltas@[k2]),
            forall|name: Seq<char>|
                #![trigger names_delta(deltas.deltas@, name)]
                (om.contains_key(name) && !nm.contains_key(name) ==> names_delta(deltas.deltas@, name)),
            forall|name: Seq<char>|
                #![trigger names_delta(deltas.deltas@, name)]
                ((exists|x: int| 0 <= x < j && (#[trigger] new_tbl.pseq()[x]).0 == name)
                    && (!om.contains_key(name) || om[name] != nm[name]) ==> names_delta(deltas.deltas@, name)),
        decreases nn - j,
    {
        proof {
            new_tbl.lemma_pairs(j as int);
        }
        let name = &new_tbl.pairs[j].0;
        let kind = new_tbl.pairs[j].1;
        let ghost before = deltas.deltas@;
        let mut emitted = false;
        match old_tbl.get(name.as_str()) {
            Some(old_kind) => {
                if !kind_eq(old_kind, kind) {
                    deltas.add(
                        Delta::Declaration {
                            kind,
                            name: name.clone(),
                            change: Change::Modified {
                                from: kind_label(old_kind).to_owned(),
                                to: kind_label(kind).to_owned(),
                            },
                        },
                    );
                    emitted = true;
                }
            },
            None => {
                deltas.add(
                    Delta::Declaration { kind, name: name.clone(), change: Change::Added },
                );
                emitted = true;
            },
        }
        proof {
            if emitted {
                assert(is_decl_named(deltas.deltas@.last(), name@));
                assert(deltas.deltas@ =~= before.push(deltas.deltas@.last()));
                assert(java_name_of(deltas.deltas@.last()) == name@);
            } else {
                assert(deltas.deltas@ == before);
            }
            assert forall|k: int|
                #![trigger deltas.deltas@[k]]
                0 <= k < deltas.deltas@.len() implies (!nm.contains_key(
                java_name_of(deltas.deltas@[k]),
            ) || exists|x: int|
                0 <= x < j + 1 && (#[trigger] new_tbl.pseq()[x]).0 == java_name_of(
                    deltas.deltas@[k],
                )) by {
                if emitted && k == deltas.deltas@.len() - 1 {
                    assert(new_tbl.pseq()[j as int].0 == java_name_of(deltas.deltas@[k]));
                } else {
                    assert(deltas.deltas@[k] == before[k]);
                    if nm.contains_key(java_name_of(before[k])) {
                        let x = choose|x: int|
                            0 <= x < j && (#[trigger] new_tbl.pseq()[x]).0 == java_name_of(
                                before[k],
                            );
                        assert(new_tbl.pseq()[x].0 == java_name_of(deltas.deltas@[k]));
                    }
                }
            }
            assert forall|k1: int, k2: int|
                0 <= k1 < k2 < deltas.deltas@.len() implies java_name_of(
                #[trigger] deltas.deltas@[k1],
            ) != java_name_of(#[trigger] deltas.deltas@[k2]) by {
                assert(deltas.deltas@[k1] == before[k1]);
                if emitted && k2 == deltas.deltas@.len() - 1 {
                    assert(java_name_of(deltas.deltas@[k2]) == name@);
                    assert(nm.contains_key(name@));
                    if nm.contains_key(java_name_of(before[k1])) {
                        let x = choose|x: int|
                            0 <= x < j && (#[trigger] new_tbl.pseq()[x]).0 == java_name_of(
                                before[k1],
                            );
                        assert(new_tbl.pseq()[x].0 != new_tbl.pseq()[j as int].0);
                    }
                } else {
                    assert(deltas.deltas@[k2] == before[k2]);
                }
            }
            assert forall|nm2: Seq<char>|
                #![trigger names_delta(deltas.deltas@, nm2)]
                om.contains_key(nm2) && !nm.contains_key(nm2) implies names_delta(deltas.deltas@, nm2) by {
                assert(names_delta(before, nm2));
                if emitted {
                    lemma_names_delta_push(before, deltas.deltas@.last(), nm2);
                }
            }
            assert forall|nm2: Seq<char>|
                #![trigger names_delta(deltas.deltas@, nm2)]
                ((exists|x: int| 0 <= x < j + 1 && (#[trigger] new_tbl.pseq()[x]).0 == nm2) && (
                !om.contains_key(nm2) || om[nm2] != nm[nm2])) implies names_delta(deltas.deltas@, nm2) by {
                if emitted {
                    lemma_names_delta_push(before, deltas.deltas@.last(), nm2);
                }
                if nm2 != name@ {
                    let x = choose|x: int|
                        0 <= x < j + 1 && (#[trigger] new_tbl.pseq()[x]).0 == nm2;
                    assert(new_tbl.pseq()[j as int].0 == name@);
                    assert(0 <= x < j && new_tbl.pseq()[x].0 == nm2);
                    assert(names_delta(before, nm2));
                } else {
                    assert(emitted || (om.contains_key(name@) && om[name@] == nm[name@]));
                }
            }
        }
        j += 1;
    }
    proof {
        assert forall|name: Seq<char>|
            #![trigger names_delta(deltas.deltas@, name)]
            nm.contains_key(name) && (!om.contains_key(name) || om[name] != nm[name]) implies names_delta(
            deltas.deltas@,
            name,
        ) by {
            crate::assoc::lemma_amap_contains(new_tbl.pseq(), name);
        }
    }
    Ok(deltas)
}

/// The delta names this declaration.
pub open spec fn is_decl_named(d: Delta, name: Seq<char>) -> bool {
    match d {
        Delta::Declaration { kind, name: n, change } => n@ == name,
        _ => false,
    }
}

/// Some delta in the list names this declaration.
pub open spec fn names_delta(ds: Seq<Delta>, name: Seq<char>) -> bool {
    exists|k: int| 0 <= k < ds.len() && is_decl_named(#[trigger] ds[k], name)
}

/// Appending a delta keeps every named declaration named.
pub proof fn lemma_names_delta_push(ds: Seq<Delta>, d: Delta, name: Seq<char>)
    ensures
        names_delta(ds, name) ==> names_delta(ds.push(d), name),
        is_decl_named(d, name) ==> names_delta(ds.push(d), name),
{
    if names_delta(ds, name) {
        let k = choose|k: int| 0 <= k < ds.len() && is_decl_named(#[trigger] ds[k], name);
        assert(is_decl_named(ds.push(d)[k], name));
    }
    if is_decl_named(d, name) {
        assert(is_decl_named(ds.push(d)[ds.len() as int], name));
    }
}

// ─── manifest diff ─────────────────────────────────────────────────────────

/// The `[dependencies]` entries of a manifest text: name, string form of
/// the value (when it is a string), and the value's printed representation.
/// A text that does not parse contributes the empty table.
pub open spec fn toml_deps_of(s: Seq<char>) -> Seq<(Seq<char>, Option<Seq<char>>, Seq<char>)> {
    match crate::manifest_diff::toml_section_entries_of(s, "dependencies"@, "version"@) {
        Some(es) => es.map(
            |_k: int, e: (Seq<char>, Option<Seq<char>>, bool, Option<Seq<char>>, Seq<char>)|
                (e.0, e.1, e.4),
        ),
        None => seq![],
    }
}

/// Collect the `[dependencies]` entries; agrees with `toml_deps_of`.
fn toml_dependencies(content: &str) -> (r: Vec<(String, Option<String>, String)>)
    ensures
        r@.map(
            |_k: int, p: (String, Option<String>, String)|
                (
                    p.0@,
                    match p.1 {
                        Some(x) => Some(x@),
                        None => None,
                    },
                    p.2@,
                ),
        ) == toml_deps_of(content@),
{
    let ghost dv = toml_deps_of(content@);
    match crate::manifest_diff::toml_section_entries(content, "dependencies", "version") {
        None => {
            let r: Vec<(String, Option<String>, String)> = Vec::new();
            proof {
                assert(r@.map(
                    |_k: int, p: (String, Option<String>, String)|
                        (
                            p.0@,
                            match p.1 {
                                Some(x) => Some(x@),
                                None => None,
                            },
                            p.2@,
                        ),
                ) =~= dv);
            }
            r
        },
        Some(entries) => {
            let ghost ev = entries@.map(
                |_k: int, e: (String, Option<String>, bool, Option<String>, String)|
                    (
                        e.0@,
                        match e.1 {
                            Some(x) => Some(x@),
                            None => None,
                        },
                        e.2,
                        match e.3 {
                            Some(x) => Some(x@),
                            None => None,
                        },
                        e.4@,
                    ),
            );
            proof {
                assert(dv == ev.map(
                    |_k: int, e: (
                        Seq<char>,
                        Option<Seq<char>>,
                        bool,
                        Option<Seq<char>>,
                        Seq<char>,
                    )| (e.0, e.1, e.4),
                ));
            }
            let mut r: Vec<(String, Option<String>, String)> = Vec::new();
            let n = entries.len();
            let mut i: usize = 0;
            while i < n
                invariant
                    i <= n,
                    n == entries@.len(),
                    ev == entries@.map(
                        |_k: int, e: (String, Option<String>, bool, Option<String>, String)|
                            (
                                e.0@,
                                match e.1 {
                                    Some(x) => Some(x@),
                                    None => None,
                                },
                                e.2,
                                match e.3 {
                                    Some(x) => Some(x@),
                                    None => None,
                                },
                                e.4@,
                            ),
                    ),
                    dv == ev.map(
                        |_k: int, e: (
                            Seq<char>,
                            Option<Seq<char>>,
                            bool,
                            Option<Seq<char>>,
                            Seq<char>,
                        )| (e.0, e.1, e.4),
                    ),
                    r@.map(
                        |_k: int, p: (String, Option<String>, String)|
                            (
                                p.0@,
                                match p.1 {
                                    Some(x) => Some(x@),
                                    None => None,
                                },
                                p.2@,
                            ),
                    ) == dv.take(i as int),
                decreases n - i,
            {
                proof {
                    assert(ev[i as int] == (
                        entries@[i as int].0@,
                        match entries@[i as int].1 {
                            Some(x) => Some(x@),
                            None => None,
                        },
                        entries@[i as int].2,
                        match entries@[i as int].3 {
                            Some(x) => Some(x@),
                            None => None,
                        },
                        entries@[i as int].4@,
                    ));
                    assert(dv[i as int] == (ev[i as int].0, ev[i as int].1, ev[i as int].4));
                    assert(dv.take(i + 1 as int).drop_last() =~= dv.take(i as int));
                    assert(dv.take(i + 1 as int).last() == dv[i as int]);
                }
                let name = entries[i].0.clone();
                let sval = match &entries[i].1 {
                    Some(x) => Some(x.clone()),
                    None => None,
                };
                let ghost pre = r@.map(
                    |_k: int, p: (String, Option<String>, String)|
                        (
                            p.0@,
                            match p.1 {
                                Some(x) => Some(x@),
                                None => None,
                            },
                            p.2@,
                        ),
                );
                r.push((name, sval, entries[i].4.clone()));
                proof {
                    assert(r@.map(
                        |_k: int, p: (String, Option<String>, String)|
                            (
                                p.0@,
                                match p.1 {
                                    Some(x) => Some(x@),
                                    None => None,
                                },
                                p.2@,
                            ),
                    ) =~= pre.push(dv[i as int]));
                    assert(pre.push(dv[i as int]) =~= dv.take(i + 1 as int));
                }
                i += 1;
            }
            proof {
                assert(dv.take(n as int) =~= dv);
            }
            r
        },
    }
}

/// First entry under `name`, as (string form, printed representation).
pub open spec fn dep_lookup(
    l: Seq<(Seq<char>, Option<Seq<char>>, Seq<char>)>,
    name: Seq<char>,
) -> Option<(Option<Seq<char>>, Seq<char>)>
    decreases l.len(),
{
    if l.len() == 0 {
        None
    } else if l[0].0 == name {
        Some((l[0].1, l[0].2))
    } else {
        dep_lookup(l.drop_first(), name)
    }
}

/// The leading version component, up to the first dot.
pub open spec fn major_of(v: Seq<char>) -> Seq<char> {
    match spec_find(v, "."@, 0) {
        Some(p) => v.take(p),
        None => v,
    }
}

/// The string form of a value, or the fallback.
pub open spec fn sval_or(v: Option<Seq<char>>, dflt: Seq<char>) -> Seq<char> {
    match v {
        Some(x) => x,
        None => dflt,
    }
}

/// A dependency delta is sound: the name occurs in both manifests with
/// different printed values, the versions are the string forms (or
/// "unknown"), and breaking means the leading components (of the string
/// forms or "") differ.
pub open spec fn toml_delta_ok(
    d: Delta,
    ol: Seq<(Seq<char>, Option<Seq<char>>, Seq<char>)>,
    nl: Seq<(Seq<char>, Option<Seq<char>>, Seq<char>)>,
) -> bool {
    match d {
        Delta::Dependency { name, from, to, breaking } => {
            match (dep_lookup(ol, name@), dep_lookup(nl, name@)) {
                (Some(o), Some(n)) => {
                    &&& o.1 != n.1
                    &&& from@ == sval_or(o.0, "unknown"@)
                    &&& to@ == sval_or(n.0, "unknown"@)
                    &&& breaking == (major_of(sval_or(o.0, ""@)) != major_of(sval_or(n.0, ""@)))
                },
                _ => false,
            }
        },
        _ => false,
    }
}

/// Some delta is a dependency delta for this name.
pub open spec fn dep_named(ds: Seq<Delta>, name: Seq<char>) -> bool {
    exists|k: int|
        0 <= k < ds.len() && match #[trigger] ds[k] {
            Delta::Dependency { name: n, from, to, breaking } => n@ == name,
            _ => false,
        }
}

proof fn lemma_dep_named_push(ds: Seq<Delta>, d: Delta, name: Seq<char>)
    ensures
        dep_named(ds, name) ==> dep_named(ds.push(d), name),
        (match d {
            Delta::Dependency { name: n, from, to, breaking } => n@ == name,
            _ => false,
        }) ==> dep_named(ds.push(d), name),
{
    if dep_named(ds, name) {
        let k = choose|k: int|
            0 <= k < ds.len() && match #[trigger] ds[k] {
                Delta::Dependency { name: n, from, to, breaking } => n@ == name,
                _ => false,
            };
        assert(ds.push(d)[k] == ds[k]);
    }
    assert(ds.push(d)[ds.len() as int] == d);
}

/// The manifest-diff contract: sound deltas, and a delta for every name
/// whose printed value changed.
pub open spec fn toml_diff_ok(ds: Seq<Delta>, old_text: Seq<char>, new_text: Seq<char>) -> bool {
    let ol = toml_deps_of(old_text);
    let nl = toml_deps_of(new_text);
    &&& forall|k: int| 0 <= k < ds.len() ==> toml_delta_ok(#[trigger] ds[k], ol, nl)
    &&& forall|j: int|
        0 <= j < nl.len() ==> (match (dep_lookup(ol, (#[trigger] nl[j]).0), dep_lookup(
            nl,
            nl[j].0,
        )) {
            (Some(o), Some(n)) => o.1 != n.1 ==> dep_named(ds, nl[j].0),
            _ => true,
        })
}

/// First entry under `name`; agrees with `dep_lookup`.
fn dep_find(l: &Vec<(String, Option<String>, String)>, name: &str) -> (r: Option<
    (Option<String>, String),
>)
    ensures
        ({
            let lv = l@.map(
                |_k: int, p: (String, Option<String>, String)|
                    (
                        p.0@,
                        match p.1 {
                            Some(x) => Some(x@),
                            None => None,
                        },
                        p.2@,
                    ),
            );
            match r {
                Some(p) => dep_lookup(lv, name@) == Some(
                    (
                        match p.0 {
                            Some(x) => Some(x@),
                            None => None,
                        },
                        p.1@,
                    ),
                ),
                None => dep_lookup(lv, name@) is None,
            }
        }),
{
    let ghost lv = l@.map(
        |_k: int, p: (String, Option<String>, String)|
            (
                p.0@,
                match p.1 {
                    Some(x) => Some(x@),
                    None => None,
                },
                p.2@,
            ),
    );
    let n = l.len();
    proof {
        assert(lv.skip(0) =~= lv);
    }
    let mut i: usize = 0;
    while i < n
        invariant
            i <= n,
            n == l@.len(),
            lv == l@.map(
                |_k: int, p: (String, Option<String>, String)|
                    (
                        p.0@,
                        match p.1 {
                            Some(x) => Some(x@),
                            None => None,
                        },
                        p.2@,
                    ),
            ),
            dep_lookup(lv, name@) == dep_lookup(lv.skip(i as int), name@),
        decreases n - i,
    {
        proof {
            assert(lv.skip(i as int)[0] == lv[i as int]);
            assert(lv.skip(i as int).drop_first() =~= lv.skip(i + 1 as int));
        }
        if crate::text::str_eq(l[i].0.as_str(), name) {
            let sval = match &l[i].1 {
                Some(x) => Some(x.clone()),
                None => None,
            };
            return Some((sval, l[i].2.clone()));
        }
        i += 1;
    }
    proof {
        assert(lv.skip(n as int).len() == 0);
    }
    None
}

fn major_part(v: &str) -> (r: String)
    ensures
        r@ == major_of(v@),
{
    let vv = to_chars(v);
    let dot = to_chars(".");
    match crate::text::find_from(&vv, &dot, 0) {
        Some(p) => {
            proof {
                crate::text::lemma_find_props(vv@, "."@, 0);
            }
            let t = v.substring_char(0, p).to_owned();
            proof {
                assert(t@ =~= major_of(v@));
            }
            t
        },
        None => v.to_owned(),
    }
}

/// Diff the `[dependencies]` tables of two manifest texts: one dependency
/// delta per name whose printed value changed, with a breaking flag when
/// the leading version component changed. Never fails.
pub fn diff_toml(old_content: &str, new_content: &str) -> (r: Result<DeltaList, String>)
    ensures
        match r {
            Ok(dl) => toml_diff_ok(dl.deltas@, old_content@, new_content@),
            Err(_) => false,
        },
{
    let ol_list = toml_dependencies(old_content);
    let nl_list = toml_dependencies(new_content);
    let ghost ol = toml_deps_of(old_content@);
    let ghost nl = toml_deps_of(new_content@);
    let mut deltas = DeltaList::new();
    let n = nl_list.len();
    let mut j: usize = 0;
    while j < n
        invariant
            j <= n,
            n == nl_list@.len(),
            ol == toml_deps_of(old_content@),
            nl == nl_list@.map(
                |_k: int, p: (String, Option<String>, String)|
                    (
                        p.0@,
                        match p.1 {
                            Some(x) => Some(x@),
                            None => None,
                        },
                        p.2@,
                    ),
            ),
            nl == toml_deps_of(new_content@),
            forall|k: int| 0 <= k < deltas.deltas@.len() ==> toml_delta_ok(#[trigger] deltas.deltas@[k], ol, nl),
            forall|j2: int|
                #![trigger nl[j2]]
                0 <= j2 < j ==> (match (dep_lookup(ol, nl[j2].0), dep_lookup(nl, nl[j2].0)) {
                    (Some(o), Some(n2)) => o.1 != n2.1 ==> dep_named(deltas.deltas@, nl[j2].0),
                    _ => true,
                }),
        decreases n - j,
    {
        let name = &nl_list[j].0;
        let ghost before = deltas.deltas@;
        let mut emitted = false;
        match dep_find(&ol_list, name.as_str()) {
            Some((old_sval, old_repr)) => {
                match dep_find(&nl_list, name.as_str()) {
                    Some((new_sval, new_repr)) => {
                        if !crate::text::str_eq(old_repr.as_str(), new_repr.as_str()) {
                            let from = match &old_sval {
                                Some(x) => x.clone(),
                                None => "unknown".to_owned(),
                            };
                            let to = match &new_sval {
                                Some(x) => x.clone(),
                                None => "unknown".to_owned(),
                            };
                            let ofs = match &old_sval {
                                Some(x) => x.clone(),
                                None => "".to_owned(),
                            };
                            let nfs = match &new_sval {
                                Some(x) => x.clone(),
                                None => "".to_owned(),
                            };
                            let breaking = !crate::text::str_eq(
                                major_part(ofs.as_str()).as_str(),
                                major_part(nfs.as_str()).as_str(),
                            );
                            deltas.add(
                                Delta::Dependency { name: name.clone(), from, to, breaking },
                            );
                            emitted = true;
                        }
                    },
                    None => {},
                }
            },
            None => {},
        }
        proof {
            if emitted {
                assert(deltas.deltas@ =~= before.push(deltas.deltas@.last()));
            } else {
                assert(deltas.deltas@ == before);
            }
            assert forall|j2: int|
                #![trigger nl[j2]]
                0 <= j2 < j + 1 implies (match (dep_lookup(ol, nl[j2].0), dep_lookup(
                nl,
                nl[j2].0,
            )) {
                (Some(o), Some(n2)) => o.1 != n2.1 ==> dep_named(deltas.deltas@, nl[j2].0),
                _ => true,
            }) by {
                if emitted {
                    lemma_dep_named_push(before, deltas.deltas@.last(), nl[j2].0);
                }
            }
        }
        j += 1;
    }
    Ok(deltas)
}

// ─── rules diff ────────────────────────────────────────────────────────────

/// A section heading with its repeated markers removed.
pub open spec fn strip_heading(s: Seq<char>) -> Seq<char>
    decreases s.len()
        via strip_heading_dec
{
    if match_at(s, "## "@, 0) {
        strip_heading(s.skip(3))
    } else {
        s
    }
}

#[via_fn]
proof fn strip_heading_dec(s: Seq<char>) {
    reveal_strlit("## ");
}

fn strip_heading_str(s: &str) -> (r: String)
    ensures
        r@ == strip_heading(s@),
{
    let v = to_chars(s);
    let hh = to_chars("## ");
    proof {
        reveal_strlit("## ");
    }
    let n = v.len();
    proof {
        assert(s@.skip(0) =~= s@);
    }
    let mut i: usize = 0;
    while n - i >= 3 && is_match(&v, &hh, i)
        invariant
            i <= n,
            n == v@.len(),
            hh@ == "## "@,
            strip_heading(s@) == strip_heading(s@.skip(i as int)),
        decreases n - i,
    {
        proof {
            assert(s@.skip(i as int).subrange(0, 3) =~= s@.subrange(i as int, i + 3 as int));
            assert(s@.skip(i as int).skip(3) =~= s@.skip(i + 3 as int));
        }
        i += 3;
    }
    proof {
        if n - i >= 3 {
            assert(s@.skip(i as int).subrange(0, 3) =~= s@.subrange(i as int, i + 3 as int));
        }
        assert(strip_heading(s@.skip(i as int)) == s@.skip(i as int));
        assert(s@.skip(i as int) =~= s@.subrange(i as int, n as int));
    }
    s.substring_char(i, n).to_owned()
}

/// The (section, rule) pairs of a rules document: a `## ` line opens a
/// section (its heading markers stripped), and every later non-empty line
/// within a section contributes one pair.
pub open spec fn spr_pairs(lines: Seq<Seq<char>>, n: int) -> (Seq<char>, Seq<
    (Seq<char>, Seq<char>),
>)
    decreases n,
{
    if n <= 0 {
        (Seq::empty(), seq![])
    } else {
        let prev = spr_pairs(lines, n - 1);
        let l = lines[n - 1];
        if match_at(l, "## "@, 0) {
            (strip_heading(l), prev.1)
        } else if l.len() > 0 && prev.0.len() > 0 {
            (prev.0, prev.1.push((prev.0, l)))
        } else {
            prev
        }
    }
}

/// All (section, rule) pairs of a rules document.
pub open spec fn spec_spr(s: Seq<char>) -> Seq<(Seq<char>, Seq<char>)> {
    spr_pairs(spec_lines(s), spec_lines(s).len() as int).1
}

/// The pair occurs in the list.
pub open spec fn has_pair(l: Seq<(Seq<char>, Seq<char>)>, p: (Seq<char>, Seq<char>)) -> bool {
    exists|k: int| 0 <= k < l.len() && #[trigger] l[k] == p
}

/// Some delta is a rule delta for this pair.
pub open spec fn rule_named(ds: Seq<Delta>, p: (Seq<char>, Seq<char>)) -> bool {
    exists|k: int|
        0 <= k < ds.len() && match #[trigger] ds[k] {
            Delta::Rule { section, predicate, change } => section@ == p.0 && predicate@ == p.1,
            _ => false,
        }
}

proof fn lemma_rule_named_push(ds: Seq<Delta>, d: Delta, p: (Seq<char>, Seq<char>))
    ensures
        rule_named(ds, p) ==> rule_named(ds.push(d), p),
        (match d {
            Delta::Rule { section, predicate, change } => section@ == p.0 && predicate@ == p.1,
            _ => false,
        }) ==> rule_named(ds.push(d), p),
{
    if rule_named(ds, p) {
        let k = choose|k: int|
            0 <= k < ds.len() && match #[trigger] ds[k] {
                Delta::Rule { section, predicate, change } => section@ == p.0 && predicate@ == p.1,
                _ => false,
            };
        assert(ds.push(d)[k] == ds[k]);
    }
    assert(ds.push(d)[ds.len() as int] == d);
}

/// The rules-diff contract: every delta is an added rule of the new
/// document absent from the old one, and every such rule is reported.
pub open spec fn spr_diff_ok(ds: Seq<Delta>, old_text: Seq<char>, new_text: Seq<char>) -> bool {
    let op = spec_spr(old_text);
    let np = spec_spr(new_text);
    &&& forall|k: int|
        0 <= k < ds.len() ==> (match #[trigger] ds[k] {
            Delta::Rule { section, predicate, change } => {
                &&& has_pair(np, (section@, predicate@))
                &&& !has_pair(op, (section@, predicate@))
                &&& change == Change::Added
            },
            _ => false,
        })
    &&& forall|j: int|
        0 <= j < np.len() ==> (!has_pair(op, #[trigger] np[j]) ==> rule_named(ds, np[j]))
}

/// The (section, rule) pairs of a rules text.
fn spr_pair_list(content: &str) -> (r: Vec<(String, String)>)
    ensures
        r@.map(|_k: int, p: (String, String)| (p.0@, p.1@)) == spec_spr(content@),
{
    let v = to_chars(content);
    let lines = lines_of(content, &v);
    let ghost lv = lines@.map(|_k: int, l: String| l@);
    let mut section = "".to_owned();
    proof {
        reveal_strlit("");
        assert(section@ =~= Seq::<char>::empty());
    }
    let mut pairs: Vec<(String, String)> = Vec::new();
    let n = lines.len();
    let mut i: usize = 0;
    while i < n
        invariant
            i <= n,
            n == lines@.len(),
            lv == lines@.map(|_k: int, l: String| l@),
            section@ == spr_pairs(lv, i as int).0,
            pairs@.map(|_k: int, p: (String, String)| (p.0@, p.1@)) == spr_pairs(lv, i as int).1,
        decreases n - i,
    {
        let line = &lines[i];
        if crate::text::has_prefix(line.as_str(), "## ") {
            section = strip_heading_str(line.as_str());
        } else if !line.as_str().is_empty() && !section.as_str().is_empty() {
            pairs.push((section.clone(), line.clone()));
            proof {
                assert(pairs@.map(|_k: int, p: (String, String)| (p.0@, p.1@)) =~= spr_pairs(
                    lv,
                    i + 1 as int,
                ).1);
            }
        }
        i += 1;
    }
    pairs
}

/// Whether the pair occurs in a pair list; agrees with `has_pair`.
fn pair_in(l: &Vec<(String, String)>, a: &str, b: &str) -> (r: bool)
    ensures
        r == has_pair(l@.map(|_k: int, p: (String, String)| (p.0@, p.1@)), (a@, b@)),
{
    let ghost lv = l@.map(|_k: int, p: (String, String)| (p.0@, p.1@));
    let n = l.len();
    let mut i: usize = 0;
    while i < n
        invariant
            i <= n,
            n == l@.len(),
            lv == l@.map(|_k: int, p: (String, String)| (p.0@, p.1@)),
            forall|k: int| 0 <= k < i ==> #[trigger] lv[k] != (a@, b@),
        decreases n - i,
    {
        if crate::text::str_eq(l[i].0.as_str(), a) && crate::text::str_eq(l[i].1.as_str(), b) {
            assert(lv[i as int] == (a@, b@));
            return true;
        }
        i += 1;
    }
    false
}

/// Diff two rules documents: one added-rule delta for every (section, rule)
/// pair of the new document that the old one lacks. Never fails.
pub fn diff_spr(old_content: &str, new_content: &str) -> (r: Result<DeltaList, String>)
    ensures
        match r {
            Ok(dl) => spr_diff_ok(dl.deltas@, old_content@, new_content@),
            Err(_) => false,
        },
{
    let old_pairs = spr_pair_list(old_content);
    let new_pairs = spr_pair_list(new_content);
    let ghost op = spec_spr(old_content@);
    let ghost np = spec_spr(new_content@);
    let mut deltas = DeltaList::new();
    let n = new_pairs.len();
    let mut j: usize = 0;
    while j < n
        invariant
            j <= n,
            n == new_pairs@.len(),
            op == old_pairs@.map(|_k: int, p: (String, String)| (p.0@, p.1@)),
            np == new_pairs@.map(|_k: int, p: (String, String)| (p.0@, p.1@)),
            op == spec_spr(old_content@),
            np == spec_spr(new_content@),
            forall|k: int|
                0 <= k < deltas.deltas@.len() ==> (match #[trigger] deltas.deltas@[k] {
                    Delta::Rule { section, predicate, change } => {
                        &&& has_pair(np, (section@, predicate@))
                        &&& !has_pair(op, (section@, predicate@))
                        &&& change == Change::Added
                    },
                    _ => false,
                }),
            forall|j2: int|
                #![trigger np[j2]]
                0 <= j2 < j ==> (!has_pair(op, np[j2]) ==> rule_named(deltas.deltas@, np[j2])),
        decreases n - j,
    {
        let section = &new_pairs[j].0;
        let rule = &new_pairs[j].1;
        let ghost before = deltas.deltas@;
        let mut emitted = false;
        if !pair_in(&old_pairs, section.as_str(), rule.as_str()) {
            proof {
                assert(np[j as int] == (section@, rule@));
                assert(has_pair(np, (section@, rule@)));
            }
            deltas.add(
                Delta::Rule {
                    section: section.clone(),
                    predicate: rule.clone(),
                    change: Change::Added,
                },
            );
            emitted = true;
        }
        proof {
            if emitted {
                assert(deltas.deltas@ =~= before.push(deltas.deltas@.last()));
            } else {
                assert(deltas.deltas@ == before);
            }
            assert forall|j2: int|
                #![trigger np[j2]]
                0 <= j2 < j + 1 implies (!has_pair(op, np[j2]) ==> rule_named(
                deltas.deltas@,
                np[j2],
            )) by {
                if emitted {
                    lemma_rule_named_push(before, deltas.deltas@.last(), np[j2]);
                }
                if j2 == j && emitted {
                    assert(np[j as int] == (section@, rule@));
                }
            }
        }
        j += 1;
    }
    Ok(deltas)
}

// ─── dispatch ──────────────────────────────────────────────────────────────

/// The extension of a path: what follows the last dot of its last
/// component, absent when there is no dot or the name starts with it.
pub open spec fn ext_of(path: Seq<char>) -> Option<Seq<char>> {
    let nm = match spec_rfind(path, "/"@) {
        Some(p) => path.skip(p + 1),
        None => path,
    };
    match spec_rfind(nm, "."@) {
        Some(q) => if q > 0 {
            Some(nm.skip(q + 1))
        } else {
            None
        },
        None => None,
    }
}

fn extension(path: &str) -> (r: Option<String>)
    ensures
        match r {
            Some(e) => ext_of(path@) == Some(e@),
            None => ext_of(path@) is None,
        },
{
    let v = to_chars(path);
    let slash = to_chars("/");
    let dot = to_chars(".");
    proof {
        reveal_strlit("/");
        reveal_strlit(".");
        crate::text::lemma_rfind_props(path@, "/"@);
    }
    let n0 = v.len();
    let (name, nv) = match crate::text::rfind(&v, &slash) {
        Some(p) => {
            proof {
                assert(p + 1 <= path@.len());
            }
            let nm = path.substring_char(p + 1, n0);
            let nv = to_chars(nm);
            proof {
                assert(nm@ =~= path@.skip(p + 1 as int));
            }
            (nm, nv)
        },
        None => (path, v),
    };
    proof {
        crate::text::lemma_rfind_props(name@, "."@);
    }
    let n1 = nv.len();
    match crate::text::rfind(&nv, &dot) {
        Some(q) => {
            proof {
                assert(q + 1 <= name@.len());
            }
            if q > 0 {
                let e = name.substring_char(q + 1, n1).to_owned();
                proof {
                    assert(e@ =~= name@.skip(q + 1 as int));
                }
                Some(e)
            } else {
                None
            }
        },
        None => None,
    }
}

/// Dispatch a file diff by its extension: sources at declaration level,
/// manifests at dependency level, a rules document (recognised by its name)
/// at rule level, anything else to the empty delta list. Never fails.
pub fn diff_file(old_content: &str, new_content: &str, file_path: &str) -> (r: Result<
    DeltaList,
    String,
>)
    ensures
        match r {
            Ok(dl) => {
                &&& (ext_of(file_path@) == Some("java"@) ==> java_diff_ok(
                    dl.deltas@,
                    old_content@,
                    new_content@,
                ))
                &&& (ext_of(file_path@) == Some("toml"@) ==> toml_diff_ok(
                    dl.deltas@,
                    old_content@,
                    new_content@,
                ))
                &&& (ext_of(file_path@) == Some("md"@) && spec_find(file_path@, "GUIDE.md"@, 0)
                    is Some ==> spr_diff_ok(dl.deltas@, old_content@, new_content@))
                &&& ((match ext_of(file_path@) {
                    Some(e) => e != "java"@ && e != "toml"@ && (e != "md"@ || spec_find(
                        file_path@,
                        "GUIDE.md"@,
                        0,
                    ) is None),
                    None => true,
                }) ==> dl.deltas@.len() == 0)
            },
            Err(_) => false,
        },
{
    proof {
        reveal_strlit("java");
        reveal_strlit("toml");
        reveal_strlit("md");
    }
    let pv = to_chars(file_path);
    match extension(file_path) {
        Some(e) => {
            proof {
                assert(ext_of(file_path@) == Some(e@));
            }
            if crate::text::str_eq(e.as_str(), "java") {
                proof {
                    reveal_strlit("java");
                    reveal_strlit("toml");
                    reveal_strlit("md");
                    assert(e@ == "java"@);
                    assert("java"@[0] == 'j' && "toml"@[0] == 't' && "md"@.len() == 2);
                    assert(e@ != "toml"@ && e@ != "md"@);
                }
                diff_java(old_content, new_content, file_path)
            } else if crate::text::str_eq(e.as_str(), "toml") {
                proof {
                    reveal_strlit("java");
                    reveal_strlit("toml");
                    reveal_strlit("md");
                    assert("java"@[0] == 'j' && "toml"@[0] == 't' && "md"@.len() == 2);
                    assert(e@ == "toml"@ && e@ != "java"@ && e@ != "md"@);
                }
                diff_toml(old_content, new_content)
            } else if crate::text::str_eq(e.as_str(), "md") && crate::text::contains_str(
                file_path,
                &pv,
                "GUIDE.md",
            ) {
                proof {
                    reveal_strlit("java");
                    reveal_strlit("toml");
                    reveal_strlit("md");
                    assert("java"@.len() == 4 && "toml"@.len() == 4 && "md"@.len() == 2);
                    assert(e@ == "md"@ && e@ != "java"@ && e@ != "toml"@);
                    assert(spec_find(file_path@, "GUIDE.md"@, 0) is Some);
                }
                diff_spr(old_content, new_content)
            } else {
                proof {
                    assert(e@ != "java"@ && e@ != "toml"@);
                    assert(e@ != "md"@ || spec_find(file_path@, "GUIDE.md"@, 0) is None);
                }
                Ok(DeltaList::new())
            }
        },
        None => Ok(DeltaList::new()),
    }
}

/// Structural equality of two declaration kinds.
fn kind_eq(a: DeclKind, b: DeclKind) -> (r: bool)
    ensures
        r == (a == b),
{
    match (a, b) {
        (DeclKind::Function, DeclKind::Function) => true,
        (DeclKind::Type, DeclKind::Type) => true,
        (DeclKind::Constant, DeclKind::Constant) => true,
        (DeclKind::Import, DeclKind::Import) => true,
        (DeclKind::Module, DeclKind::Module) => true,
        (DeclKind::Field, DeclKind::Field) => true,
        _ => false,
    }
}

} // verus!
