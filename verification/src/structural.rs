//! Structural diffing: declaration-boundary tokens of source files, rule
//! predicates of rules documents, and RDF quad lines, each compared as
//! typed facts rather than text lines.

use vstd::prelude::*;

use crate::assoc::{amap, Assoc};
use crate::facts::{Change, DeclKind, Delta, RdfQuad};
use crate::text::{
    has_prefix, is_match, is_nonblank, lines_of, match_at, nonblank_range, spec_find, spec_lines,
    str_eq, strip_trailing, to_chars, trim_of, trim_str,
};

verus! {

// ─── N-Triples terms ───────────────────────────────────────────────────────

/// The raw value of an N-Triples term: a quoted literal keeps the text up
/// to its closing quote, an IRI loses its angle brackets, anything else
/// stays as it is.
pub open spec fn spec_term_value(s: Seq<char>) -> Seq<char> {
    if s.len() > 0 && s[0] == '"' && spec_find(s, "\""@, 1) is Some {
        s.subrange(1, spec_find(s, "\""@, 1).unwrap())
    } else if s.len() >= 2 && s[0] == '<' && s.last() == '>' {
        s.subrange(1, s.len() - 1)
    } else {
        s
    }
}

/// Strip the N-Triples encoding from a term.
pub fn term_value(s: &str) -> (r: String)
    ensures
        r@ == spec_term_value(s@),
{
    let v = to_chars(s);
    let n = v.len();
    proof {
        reveal_strlit("\"");
    }
    if n > 0 && v[0] == '"' {
        let quote = to_chars("\"");
        match crate::text::find_from(&v, &quote, 1) {
            Some(q) => {
                proof {
                    crate::text::lemma_find_props(v@, "\""@, 1);
                    assert(match_at(v@, "\""@, q as int));
                }
                return s.substring_char(1, q).to_owned();
            },
            None => {
                return s.to_owned();
            },
        }
    }
    if n >= 2 && v[0] == '<' && v[n - 1] == '>' {
        proof {
            assert(v@.last() == v@[n - 1]);
        }
        return s.substring_char(1, n - 1).to_owned();
    }
    s.to_owned()
}

// ─── declaration tokens ────────────────────────────────────────────────────

/// Lines that open a new declaration token.
pub open spec fn is_boundary(l: Seq<char>) -> bool {
    let t = trim_of(l);
    ||| match_at(t, "public "@, 0)
    ||| match_at(t, "private "@, 0)
    ||| match_at(t, "protected "@, 0)
    ||| match_at(t, "static "@, 0)
    ||| match_at(t, "fn "@, 0)
    ||| match_at(t, "pub fn "@, 0)
    ||| match_at(t, "pub(crate) fn "@, 0)
    ||| match_at(t, "async fn "@, 0)
    ||| match_at(t, "pub async fn "@, 0)
    ||| match_at(t, "def "@, 0)
    ||| match_at(t, "class "@, 0)
    ||| match_at(t, "struct "@, 0)
    ||| match_at(t, "enum "@, 0)
    ||| match_at(t, "trait "@, 0)
    ||| match_at(t, "interface "@, 0)
    ||| match_at(t, "import "@, 0)
    ||| match_at(t, "use "@, 0)
    ||| match_at(t, "const "@, 0)
    ||| match_at(t, "type "@, 0)
    ||| match_at(t, "@"@, 0)
    ||| match_at(t, "record "@, 0)
}

/// The string has a non-whitespace character.
pub open spec fn nonblank(s: Seq<char>) -> bool {
    nonblank_range(s, 0, s.len() as int)
}

/// The token fold over the first `n` lines: the open buffer and the
/// finished tokens. A boundary line closes a non-blank buffer; every line
/// is appended to the buffer with its newline.
pub open spec fn tok_state(lines: Seq<Seq<char>>, n: int) -> (Seq<char>, Seq<Seq<char>>)
    decreases n,
{
    if n <= 0 {
        (Seq::empty(), seq![])
    } else {
        let prev = tok_state(lines, n - 1);
        let l = lines[n - 1];
        if is_boundary(l) && nonblank(prev.0) {
            (l + "\n"@, prev.1.push(prev.0))
        } else {
            (prev.0 + l + "\n"@, prev.1)
        }
    }
}

/// The declaration tokens of a source text.
pub open spec fn spec_tokens(s: Seq<char>) -> Seq<Seq<char>> {
    let st = tok_state(spec_lines(s), spec_lines(s).len() as int);
    if nonblank(st.0) {
        st.1.push(st.0)
    } else {
        st.1
    }
}

fn line_is_boundary(t: &str) -> (r: bool)
    ensures
        r == is_boundary(t@),
{
    let tv = to_chars(t);
    let trimmed = trim_str(t, &tv);
    let w = trimmed.as_str();
    has_prefix(w, "public ") || has_prefix(w, "private ") || has_prefix(w, "protected ")
        || has_prefix(w, "static ") || has_prefix(w, "fn ") || has_prefix(w, "pub fn ")
        || has_prefix(w, "pub(crate) fn ") || has_prefix(w, "async fn ") || has_prefix(
        w,
        "pub async fn ",
    ) || has_prefix(w, "def ") || has_prefix(w, "class ") || has_prefix(w, "struct ")
        || has_prefix(w, "enum ") || has_prefix(w, "trait ") || has_prefix(w, "interface ")
        || has_prefix(w, "import ") || has_prefix(w, "use ") || has_prefix(w, "const ")
        || has_prefix(w, "type ") || has_prefix(w, "@") || has_prefix(w, "record ")
}

/// Group a source text into declaration tokens; agrees with `spec_tokens`.
pub fn tokenize_declarations(source: &str) -> (r: Vec<String>)
    ensures
        r@.map(|_k: int, t: String| t@) == spec_tokens(source@),
{
    let v = to_chars(source);
    let lines = lines_of(source, &v);
    let ghost lv = lines@.map(|_k: int, l: String| l@);
    let mut current = "".to_owned();
    proof {
        reveal_strlit("");
        assert(current@ =~= Seq::<char>::empty());
    }
    let mut tokens: Vec<String> = Vec::new();
    let n = lines.len();
    let mut i: usize = 0;
    while i < n
        invariant
            i <= n,
            n == lines@.len(),
            lv == lines@.map(|_k: int, l: String| l@),
            current@ == tok_state(lv, i as int).0,
            tokens@.map(|_k: int, t: String| t@) == tok_state(lv, i as int).1,
        decreases n - i,
    {
        let line = &lines[i];
        let cv = to_chars(current.as_str());
        if line_is_boundary(line.as_str()) && is_nonblank(&cv) {
            tokens.push(current);
            current = line.clone();
            current.append("\n");
            proof {
                assert(tokens@.map(|_k: int, t: String| t@) =~= tok_state(lv, i + 1 as int).1);
            }
        } else {
            current.append(line.as_str());
            current.append("\n");
            proof {
                assert(current@ =~= tok_state(lv, i + 1 as int).0);
            }
        }
        i += 1;
    }
    let cv = to_chars(current.as_str());
    if is_nonblank(&cv) {
        tokens.push(current);
        proof {
            assert(tokens@.map(|_k: int, t: String| t@) =~= spec_tokens(source@));
        }
    } else {
        proof {
            assert(tokens@.map(|_k: int, t: String| t@) == spec_tokens(source@));
        }
    }
    tokens
}

// ─── declaration names ─────────────────────────────────────────────────────

/// Whether a character can continue an identifier; alphanumeric per the
/// character's Unicode class, a function of the character alone.
pub uninterp spec fn alnum(c: char) -> bool;

/// Relies on char::is_alphanumeric.
#[verifier::external_body]
fn is_alnum_char(c: char) -> (r: bool)
    ensures
        r == alnum(c),
{
    c.is_alphanumeric()
}

/// End of the identifier starting at `i`.
pub open spec fn ident_end(s: Seq<char>, i: int) -> int
    decreases s.len() - i when 0 <= i
{
    if i >= s.len() || !(alnum(s[i]) || s[i] == '_') {
        i
    } else {
        ident_end(s, i + 1)
    }
}

proof fn lemma_ident_end(s: Seq<char>, i: int)
    requires
        0 <= i <= s.len(),
    ensures
        i <= ident_end(s, i) <= s.len(),
    decreases s.len() - i,
{
    if i < s.len() && (alnum(s[i]) || s[i] == '_') {
        lemma_ident_end(s, i + 1);
    }
}

/// The identifier after the first of the keywords that yields one, or the
/// line's first forty characters.
pub open spec fn kw_ident(line: Seq<char>, kws: Seq<Seq<char>>) -> Seq<char>
    decreases kws.len(),
{
    if kws.len() == 0 {
        line.take(if line.len() < 40 {
            line.len() as int
        } else {
            40
        })
    } else {
        match spec_find(line, kws[0], 0) {
            Some(p) => {
                let e = ident_end(line, p + kws[0].len());
                if e > p + kws[0].len() {
                    line.subrange(p + kws[0].len(), e)
                } else {
                    kw_ident(line, kws.drop_first())
                }
            },
            None => kw_ident(line, kws.drop_first()),
        }
    }
}

/// Extract the identifier after a keyword; agrees with `kw_ident`.
fn extract_identifier_after(line: &str, lv: &Vec<char>, kws: &Vec<String>) -> (r: String)
    requires
        lv@ == line@,
    ensures
        r@ == kw_ident(line@, kws@.map(|_k: int, w: String| w@)),
{
    let ghost kv = kws@.map(|_k: int, w: String| w@);
    let n = lv.len();
    let nk = kws.len();
    proof {
        assert(kv.skip(0) =~= kv);
    }
    let mut j: usize = 0;
    while j < nk
        invariant
            j <= nk,
            nk == kws@.len(),
            n == lv@.len(),
            lv@ == line@,
            kv == kws@.map(|_k: int, w: String| w@),
            kw_ident(line@, kv) == kw_ident(line@, kv.skip(j as int)),
        decreases nk - j,
    {
        proof {
            assert(kv.skip(j as int)[0] == kv[j as int]);
            assert(kv.skip(j as int).drop_first() =~= kv.skip(j + 1 as int));
        }
        let kwv = to_chars(kws[j].as_str());
        match crate::text::find_from(lv, &kwv, 0) {
            Some(p) => {
                proof {
                    crate::text::lemma_find_props(lv@, kv[j as int], 0);
                    lemma_ident_end(line@, p + kv[j as int].len() as int);
                }
                let start = p + kwv.len();
                let mut e = start;
                while e < n && (is_alnum_char(lv[e]) || lv[e] == '_')
                    invariant
                        start <= e <= n,
                        n == lv@.len(),
                        lv@ == line@,
                        ident_end(line@, start as int) == ident_end(line@, e as int),
                    decreases n - e,
                {
                    e += 1;
                }
                proof {
                    assert(ident_end(line@, e as int) == e);
                }
                if e > start {
                    let r = line.substring_char(start, e).to_owned();
                    proof {
                        assert(r@ =~= line@.subrange(start as int, e as int));
                    }
                    return r;
                }
            },
            None => {},
        }
        j += 1;
    }
    proof {
        assert(kv.skip(nk as int).len() == 0);
    }
    let cut = if n < 40 {
        n
    } else {
        40
    };
    let r = line.substring_char(0, cut).to_owned();
    proof {
        assert(r@ =~= kw_ident(line@, kv));
    }
    r
}

/// The kind and name a declaration token carries, judged by its first line.
pub open spec fn spec_decl_name(token: Seq<char>) -> (DeclKind, Seq<char>) {
    let tl = spec_lines(trim_of(token));
    let line = trim_of(
        if tl.len() > 0 {
            tl[0]
        } else {
            Seq::empty()
        },
    );
    if spec_find(line, "class "@, 0) is Some || spec_find(line, "struct "@, 0) is Some {
        (DeclKind::Class, kw_ident(line, seq!["class "@, "struct "@]))
    } else if spec_find(line, "enum "@, 0) is Some {
        (DeclKind::Enum, kw_ident(line, seq!["enum "@]))
    } else if spec_find(line, "interface "@, 0) is Some {
        (DeclKind::Interface, kw_ident(line, seq!["interface "@]))
    } else if spec_find(line, "trait "@, 0) is Some {
        (DeclKind::Trait, kw_ident(line, seq!["trait "@]))
    } else if spec_find(line, "fn "@, 0) is Some || (spec_find(line, "("@, 0) is Some && spec_find(
        line,
        ")"@,
        0,
    ) is Some) {
        let nm = kw_ident(
            line,
            seq!["fn "@, "def "@, "public "@, "private "@, "protected "@, "static "@],
        );
        let cut = match spec_find(nm, "("@, 0) {
            Some(p) => nm.take(p),
            None => nm,
        };
        (DeclKind::Function, trim_of(cut))
    } else if spec_find(line, "import "@, 0) is Some || spec_find(line, "use "@, 0) is Some {
        (DeclKind::Import, kw_ident(line, seq!["import "@, "use "@]))
    } else if spec_find(line, "const "@, 0) is Some {
        (DeclKind::Constant, kw_ident(line, seq!["const "@]))
    } else if spec_find(line, "type "@, 0) is Some {
        (DeclKind::Type, kw_ident(line, seq!["type "@]))
    } else {
        (
            DeclKind::Field,
            line.take(
                if line.len() < 40 {
                    line.len() as int
                } else {
                    40
                },
            ),
        )
    }
}

fn kw_list1(a: &str) -> (r: Vec<String>)
    ensures
        r@.map(|_k: int, w: String| w@) =~= seq![a@],
{
    let mut v: Vec<String> = Vec::new();
    v.push(a.to_owned());
    v
}

fn kw_list2(a: &str, b: &str) -> (r: Vec<String>)
    ensures
        r@.map(|_k: int, w: String| w@) =~= seq![a@, b@],
{
    let mut v: Vec<String> = Vec::new();
    v.push(a.to_owned());
    v.push(b.to_owned());
    v
}

/// Extract the kind and name of a declaration token.
pub fn extract_decl_name(token: &str) -> (r: (DeclKind, String))
    ensures
        r.0 == spec_decl_name(token@).0,
        r.1@ == spec_decl_name(token@).1,
{
    let tv0 = to_chars(token);
    let trimmed = trim_str(token, &tv0);
    let tv1 = to_chars(trimmed.as_str());
    let tl = lines_of(trimmed.as_str(), &tv1);
    let first = if tl.len() > 0 {
        proof {
            assert(tl@.map(|_k: int, l: String| l@)[0] == tl@[0]@);
        }
        tl[0].clone()
    } else {
        proof {
            reveal_strlit("");
            assert(""@ =~= Seq::<char>::empty());
            assert(spec_lines(trimmed@).len() == 0);
        }
        "".to_owned()
    };
    let fv = to_chars(first.as_str());
    let line = trim_str(first.as_str(), &fv);
    let lv = to_chars(line.as_str());
    let w = line.as_str();

    if crate::text::contains_str(w, &lv, "class ") || crate::text::contains_str(
        w,
        &lv,
        "struct ",
    ) {
        let nm = extract_identifier_after(w, &lv, &kw_list2("class ", "struct "));
        (DeclKind::Class, nm)
    } else if crate::text::contains_str(w, &lv, "enum ") {
        (DeclKind::Enum, extract_identifier_after(w, &lv, &kw_list1("enum ")))
    } else if crate::text::contains_str(w, &lv, "interface ") {
        (DeclKind::Interface, extract_identifier_after(w, &lv, &kw_list1("interface ")))
    } else if crate::text::contains_str(w, &lv, "trait ") {
        (DeclKind::Trait, extract_identifier_after(w, &lv, &kw_list1("trait ")))
    } else if crate::text::contains_str(w, &lv, "fn ") || (crate::text::contains_str(w, &lv, "(")
        && crate::text::contains_str(w, &lv, ")")) {
        let mut kws = kw_list2("fn ", "def ");
        kws.push("public ".to_owned());
        kws.push("private ".to_owned());
        kws.push("protected ".to_owned());
        kws.push("static ".to_owned());
        proof {
            assert(kws@.map(|_k: int, x: String| x@) =~= seq![
                "fn "@,
                "def "@,
                "public "@,
                "private "@,
                "protected "@,
                "static "@,
            ]);
        }
        let nm = extract_identifier_after(w, &lv, &kws);
        let nv = to_chars(nm.as_str());
        let paren = to_chars("(");
        let cut = match crate::text::find_from(&nv, &paren, 0) {
            Some(p) => {
                proof {
                    crate::text::lemma_find_props(nv@, "("@, 0);
                }
                let c = nm.as_str().substring_char(0, p).to_owned();
                proof {
                    assert(c@ =~= nm@.take(p as int));
                }
                c
            },
            None => nm,
        };
        let cv = to_chars(cut.as_str());
        (DeclKind::Function, trim_str(cut.as_str(), &cv))
    } else if crate::text::contains_str(w, &lv, "import ") || crate::text::contains_str(
        w,
        &lv,
        "use ",
    ) {
        (DeclKind::Import, extract_identifier_after(w, &lv, &kw_list2("import ", "use ")))
    } else if crate::text::contains_str(w, &lv, "const ") {
        (DeclKind::Constant, extract_identifier_after(w, &lv, &kw_list1("const ")))
    } else if crate::text::contains_str(w, &lv, "type ") {
        (DeclKind::Type, extract_identifier_after(w, &lv, &kw_list1("type ")))
    } else {
        let n = lv.len();
        let cut = if n < 40 {
            n
        } else {
            40
        };
        let r = w.substring_char(0, cut).to_owned();
        proof {
            assert(r@ =~= spec_decl_name(token@).1);
        }
        (DeclKind::Field, r)
    }
}

// ─── declaration diff ──────────────────────────────────────────────────────

/// The name-to-token map of a source text, later tokens winning.
pub open spec fn token_map(toks: Seq<Seq<char>>, n: int) -> Map<Seq<char>, Seq<char>>
    decreases n,
{
    if n <= 0 {
        Map::empty()
    } else {
        token_map(toks, n - 1).insert(spec_decl_name(toks[n - 1]).1, toks[n - 1])
    }
}

/// The declaration map of a source text.
pub open spec fn spec_decl_map(s: Seq<char>) -> Map<Seq<char>, Seq<char>> {
    token_map(spec_tokens(s), spec_tokens(s).len() as int)
}

/// A token's text cut to two hundred characters.
pub open spec fn cut200(t: Seq<char>) -> Seq<char> {
    t.take(
        if t.len() < 200 {
            t.len() as int
        } else {
            200
        },
    )
}

/// A declaration delta judged against the two token maps.
pub open spec fn decl_delta_ok(
    d: Delta,
    om: Map<Seq<char>, Seq<char>>,
    nm: Map<Seq<char>, Seq<char>>,
) -> bool {
    match d {
        Delta::Declaration { decl_kind, name, change } => match change {
            Change::Added => nm.contains_key(name@) && !om.contains_key(name@) && decl_kind
                == spec_decl_name(nm[name@]).0,
            Change::Removed => om.contains_key(name@) && !nm.contains_key(name@) && decl_kind
                == spec_decl_name(om[name@]).0,
            Change::Modified { from, to } => om.contains_key(name@) && nm.contains_key(name@)
                && om[name@] != nm[name@] && decl_kind == spec_decl_name(nm[name@]).0 && from@
                == cut200(om[name@]) && to@ == cut200(nm[name@]),
        },
        _ => false,
    }
}

/// Some delta is a declaration delta for this name.
pub open spec fn decl_named(ds: Seq<Delta>, name: Seq<char>) -> bool {
    exists|k: int|
        0 <= k < ds.len() && match #[trigger] ds[k] {
            Delta::Declaration { decl_kind, name: n, change } => n@ == name,
            _ => false,
        }
}

proof fn lemma_decl_named_push(ds: Seq<Delta>, d: Delta, name: Seq<char>)
    ensures
        decl_named(ds, name) ==> decl_named(ds.push(d), name),
        (match d {
            Delta::Declaration { decl_kind, name: n, change } => n@ == name,
            _ => false,
        }) ==> decl_named(ds.push(d), name),
{
    if decl_named(ds, name) {
        let k = choose|k: int|
            0 <= k < ds.len() && match #[trigger] ds[k] {
                Delta::Declaration { decl_kind, name: n, change } => n@ == name,
                _ => false,
            };
        assert(ds.push(d)[k] == ds[k]);
    }
    assert(ds.push(d)[ds.len() as int] == d);
}

/// The name a declaration delta carries.
pub open spec fn decl_name_of(d: Delta) -> Seq<char> {
    match d {
        Delta::Declaration { decl_kind, name, change } => name@,
        _ => Seq::empty(),
    }
}

/// The declaration-diff contract: sound deltas, exactly one per name, and
/// one for every added, removed or content-modified declaration name.
pub open spec fn decl_diff_ok(ds: Seq<Delta>, old_text: Seq<char>, new_text: Seq<char>) -> bool {
    let om = spec_decl_map(old_text);
    let nm = spec_decl_map(new_text);
    &&& forall|k: int| 0 <= k < ds.len() ==> decl_delta_ok(#[trigger] ds[k], om, nm)
    &&& forall|k1: int, k2: int|
        0 <= k1 < k2 < ds.len() ==> decl_name_of(#[trigger] ds[k1]) != decl_name_of(
            #[trigger] ds[k2],
        )
    &&& forall|name: Seq<char>|
        #![trigger decl_named(ds, name)]
        ((om.contains_key(name) && !nm.contains_key(name)) || (nm.contains_key(name)
            && !om.contains_key(name)) || (om.contains_key(name) && nm.contains_key(name)
            && om[name] != nm[name]) ==> decl_named(ds, name))
}

/// Collect the declaration tokens of a source text into a name-to-token
/// table.
fn decl_table(content: &str) -> (r: Assoc<String>)
    ensures
        r.wf(),
        forall|key: Seq<char>| #[trigger] r.m().contains_key(key) == spec_decl_map(
            content@,
        ).contains_key(key),
        forall|key: Seq<char>|
            r.m().contains_key(key) ==> #[trigger] r.m()[key]@ == spec_decl_map(content@)[key],
{
    let toks = tokenize_declarations(content);
    let ghost tv = toks@.map(|_k: int, t: String| t@);
    let mut r: Assoc<String> = Assoc::new();
    let n = toks.len();
    let mut i: usize = 0;
    while i < n
        invariant
            i <= n,
            n == toks@.len(),
            tv == toks@.map(|_k: int, t: String| t@),
            tv == spec_tokens(content@),
            r.wf(),
            forall|key: Seq<char>| #[trigger] r.m().contains_key(key) == token_map(
                tv,
                i as int,
            ).contains_key(key),
            forall|key: Seq<char>|
                r.m().contains_key(key) ==> #[trigger] r.m()[key]@ == token_map(tv, i as int)[key],
        decreases n - i,
    {
        let (_kind, name) = extract_decl_name(toks[i].as_str());
        let ghost oldr = r;
        r.set(name.as_str(), toks[i].clone());
        proof {
            assert forall|key: Seq<char>| #[trigger] r.m().contains_key(key) == token_map(
                tv,
                i + 1 as int,
            ).contains_key(key) && (r.m().contains_key(key) ==> r.m()[key]@ == token_map(
                tv,
                i + 1 as int,
            )[key]) by {
                if key != name@ {
                    assert(r.m().contains_key(key) == oldr.m().contains_key(key));
                }
            }
        }
        i += 1;
    }
    r
}

/// Diff two source files at declaration-token level: exactly one delta per
/// added, removed or content-modified declaration, contents cut to two
/// hundred characters in a modification record. The deltas come in no
/// promised order: the contract pins the set.
pub fn diff_declarations(old: &str, new: &str) -> (r: Vec<Delta>)
    ensures
        decl_diff_ok(r@, old@, new@),
{
    let old_tbl = decl_table(old);
    let new_tbl = decl_table(new);
    let ghost om = spec_decl_map(old@);
    let ghost nm = spec_decl_map(new@);
    let mut deltas: Vec<Delta> = Vec::new();

    // added and modified declarations
    let nn = new_tbl.pairs.len();
    let mut j: usize = 0;
    while j < nn
        invariant
            j <= nn,
            nn == new_tbl.pseq().len(),
            old_tbl.wf(),
            new_tbl.wf(),
            forall|key: Seq<char>| #[trigger] old_tbl.m().contains_key(key) == om.contains_key(
                key,
            ),
            forall|key: Seq<char>|
                old_tbl.m().contains_key(key) ==> #[trigger] old_tbl.m()[key]@ == om[key],
            forall|key: Seq<char>| #[trigger] new_tbl.m().contains_key(key) == nm.contains_key(
                key,
            ),
            forall|key: Seq<char>|
                new_tbl.m().contains_key(key) ==> #[trigger] new_tbl.m()[key]@ == nm[key],
            forall|k: int| 0 <= k < deltas@.len() ==> decl_delta_ok(#[trigger] deltas@[k], om, nm),
            forall|k: int|
                #![trigger deltas@[k]]
                0 <= k < deltas@.len() ==> exists|x: int|
                    0 <= x < j && (#[trigger] new_tbl.pseq()[x]).0 == decl_name_of(deltas@[k]),
            forall|k1: int, k2: int|
                0 <= k1 < k2 < deltas@.len() ==> decl_name_of(#[trigger] deltas@[k1])
                    != decl_name_of(#[trigger] deltas@[k2]),
            forall|name: Seq<char>|
                #![trigger decl_named(deltas@, name)]
                ((exists|x: int| 0 <= x < j && (#[trigger] new_tbl.pseq()[x]).0 == name) && (
                !om.contains_key(name) || (om.contains_key(name) && om[name] != nm[name]))
                    ==> decl_named(deltas@, name)),
        decreases nn - j,
    {
        proof {
            new_tbl.lemma_pairs(j as int);
            assert(new_tbl.m().contains_key(new_tbl.pseq()[j as int].0));
            assert(nm.contains_key(new_tbl.pseq()[j as int].0));
            assert(new_tbl.m()[new_tbl.pseq()[j as int].0]@ == nm[new_tbl.pseq()[j as int].0]);
        }
        let name = &new_tbl.pairs[j].0;
        let new_content = &new_tbl.pairs[j].1;
        let ghost before = deltas@;
        let mut emitted = false;
        proof {
            assert(old_tbl.m().contains_key(name@) == om.contains_key(name@));
        }
        match old_tbl.get_ref(name.as_str()) {
            None => {
                let (decl_kind, _n2) = extract_decl_name(new_content.as_str());
                deltas.push(
                    Delta::Declaration { decl_kind, name: name.clone(), change: Change::Added },
                );
                emitted = true;
            },
            Some(old_content) => {
                if !str_eq(old_content.as_str(), new_content.as_str()) {
                    let (decl_kind, _n2) = extract_decl_name(new_content.as_str());
                    let from = take_chars(old_content.as_str(), 200);
                    let to = take_chars(new_content.as_str(), 200);
                    deltas.push(
                        Delta::Declaration {
                            decl_kind,
                            name: name.clone(),
                            change: Change::Modified { from, to },
                        },
                    );
                    emitted = true;
                }
            },
        }
        proof {
            if emitted {
                assert(deltas@ =~= before.push(deltas@.last()));
                assert(decl_name_of(deltas@.last()) == name@);
            }
            assert forall|k: int|
                #![trigger deltas@[k]]
                0 <= k < deltas@.len() implies exists|x: int|
                0 <= x < j + 1 && (#[trigger] new_tbl.pseq()[x]).0 == decl_name_of(
                    deltas@[k],
                ) by {
                if emitted && k == deltas@.len() - 1 {
                    assert(new_tbl.pseq()[j as int].0 == decl_name_of(deltas@[k]));
                } else {
                    assert(deltas@[k] == before[k]);
                    let x = choose|x: int|
                        0 <= x < j && (#[trigger] new_tbl.pseq()[x]).0 == decl_name_of(before[k]);
                    assert(new_tbl.pseq()[x].0 == decl_name_of(deltas@[k]));
                }
            }
            assert forall|k1: int, k2: int|
                0 <= k1 < k2 < deltas@.len() implies decl_name_of(#[trigger] deltas@[k1])
                != decl_name_of(#[trigger] deltas@[k2]) by {
                assert(deltas@[k1] == before[k1]);
                if emitted && k2 == deltas@.len() - 1 {
                    let x = choose|x: int|
                        0 <= x < j && (#[trigger] new_tbl.pseq()[x]).0 == decl_name_of(before[k1]);
                    assert(new_tbl.pseq()[x].0 != new_tbl.pseq()[j as int].0);
                    assert(decl_name_of(deltas@[k2]) == name@);
                } else {
                    assert(deltas@[k2] == before[k2]);
                }
            }
            assert forall|name2: Seq<char>|
                #![trigger decl_named(deltas@, name2)]
                ((exists|x: int| 0 <= x < j + 1 && (#[trigger] new_tbl.pseq()[x]).0 == name2) && (
                !om.contains_key(name2) || (om.contains_key(name2) && om[name2] != nm[name2])))
                    implies decl_named(deltas@, name2) by {
                if emitted {
                    lemma_decl_named_push(before, deltas@.last(), name2);
                }
                if name2 != name@ {
                    let x = choose|x: int|
                        0 <= x < j + 1 && (#[trigger] new_tbl.pseq()[x]).0 == name2;
                    assert(0 <= x < j && new_tbl.pseq()[x].0 == name2);
                    assert(decl_named(before, name2));
                } else {
                    assert(emitted || (om.contains_key(name@) && om[name@] == nm[name@]));
                }
            }
        }
        j += 1;
    }

    proof {
        assert forall|name: Seq<char>|
            #![trigger decl_named(deltas@, name)]
            nm.contains_key(name) && (!om.contains_key(name) || om[name] != nm[name]) implies decl_named(
            deltas@,
            name,
        ) by {
            assert(new_tbl.m().contains_key(name) == nm.contains_key(name));
            crate::assoc::lemma_amap_contains(new_tbl.pseq(), name);
        }
        assert forall|k: int|
            #![trigger deltas@[k]]
            0 <= k < deltas@.len() implies nm.contains_key(decl_name_of(deltas@[k])) by {
            let x = choose|x: int|
                0 <= x < nn && (#[trigger] new_tbl.pseq()[x]).0 == decl_name_of(deltas@[k]);
            new_tbl.lemma_pairs(x);
            assert(new_tbl.m().contains_key(decl_name_of(deltas@[k])));
        }
    }

    // removed declarations
    let no = old_tbl.pairs.len();
    let mut i: usize = 0;
    while i < no
        invariant
            i <= no,
            no == old_tbl.pseq().len(),
            old_tbl.wf(),
            new_tbl.wf(),
            forall|key: Seq<char>| #[trigger] old_tbl.m().contains_key(key) == om.contains_key(
                key,
            ),
            forall|key: Seq<char>|
                old_tbl.m().contains_key(key) ==> #[trigger] old_tbl.m()[key]@ == om[key],
            forall|key: Seq<char>| #[trigger] new_tbl.m().contains_key(key) == nm.contains_key(
                key,
            ),
            forall|key: Seq<char>|
                new_tbl.m().contains_key(key) ==> #[trigger] new_tbl.m()[key]@ == nm[key],
            forall|k: int| 0 <= k < deltas@.len() ==> decl_delta_ok(#[trigger] deltas@[k], om, nm),
            forall|k: int|
                #![trigger deltas@[k]]
                0 <= k < deltas@.len() ==> (nm.contains_key(decl_name_of(deltas@[k])) || exists|x: int|
                    0 <= x < i && (#[trigger] old_tbl.pseq()[x]).0 == decl_name_of(deltas@[k])),
            forall|k1: int, k2: int|
                0 <= k1 < k2 < deltas@.len() ==> decl_name_of(#[trigger] deltas@[k1])
                    != decl_name_of(#[trigger] deltas@[k2]),
            forall|name: Seq<char>|
                #![trigger decl_named(deltas@, name)]
                (nm.contains_key(name) && (!om.contains_key(name) || om[name] != nm[name])
                    ==> decl_named(deltas@, name)),
            forall|name: Seq<char>|
                #![trigger decl_named(deltas@, name)]
                ((exists|x: int| 0 <= x < i && (#[trigger] old_tbl.pseq()[x]).0 == name)
                    && !nm.contains_key(name) ==> decl_named(deltas@, name)),
        decreases no - i,
    {
        proof {
            old_tbl.lemma_pairs(i as int);
            assert(old_tbl.m().contains_key(old_tbl.pseq()[i as int].0));
            assert(om.contains_key(old_tbl.pseq()[i as int].0));
            assert(old_tbl.m()[old_tbl.pseq()[i as int].0]@ == om[old_tbl.pseq()[i as int].0]);
        }
        let name = &old_tbl.pairs[i].0;
        let old_content = &old_tbl.pairs[i].1;
        let ghost before = deltas@;
        let mut emitted = false;
        proof {
            assert(new_tbl.m().contains_key(name@) == nm.contains_key(name@));
        }
        if !new_tbl.contains(name.as_str()) {
            let (decl_kind, _n2) = extract_decl_name(old_content.as_str());
            deltas.push(
                Delta::Declaration { decl_kind, name: name.clone(), change: Change::Removed },
            );
            emitted = true;
        }
        proof {
            if emitted {
                assert(deltas@ =~= before.push(deltas@.last()));
            }
            assert forall|k: int|
                #![trigger deltas@[k]]
                0 <= k < deltas@.len() implies (nm.contains_key(decl_name_of(deltas@[k]))
                || exists|x: int|
                    0 <= x < i + 1 && (#[trigger] old_tbl.pseq()[x]).0 == decl_name_of(
                        deltas@[k],
                    )) by {
                if emitted && k == deltas@.len() - 1 {
                    assert(old_tbl.pseq()[i as int].0 == decl_name_of(deltas@[k]));
                } else {
                    assert(deltas@[k] == before[k]);
                    if !nm.contains_key(decl_name_of(before[k])) {
                        let x = choose|x: int|
                            0 <= x < i && (#[trigger] old_tbl.pseq()[x]).0 == decl_name_of(
                                before[k],
                            );
                        assert(old_tbl.pseq()[x].0 == decl_name_of(deltas@[k]));
                    }
                }
            }
            assert forall|k1: int, k2: int|
                0 <= k1 < k2 < deltas@.len() implies decl_name_of(#[trigger] deltas@[k1])
                != decl_name_of(#[trigger] deltas@[k2]) by {
                assert(deltas@[k1] == before[k1]);
                if emitted && k2 == deltas@.len() - 1 {
                    assert(decl_name_of(deltas@[k2]) == name@);
                    assert(!nm.contains_key(name@));
                    if !nm.contains_key(decl_name_of(before[k1])) {
                        let x = choose|x: int|
                            0 <= x < i && (#[trigger] old_tbl.pseq()[x]).0 == decl_name_of(
                                before[k1],
                            );
                        assert(old_tbl.pseq()[x].0 != old_tbl.pseq()[i as int].0);
                    }
                } else {
                    assert(deltas@[k2] == before[k2]);
                }
            }
            assert forall|name2: Seq<char>|
                #![trigger decl_named(deltas@, name2)]
                nm.contains_key(name2) && (!om.contains_key(name2) || om[name2] != nm[name2])
                    implies decl_named(deltas@, name2) by {
                assert(decl_named(before, name2));
                if emitted {
                    lemma_decl_named_push(before, deltas@.last(), name2);
                }
            }
            assert forall|name2: Seq<char>|
                #![trigger decl_named(deltas@, name2)]
                ((exists|x: int| 0 <= x < i + 1 && (#[trigger] old_tbl.pseq()[x]).0 == name2)
                    && !nm.contains_key(name2)) implies decl_named(deltas@, name2) by {
                if emitted {
                    lemma_decl_named_push(before, deltas@.last(), name2);
                }
                if name2 != name@ {
                    let x = choose|x: int|
                        0 <= x < i + 1 && (#[trigger] old_tbl.pseq()[x]).0 == name2;
                    assert(0 <= x < i && old_tbl.pseq()[x].0 == name2);
                    assert(decl_named(before, name2));
                } else {
                    assert(emitted || nm.contains_key(name@));
                }
            }
        }
        i += 1;
    }
    proof {
        assert forall|name: Seq<char>|
            #![trigger decl_named(deltas@, name)]
            ((om.contains_key(name) && !nm.contains_key(name)) || (nm.contains_key(name)
                && !om.contains_key(name)) || (om.contains_key(name) && nm.contains_key(name)
                && om[name] != nm[name])) implies decl_named(deltas@, name) by {
            assert(old_tbl.m().contains_key(name) == om.contains_key(name));
            assert(new_tbl.m().contains_key(name) == nm.contains_key(name));
            crate::assoc::lemma_amap_contains(old_tbl.pseq(), name);
            crate::assoc::lemma_amap_contains(new_tbl.pseq(), name);
        }
    }
    deltas
}

// ─── rules diff ────────────────────────────────────────────────────────────

/// The (section, predicate) pairs of a rules document: a `## ` heading
/// opens a section named by the heading with its marker characters and
/// surrounding whitespace removed; every later non-blank line that is not a
/// heading contributes its trimmed text as a predicate of the current
/// section (initially "root").
pub open spec fn rule_pairs(lines: Seq<Seq<char>>, n: int) -> (Seq<char>, Seq<
    (Seq<char>, Seq<char>),
>)
    decreases n,
{
    if n <= 0 {
        ("root"@, seq![])
    } else {
        let prev = rule_pairs(lines, n - 1);
        let l = lines[n - 1];
        if match_at(l, "## "@, 0) {
            (trim_of(crate::manifest_diff::strip_leading(l, '#')), prev.1)
        } else if nonblank(l) && !(l.len() > 0 && l[0] == '#') {
            (prev.0, prev.1.push((prev.0, trim_of(l))))
        } else {
            prev
        }
    }
}

/// All (section, predicate) pairs of a rules document.
pub open spec fn spec_rules(s: Seq<char>) -> Seq<(Seq<char>, Seq<char>)> {
    rule_pairs(spec_lines(s), spec_lines(s).len() as int).1
}

/// The pair occurs in the list.
pub open spec fn rules_has(l: Seq<(Seq<char>, Seq<char>)>, p: (Seq<char>, Seq<char>)) -> bool {
    exists|k: int| 0 <= k < l.len() && #[trigger] l[k] == p
}

/// Some delta is a rule delta for this pair with this change.
pub open spec fn rule_marked(ds: Seq<Delta>, p: (Seq<char>, Seq<char>), added: bool) -> bool {
    exists|k: int|
        0 <= k < ds.len() && match #[trigger] ds[k] {
            Delta::Rule { section, predicate, change } => section@ == p.0 && predicate@ == p.1
                && (change == Change::Added) == added,
            _ => false,
        }
}

proof fn lemma_rule_marked_push(ds: Seq<Delta>, d: Delta, p: (Seq<char>, Seq<char>), added: bool)
    ensures
        rule_marked(ds, p, added) ==> rule_marked(ds.push(d), p, added),
        (match d {
            Delta::Rule { section, predicate, change } => section@ == p.0 && predicate@ == p.1
                && (change == Change::Added) == added,
            _ => false,
        }) ==> rule_marked(ds.push(d), p, added),
{
    if rule_marked(ds, p, added) {
        let k = choose|k: int|
            0 <= k < ds.len() && match #[trigger] ds[k] {
                Delta::Rule { section, predicate, change } => section@ == p.0 && predicate@ == p.1
                    && (change == Change::Added) == added,
                _ => false,
            };
        assert(ds.push(d)[k] == ds[k]);
    }
    assert(ds.push(d)[ds.len() as int] == d);
}

/// The rules-diff contract: every delta marks a pair present on one side
/// only, and every such pair is marked.
pub open spec fn rules_diff_ok(ds: Seq<Delta>, old_text: Seq<char>, new_text: Seq<char>) -> bool {
    let op = spec_rules(old_text);
    let np = spec_rules(new_text);
    &&& forall|k: int|
        0 <= k < ds.len() ==> (match #[trigger] ds[k] {
            Delta::Rule { section, predicate, change } => {
                match change {
                    Change::Added => rules_has(np, (section@, predicate@)) && !rules_has(
                        op,
                        (section@, predicate@),
                    ),
                    Change::Removed => rules_has(op, (section@, predicate@)) && !rules_has(
                        np,
                        (section@, predicate@),
                    ),
                    Change::Modified { from, to } => false,
                }
            },
            _ => false,
        })
    &&& forall|j: int|
        0 <= j < np.len() ==> (!rules_has(op, #[trigger] np[j]) ==> rule_marked(ds, np[j], true))
    &&& forall|j: int|
        0 <= j < op.len() ==> (!rules_has(np, #[trigger] op[j]) ==> rule_marked(ds, op[j], false))
}

/// The (section, predicate) pairs of a rules text.
fn rule_pair_list(content: &str) -> (r: Vec<(String, String)>)
    ensures
        r@.map(|_k: int, p: (String, String)| (p.0@, p.1@)) == spec_rules(content@),
{
    let v = to_chars(content);
    let lines = lines_of(content, &v);
    let ghost lv = lines@.map(|_k: int, l: String| l@);
    let mut section = "root".to_owned();
    let mut pairs: Vec<(String, String)> = Vec::new();
    let n = lines.len();
    let mut i: usize = 0;
    while i < n
        invariant
            i <= n,
            n == lines@.len(),
            lv == lines@.map(|_k: int, l: String| l@),
            section@ == rule_pairs(lv, i as int).0,
            pairs@.map(|_k: int, p: (String, String)| (p.0@, p.1@)) == rule_pairs(lv, i as int).1,
        decreases n - i,
    {
        let line = &lines[i];
        proof {
            assert(line@ == lv[i as int]);
        }
        let line_v = to_chars(line.as_str());
        if has_prefix(line.as_str(), "## ") {
            let lv2 = to_chars(line.as_str());
            let (stripped, sv) = crate::manifest_diff::strip_leading_char(
                line.as_str(),
                &lv2,
                '#',
            );
            section = trim_str(stripped.as_str(), &sv);
        } else if is_nonblank(&line_v) && !has_prefix(line.as_str(), "#") {
            proof {
                reveal_strlit("#");
                if line@.len() > 0 && line@[0] == '#' {
                    assert(line@.subrange(0, 1) =~= "#"@);
                }
            }
            let t = trim_str(line.as_str(), &line_v);
            pairs.push((section.clone(), t));
            proof {
                assert(pairs@.map(|_k: int, p: (String, String)| (p.0@, p.1@)) =~= rule_pairs(
                    lv,
                    i + 1 as int,
                ).1);
            }
        } else {
            proof {
                reveal_strlit("#");
                if match_at(line@, "#"@, 0) {
                    assert(line@.subrange(0, 1)[0] == line@[0]);
                    assert(line@[0] == '#');
                }
            }
        }
        i += 1;
    }
    pairs
}

/// Whether the pair occurs in a pair list; agrees with `rules_has`.
fn rules_pair_in(l: &Vec<(String, String)>, a: &str, b: &str) -> (r: bool)
    ensures
        r == rules_has(l@.map(|_k: int, p: (String, String)| (p.0@, p.1@)), (a@, b@)),
{
    let ghost lv = l@.map(|_k: int, p: (String, String)| (p.0@, p.1@));
    let n = l.len();
    let mut i: usize = 0;
    while i < n
        invariant
            i <= n,
            n == l@.len(),
            lv == l@.map(|_k: int, p: (String, String)| (p.0@, p.1@)),
            forall|k: int| 0 <= k < i ==> #[trigger] lv[k] != (a@, b@),
        decreases n - i,
    {
        if str_eq(l[i].0.as_str(), a) && str_eq(l[i].1.as_str(), b) {
            assert(lv[i as int] == (a@, b@));
            return true;
        }
        i += 1;
    }
    false
}

/// Diff two rules documents: one added-rule delta per pair of the new
/// document the old one lacks, and one removed-rule delta per pair of the
/// old document the new one lacks.
pub fn diff_rules(old: &str, new: &str) -> (r: Vec<Delta>)
    ensures
        rules_diff_ok(r@, old@, new@),
{
    let old_pairs = rule_pair_list(old);
    let new_pairs = rule_pair_list(new);
    let ghost op = spec_rules(old@);
    let ghost np = spec_rules(new@);
    let mut deltas: Vec<Delta> = Vec::new();

    let nn = new_pairs.len();
    let mut j: usize = 0;
    while j < nn
        invariant
            j <= nn,
            nn == new_pairs@.len(),
            op == old_pairs@.map(|_k: int, p: (String, String)| (p.0@, p.1@)),
            np == new_pairs@.map(|_k: int, p: (String, String)| (p.0@, p.1@)),
            op == spec_rules(old@),
            np == spec_rules(new@),
            forall|k: int|
                0 <= k < deltas@.len() ==> (match #[trigger] deltas@[k] {
                    Delta::Rule { section, predicate, change } => rules_has(
                        np,
                        (section@, predicate@),
                    ) && !rules_has(op, (section@, predicate@)) && change == Change::Added,
                    _ => false,
                }),
            forall|j2: int|
                #![trigger np[j2]]
                0 <= j2 < j ==> (!rules_has(op, np[j2]) ==> rule_marked(deltas@, np[j2], true)),
        decreases nn - j,
    {
        let section = &new_pairs[j].0;
        let rule = &new_pairs[j].1;
        let ghost before = deltas@;
        let mut emitted = false;
        if !rules_pair_in(&old_pairs, section.as_str(), rule.as_str()) {
            proof {
                assert(np[j as int] == (section@, rule@));
                assert(rules_has(np, (section@, rule@)));
            }
            deltas.push(
                Delta::Rule {
                    section: section.clone(),
                    predicate: rule.clone(),
                    change: Change::Added,
                },
            );
            emitted = true;
        }
        proof {
            if emitted {
                assert(deltas@ =~= before.push(deltas@.last()));
            }
            assert forall|j2: int|
                #![trigger np[j2]]
                0 <= j2 < j + 1 implies (!rules_has(op, np[j2]) ==> rule_marked(
                deltas@,
                np[j2],
                true,
            )) by {
                if emitted {
                    lemma_rule_marked_push(before, deltas@.last(), np[j2], true);
                }
                if j2 == j && emitted {
                    assert(np[j as int] == (section@, rule@));
                }
            }
        }
        j += 1;
    }

    let no = old_pairs.len();
    let mut i: usize = 0;
    while i < no
        invariant
            i <= no,
            no == old_pairs@.len(),
            op == old_pairs@.map(|_k: int, p: (String, String)| (p.0@, p.1@)),
            np == new_pairs@.map(|_k: int, p: (String, String)| (p.0@, p.1@)),
            op == spec_rules(old@),
            np == spec_rules(new@),
            forall|k: int|
                0 <= k < deltas@.len() ==> (match #[trigger] deltas@[k] {
                    Delta::Rule { section, predicate, change } => {
                        match change {
                            Change::Added => rules_has(np, (section@, predicate@)) && !rules_has(
                                op,
                                (section@, predicate@),
                            ),
                            Change::Removed => rules_has(op, (section@, predicate@)) && !rules_has(
                                np,
                                (section@, predicate@),
                            ),
                            Change::Modified { from, to } => false,
                        }
                    },
                    _ => false,
                }),
            forall|j2: int|
                #![trigger np[j2]]
                0 <= j2 < np.len() ==> (!rules_has(op, np[j2]) ==> rule_marked(
                    deltas@,
                    np[j2],
                    true,
                )),
            forall|i2: int|
                #![trigger op[i2]]
                0 <= i2 < i ==> (!rules_has(np, op[i2]) ==> rule_marked(deltas@, op[i2], false)),
        decreases no - i,
    {
        let section = &old_pairs[i].0;
        let rule = &old_pairs[i].1;
        let ghost before = deltas@;
        let mut emitted = false;
        if !rules_pair_in(&new_pairs, section.as_str(), rule.as_str()) {
            proof {
                assert(op[i as int] == (section@, rule@));
                assert(rules_has(op, (section@, rule@)));
            }
            deltas.push(
                Delta::Rule {
                    section: section.clone(),
                    predicate: rule.clone(),
                    change: Change::Removed,
                },
            );
            emitted = true;
        }
        proof {
            if emitted {
                assert(deltas@ =~= before.push(deltas@.last()));
            }
            assert forall|j2: int|
                #![trigger np[j2]]
                0 <= j2 < np.len() implies (!rules_has(op, np[j2]) ==> rule_marked(
                deltas@,
                np[j2],
                true,
            )) by {
                if emitted {
                    lemma_rule_marked_push(before, deltas@.last(), np[j2], true);
                }
            }
            assert forall|i2: int|
                #![trigger op[i2]]
                0 <= i2 < i + 1 implies (!rules_has(np, op[i2]) ==> rule_marked(
                deltas@,
                op[i2],
                false,
            )) by {
                if emitted {
                    lemma_rule_marked_push(before, deltas@.last(), op[i2], false);
                }
                if i2 == i && emitted {
                    assert(op[i as int] == (section@, rule@));
                }
            }
        }
        i += 1;
    }
    deltas
}

// ─── quad diff ─────────────────────────────────────────────────────────────

/// The quad lines of a document: each line trimmed, blank lines and comment
/// lines dropped.
pub open spec fn quad_lines(lines: Seq<Seq<char>>, n: int) -> Seq<Seq<char>>
    decreases n,
{
    if n <= 0 {
        seq![]
    } else {
        let prev = quad_lines(lines, n - 1);
        let t = trim_of(lines[n - 1]);
        if t.len() > 0 && t[0] != '#' {
            prev.push(t)
        } else {
            prev
        }
    }
}

pub open spec fn spec_quads(s: Seq<char>) -> Seq<Seq<char>> {
    quad_lines(spec_lines(s), spec_lines(s).len() as int)
}

/// The line occurs in the list.
pub open spec fn line_in(l: Seq<Seq<char>>, x: Seq<char>) -> bool {
    exists|k: int| 0 <= k < l.len() && #[trigger] l[k] == x
}

/// The distinct lines of `src` that `other` lacks, in first-occurrence
/// order.
pub open spec fn fresh_lines(src: Seq<Seq<char>>, other: Seq<Seq<char>>, n: int) -> Seq<Seq<char>>
    decreases n,
{
    if n <= 0 {
        seq![]
    } else {
        let prev = fresh_lines(src, other, n - 1);
        if !line_in(other, src[n - 1]) && !line_in(prev, src[n - 1]) {
            prev.push(src[n - 1])
        } else {
            prev
        }
    }
}

/// A fresh-line list holds exactly the lines of `src` that `other` lacks.
pub proof fn lemma_fresh_lines_membership(src: Seq<Seq<char>>, other: Seq<Seq<char>>, n: int)
    requires
        n == src.len(),
    ensures
        forall|x: Seq<char>| #[trigger] line_in(fresh_lines(src, other, n), x) == (line_in(src, x)
            && !line_in(other, x)),
        crate::discovery::distinct_elems(fresh_lines(src, other, n)),
{
    lemma_fresh_lines_membership_upto(src, other, n);
}

proof fn lemma_fresh_lines_membership_upto(src: Seq<Seq<char>>, other: Seq<Seq<char>>, n: int)
    requires
        n <= src.len(),
    ensures
        forall|x: Seq<char>| #[trigger] line_in(fresh_lines(src, other, n), x) == ((exists|i: int|
            0 <= i < n && src[i] == x) && !line_in(other, x)),
        crate::discovery::distinct_elems(fresh_lines(src, other, n)),
    decreases n,
{
    if n > 0 {
        lemma_fresh_lines_membership_upto(src, other, n - 1);
        let prev = fresh_lines(src, other, n - 1);
        let cur = fresh_lines(src, other, n);
        assert forall|x: Seq<char>| #[trigger] line_in(cur, x) == ((exists|i: int|
            0 <= i < n && src[i] == x) && !line_in(other, x)) by {
            if cur.len() > prev.len() {
                if line_in(cur, x) {
                    let k = choose|k: int| 0 <= k < cur.len() && cur[k] == x;
                    if k < prev.len() {
                        assert(line_in(prev, x));
                    } else {
                        assert(x == src[n - 1]);
                    }
                }
                if x == src[n - 1] {
                    assert(cur[cur.len() - 1] == x);
                }
                if line_in(prev, x) {
                    let k = choose|k: int| 0 <= k < prev.len() && prev[k] == x;
                    assert(cur[k] == x);
                }
            }
            if (exists|i: int| 0 <= i < n && src[i] == x) && !line_in(other, x) {
                let i = choose|i: int| 0 <= i < n && src[i] == x;
                if i < n - 1 {
                    assert(line_in(prev, x));
                    let k = choose|k: int| 0 <= k < prev.len() && prev[k] == x;
                    assert(cur[k] == x);
                }
            }
        }
        assert forall|i: int, j: int| 0 <= i < j < cur.len() implies cur[i] != cur[j] by {
            if j < prev.len() {
                assert(prev[i] != prev[j]);
            } else if cur.len() > prev.len() {
                assert(prev[i] == cur[i]);
                assert(line_in(prev, prev[i]));
                assert(!line_in(prev, cur[j]));
            }
        }
    }
}

/// The views of a list of strings.
pub open spec fn str_views(l: Seq<String>) -> Seq<Seq<char>> {
    l.map(|_k: int, s: String| s@)
}

/// Sort in place, ascending by the strings' own order — code-point
/// lexicographic, the same order `lex_leq` denotes. A permutation: the
/// length, the membership and any distinctness are kept.
///
/// Relies on slice::sort and the documented Ord of str.
#[verifier::external_body]
fn sort_strings(v: &mut Vec<String>)
    ensures
        final(v)@.len() == old(v)@.len(),
        forall|x: Seq<char>| #[trigger] line_in(str_views(final(v)@), x) == line_in(
            str_views(old(v)@),
            x,
        ),
        forall|i: int, j: int|
            0 <= i <= j < final(v)@.len() ==> crate::text::lex_leq(
                #[trigger] str_views(final(v)@)[i],
                #[trigger] str_views(final(v)@)[j],
            ),
        crate::discovery::distinct_elems(str_views(old(v)@)) ==> crate::discovery::distinct_elems(
            str_views(final(v)@),
        ),
{
    v.sort();
}

/// The first `budget` space-separated fields of `s` from `i`; the last
/// field takes the rest.
pub open spec fn splitn_from(s: Seq<char>, i: int, budget: int) -> Seq<Seq<char>>
    decreases budget
        via splitn_from_dec
{
    if budget <= 1 {
        seq![s.subrange(i, s.len() as int)]
    } else {
        match spec_find(s, " "@, i) {
            Some(p) => seq![s.subrange(i, p)] + splitn_from(s, p + 1, budget - 1),
            None => seq![s.subrange(i, s.len() as int)],
        }
    }
}

#[via_fn]
proof fn splitn_from_dec(s: Seq<char>, i: int, budget: int) {
}

/// A parsed quad agrees with its line: the first three fields, and a graph
/// when a fourth field has text beyond its trailing dots.
pub open spec fn quad_matches(q: RdfQuad, line: Seq<char>) -> bool {
    let parts = splitn_from(line, 0, 5);
    &&& q.subject@ == (if parts.len() > 0 {
        parts[0]
    } else {
        Seq::empty()
    })
    &&& q.predicate@ == (if parts.len() > 1 {
        parts[1]
    } else {
        Seq::empty()
    })
    &&& q.object@ == (if parts.len() > 2 {
        parts[2]
    } else {
        Seq::empty()
    })
    &&& (match q.graph {
        Some(g) => parts.len() > 3 && strip_trailing(parts[3], '.').len() > 0 && g@
            == strip_trailing(parts[3], '.'),
        None => parts.len() <= 3 || strip_trailing(parts[3], '.').len() == 0,
    })
}

/// The quad list parses, in order, some line list that holds exactly the
/// distinct lines of `src` missing from `other`, sorted ascending.
pub open spec fn quad_lines_ok(
    qs: Seq<RdfQuad>,
    lines: Seq<Seq<char>>,
    src: Seq<Seq<char>>,
    other: Seq<Seq<char>>,
) -> bool {
    &&& lines.len() == qs.len()
    &&& crate::discovery::distinct_elems(lines)
    &&& forall|i: int, j: int|
        #![trigger lines[i], lines[j]]
        0 <= i <= j < lines.len() ==> crate::text::lex_leq(lines[i], lines[j])
    &&& forall|x: Seq<char>| #[trigger] line_in(lines, x) == (line_in(src, x) && !line_in(
        other,
        x,
    ))
    &&& forall|k: int| 0 <= k < qs.len() ==> quad_matches(#[trigger] qs[k], lines[k])
}

/// Some such sorted line list exists for the quad list.
pub open spec fn quad_list_ok(qs: Seq<RdfQuad>, src: Seq<Seq<char>>, other: Seq<Seq<char>>) -> bool {
    exists|lines: Seq<Seq<char>>| #[trigger] quad_lines_ok(qs, lines, src, other)
}

/// The quad-diff contract: nothing when the quad-line sets agree, otherwise
/// one delta holding the parsed added and removed lines, each list in
/// ascending order.
pub open spec fn quads_diff_ok(ds: Seq<Delta>, old_text: Seq<char>, new_text: Seq<char>) -> bool {
    let oq = spec_quads(old_text);
    let nq = spec_quads(new_text);
    let addl = fresh_lines(nq, oq, nq.len() as int);
    let reml = fresh_lines(oq, nq, oq.len() as int);
    if addl.len() == 0 && reml.len() == 0 {
        ds.len() == 0
    } else {
        ds.len() == 1 && match ds[0] {
            Delta::Quad { adds, removes } => {
                &&& quad_list_ok(adds@, nq, oq)
                &&& quad_list_ok(removes@, oq, nq)
            },
            _ => false,
        }
    }
}

/// The trimmed, non-comment lines of a document.
fn quad_line_list(content: &str) -> (r: Vec<String>)
    ensures
        r@.map(|_k: int, l: String| l@) == spec_quads(content@),
{
    let v = to_chars(content);
    let lines = lines_of(content, &v);
    let ghost lv = lines@.map(|_k: int, l: String| l@);
    let mut out: Vec<String> = Vec::new();
    let n = lines.len();
    let mut i: usize = 0;
    while i < n
        invariant
            i <= n,
            n == lines@.len(),
            lv == lines@.map(|_k: int, l: String| l@),
            out@.map(|_k: int, l: String| l@) == quad_lines(lv, i as int),
        decreases n - i,
    {
        let line = &lines[i];
        proof {
            assert(line@ == lv[i as int]);
        }
        let line_v = to_chars(line.as_str());
        let t = trim_str(line.as_str(), &line_v);
        let tv = to_chars(t.as_str());
        if tv.len() > 0 && tv[0] != '#' {
            out.push(t);
            proof {
                assert(out@.map(|_k: int, l: String| l@) =~= quad_lines(lv, i + 1 as int));
            }
        }
        i += 1;
    }
    out
}

fn line_in_list(l: &Vec<String>, x: &str) -> (r: bool)
    ensures
        r == line_in(l@.map(|_k: int, s: String| s@), x@),
{
    let ghost lv = l@.map(|_k: int, s: String| s@);
    let n = l.len();
    let mut i: usize = 0;
    while i < n
        invariant
            i <= n,
            n == l@.len(),
            lv == l@.map(|_k: int, s: String| s@),
            forall|k: int| 0 <= k < i ==> #[trigger] lv[k] != x@,
        decreases n - i,
    {
        if str_eq(l[i].as_str(), x) {
            assert(lv[i as int] == x@);
            return true;
        }
        i += 1;
    }
    false
}

/// The distinct lines of `src` missing from `other`.
fn fresh_line_list(src: &Vec<String>, other: &Vec<String>) -> (r: Vec<String>)
    ensures
        r@.map(|_k: int, s: String| s@) == fresh_lines(
            src@.map(|_k: int, s: String| s@),
            other@.map(|_k: int, s: String| s@),
            src@.len() as int,
        ),
{
    let ghost sv = src@.map(|_k: int, s: String| s@);
    let ghost ov = other@.map(|_k: int, s: String| s@);
    let mut out: Vec<String> = Vec::new();
    let n = src.len();
    let mut i: usize = 0;
    while i < n
        invariant
            i <= n,
            n == src@.len(),
            sv == src@.map(|_k: int, s: String| s@),
            ov == other@.map(|_k: int, s: String| s@),
            out@.map(|_k: int, s: String| s@) == fresh_lines(sv, ov, i as int),
        decreases n - i,
    {
        proof {
            assert(src@[i as int]@ == sv[i as int]);
        }
        if !line_in_list(other, src[i].as_str()) && !line_in_list(&out, src[i].as_str()) {
            out.push(src[i].clone());
            proof {
                assert(out@.map(|_k: int, s: String| s@) =~= fresh_lines(sv, ov, i + 1 as int));
            }
        }
        i += 1;
    }
    out
}

/// Parse one quad line into its fields.
fn parse_nquad(line: &str) -> (q: RdfQuad)
    ensures
        quad_matches(q, line@),
{
    let v = to_chars(line);
    let sp = to_chars(" ");
    let n = v.len();
    let mut parts: Vec<String> = Vec::new();
    let mut cur: usize = 0;
    let mut budget: usize = 5;
    proof {
        reveal_strlit(" ");
    }
    loop
        invariant
            cur <= n,
            n == v@.len(),
            v@ == line@,
            sp@ == " "@,
            1 <= budget <= 5,
            splitn_from(line@, 0, 5) == parts@.map(|_k: int, s: String| s@) + splitn_from(
                line@,
                cur as int,
                budget as int,
            ),
        decreases budget,
    {
        let ghost pre = parts@.map(|_k: int, s: String| s@);
        if budget == 1 {
            parts.push(line.substring_char(cur, n).to_owned());
            proof {
                assert(parts@.map(|_k: int, s: String| s@) =~= pre + splitn_from(
                    line@,
                    cur as int,
                    1,
                ));
                assert(splitn_from(line@, 0, 5) =~= parts@.map(|_k: int, s: String| s@));
            }
            break ;
        }
        match crate::text::find_from(&v, &sp, cur) {
            Some(p) => {
                proof {
                    crate::text::lemma_find_props(v@, " "@, cur as int);
                }
                parts.push(line.substring_char(cur, p).to_owned());
                proof {
                    assert(parts@.map(|_k: int, s: String| s@) + splitn_from(
                        line@,
                        p + 1 as int,
                        budget - 1 as int,
                    ) =~= pre + splitn_from(line@, cur as int, budget as int));
                }
                cur = p + 1;
                budget = budget - 1;
            },
            None => {
                parts.push(line.substring_char(cur, n).to_owned());
                proof {
                    assert(parts@.map(|_k: int, s: String| s@) =~= pre + splitn_from(
                        line@,
                        cur as int,
                        budget as int,
                    ));
                    assert(splitn_from(line@, 0, 5) =~= parts@.map(|_k: int, s: String| s@));
                }
                break ;
            },
        }
    }
    let ghost pv = parts@.map(|_k: int, s: String| s@);
    proof {
        assert(pv == splitn_from(line@, 0, 5));
        assert(pv.len() > 0);
    }
    let subject = parts[0].clone();
    let predicate = if parts.len() > 1 {
        parts[1].clone()
    } else {
        "".to_owned()
    };
    let object = if parts.len() > 2 {
        parts[2].clone()
    } else {
        "".to_owned()
    };
    let graph = if parts.len() > 3 {
        let g = crate::text::trim_end_char(parts[3].as_str(), '.');
        if g.as_str().is_empty() {
            None
        } else {
            Some(g)
        }
    } else {
        None
    };
    proof {
        reveal_strlit("");
        assert(""@ =~= Seq::<char>::empty());
    }
    RdfQuad { subject, predicate, object, graph }
}

/// Diff two quad documents: nothing when the non-comment lines agree as
/// sets; otherwise one delta with the parsed added and removed quads, each
/// list sorted ascending.
pub fn diff_quads(old: &str, new: &str) -> (r: Vec<Delta>)
    ensures
        quads_diff_ok(r@, old@, new@),
{
    let old_lines = quad_line_list(old);
    let new_lines = quad_line_list(new);
    let ghost oq = spec_quads(old@);
    let ghost nq = spec_quads(new@);
    let mut addl = fresh_line_list(&new_lines, &old_lines);
    let mut reml = fresh_line_list(&old_lines, &new_lines);
    proof {
        lemma_fresh_lines_membership(nq, oq, nq.len() as int);
        lemma_fresh_lines_membership(oq, nq, oq.len() as int);
    }
    sort_strings(&mut addl);
    sort_strings(&mut reml);
    let ghost addg = addl@.map(|_k: int, s: String| s@);
    let ghost remg = reml@.map(|_k: int, s: String| s@);
    proof {
        assert(addg == str_views(addl@));
        assert(remg == str_views(reml@));
    }
    if addl.len() == 0 && reml.len() == 0 {
        return Vec::new();
    }
    let mut adds: Vec<RdfQuad> = Vec::new();
    let na = addl.len();
    let mut i: usize = 0;
    while i < na
        invariant
            i <= na,
            na == addl@.len(),
            addg == addl@.map(|_k: int, s: String| s@),
            adds@.len() == i,
            forall|k: int| 0 <= k < i ==> quad_matches(#[trigger] adds@[k], addg[k]),
        decreases na - i,
    {
        proof {
            assert(addl@[i as int]@ == addg[i as int]);
        }
        adds.push(parse_nquad(addl[i].as_str()));
        i += 1;
    }
    let mut removes: Vec<RdfQuad> = Vec::new();
    let nr = reml.len();
    let mut j: usize = 0;
    while j < nr
        invariant
            j <= nr,
            nr == reml@.len(),
            remg == reml@.map(|_k: int, s: String| s@),
            removes@.len() == j,
            forall|k: int| 0 <= k < j ==> quad_matches(#[trigger] removes@[k], remg[k]),
        decreases nr - j,
    {
        proof {
            assert(reml@[j as int]@ == remg[j as int]);
        }
        removes.push(parse_nquad(reml[j].as_str()));
        j += 1;
    }
    proof {
        assert(quad_lines_ok(adds@, addg, nq, oq));
        assert(quad_lines_ok(removes@, remg, oq, nq));
    }
    let mut r: Vec<Delta> = Vec::new();
    r.push(Delta::Quad { adds, removes });
    r
}

/// The first `n` characters of a string, or all of it when shorter.
fn take_chars(s: &str, n: usize) -> (r: String)
    ensures
        r@ == s@.take(
            if s@.len() < n {
                s@.len() as int
            } else {
                n as int
            },
        ),
{
    let len = s.unicode_len();
    let cut = if len < n {
        len
    } else {
        n
    };
    s.substring_char(0, cut).to_owned()
}

} // verus!
