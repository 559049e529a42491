//! Shared context for the repository fact emitters, and the package-header
//! scan they share. The host supplies what only it can know — the source
//! control revision, the branch, and the wall-clock stamp — and every
//! emitter derives its output directories from one context.

use vstd::prelude::*;

use crate::text::{lines_of, match_at, spec_lines, strip_trailing, to_chars, trim_of, trim_str};

verus! {

/// Shared context passed to every emitter.
pub struct EmitCtx {
    pub repo: String,
    pub out_dir: String,
    pub commit: String,
    pub branch: String,
    /// A wall-clock stamp, as the host rendered it.
    pub timestamp: String,
}

impl EmitCtx {
    /// Bundle what the host read from its repository and clock.
    pub fn new(
        repo: String,
        out_dir: String,
        commit: String,
        branch: String,
        timestamp: String,
    ) -> (r: Self)
        ensures
            r.repo == repo,
            r.out_dir == out_dir,
            r.commit == commit,
            r.branch == branch,
            r.timestamp == timestamp,
    {
        EmitCtx { repo, out_dir, commit, branch, timestamp }
    }

    /// Where fact files go.
    pub fn facts_dir(&self) -> (r: String)
        ensures
            r@ == self.out_dir@ + "/facts"@,
    {
        let mut s = self.out_dir.clone();
        s.append("/facts");
        s
    }

    /// Where diagram files go.
    pub fn diagrams_dir(&self) -> (r: String)
        ensures
            r@ == self.out_dir@ + "/diagrams"@,
    {
        let mut s = self.out_dir.clone();
        s.append("/diagrams");
        s
    }

    /// Where receipt files go.
    pub fn receipts_dir(&self) -> (r: String)
        ensures
            r@ == self.out_dir@ + "/receipts"@,
    {
        let mut s = self.out_dir.clone();
        s.append("/receipts");
        s
    }
}

/// The package named by the first `package …;` line among the first thirty
/// lines, if any: the text after the keyword, trailing semicolons and
/// surrounding whitespace removed, when something is left.
pub open spec fn spec_package(lines: Seq<Seq<char>>, i: int) -> Option<Seq<char>>
    decreases 30 - i,
{
    if i >= 30 || i >= lines.len() || i < 0 {
        None
    } else {
        let t = trim_of(lines[i]);
        if match_at(t, "package "@, 0) {
            let pkg = trim_of(strip_trailing(t.skip(8), ';'));
            if pkg.len() > 0 {
                Some(pkg)
            } else {
                spec_package(lines, i + 1)
            }
        } else {
            spec_package(lines, i + 1)
        }
    }
}

/// Scan already-loaded content for its package declaration.
pub fn extract_package_from_str(content: &str) -> (r: Option<String>)
    ensures
        match r {
            Some(p) => spec_package(spec_lines(content@), 0) == Some(p@),
            None => spec_package(spec_lines(content@), 0) is None,
        },
{
    let v = to_chars(content);
    let lines = lines_of(content, &v);
    let ghost lv = lines@.map(|_k: int, l: String| l@);
    let n = lines.len();
    let mut i: usize = 0;
    while i < n && i < 30
        invariant
            i <= n,
            i <= 30,
            n == lines@.len(),
            lv == lines@.map(|_k: int, l: String| l@),
            spec_package(lv, 0) == spec_package(lv, i as int),
        decreases 30 - i,
    {
        let line = &lines[i];
        proof {
            assert(line@ == lv[i as int]);
        }
        let line_v = to_chars(line.as_str());
        let t = trim_str(line.as_str(), &line_v);
        if crate::text::has_prefix(t.as_str(), "package ") {
            proof {
                reveal_strlit("package ");
            }
            let tv = to_chars(t.as_str());
            let rest = t.as_str().substring_char(8, tv.len());
            proof {
                assert(rest@ =~= t@.skip(8));
            }
            let stripped = crate::text::trim_end_char(rest, ';');
            let sv = to_chars(stripped.as_str());
            let pkg = trim_str(stripped.as_str(), &sv);
            if !pkg.as_str().is_empty() {
                return Some(pkg);
            }
        }
        i += 1;
    }
    proof {
        assert(spec_package(lv, i as int) is None);
    }
    None
}

} // verus!
