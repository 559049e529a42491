//! The newer fact model: typed fact transitions keyed by the semantic unit
//! an artifact diffs under, plus the content hashes that identify versions.

use vstd::prelude::*;

use vstd::string::StringSliceAdditionalSpecFns;

use crate::text::{ends_with, has_suffix, spec_find, to_chars};

verus! {

/// How a fact changed.
#[derive(Debug, Clone, PartialEq, Eq)]
pub enum Change {
    Added,
    Removed,
    Modified { from: String, to: String },
}

/// The kind of declaration that changed.
#[derive(Debug, Clone, PartialEq, Eq)]
pub enum DeclKind {
    Function,
    Type,
    Constant,
    Import,
    Module,
    Field,
    Method,
    Enum,
    Trait,
    Interface,
    Class,
    Annotation,
}

/// A typed fact transition: never line numbers, never unified patches.
#[derive(Debug, Clone)]
pub enum Delta {
    /// A declaration was added, removed, or modified in a source file.
    Declaration { decl_kind: DeclKind, name: String, change: Change },
    /// A rule or predicate in a rules document changed.
    Rule { section: String, predicate: String, change: Change },
    /// An acceptance criterion on a ticket changed.
    Criterion { ticket_id: String, ac: String, change: Change },
    /// A dependency version constraint changed.
    Dependency { name: String, from: String, to: String, breaking: bool },
    /// A behavioral description changed (changelog or spec entry).
    Behavior { component: String, old: String, new: String, breaking: bool },
    /// RDF quad additions and removals.
    Quad { adds: Vec<RdfQuad>, removes: Vec<RdfQuad> },
}

/// An RDF quad (subject, predicate, object, graph).
#[derive(Debug, Clone, PartialEq, Eq)]
pub struct RdfQuad {
    pub subject: String,
    pub predicate: String,
    pub object: String,
    pub graph: Option<String>,
}

/// Which semantic unit an artifact uses for diffing.
#[derive(Debug, Clone, PartialEq, Eq)]
pub enum SemanticUnit {
    /// Source declarations.
    Declaration,
    /// Rules-document predicates.
    Rule,
    /// Ticket acceptance criteria.
    Criterion,
    /// Manifest version constraints.
    DependencyConstraint,
    /// Changelog or spec behavioral entries.
    Behavior,
    /// RDF tuples.
    Quad,
}

/// The semantic unit a path diffs under, decided by its suffix and a few
/// markers, in priority order.
pub open spec fn spec_unit_of(path: Seq<char>) -> SemanticUnit {
    if ends_with(path, ".toml"@) && (spec_find(path, "Cargo"@, 0) is Some || spec_find(
        path,
        "pom"@,
        0,
    ) is Some) {
        SemanticUnit::DependencyConstraint
    } else if ends_with(path, "GUIDE.md"@) || ends_with(path, "SPR.md"@) {
        SemanticUnit::Rule
    } else if spec_find(path, "jira/tickets/"@, 0) is Some && ends_with(path, ".toml"@) {
        SemanticUnit::Criterion
    } else if ends_with(path, ".nq"@) || ends_with(path, ".ttl"@) || ends_with(path, ".n3"@) {
        SemanticUnit::Quad
    } else if ends_with(path, "CHANGELOG.md"@) || ends_with(path, "CHANGES.md"@) {
        SemanticUnit::Behavior
    } else {
        SemanticUnit::Declaration
    }
}

impl SemanticUnit {
    /// Infer the semantic unit from a file path.
    pub fn from_path(path: &str) -> (r: Self)
        ensures
            r == spec_unit_of(path@),
    {
        let v = to_chars(path);
        if has_suffix(path, ".toml") && (crate::text::contains_str(path, &v, "Cargo")
            || crate::text::contains_str(path, &v, "pom")) {
            return SemanticUnit::DependencyConstraint;
        }
        if has_suffix(path, "GUIDE.md") || has_suffix(path, "SPR.md") {
            return SemanticUnit::Rule;
        }
        if crate::text::contains_str(path, &v, "jira/tickets/") && has_suffix(path, ".toml") {
            return SemanticUnit::Criterion;
        }
        if has_suffix(path, ".nq") || has_suffix(path, ".ttl") || has_suffix(path, ".n3") {
            return SemanticUnit::Quad;
        }
        if has_suffix(path, "CHANGELOG.md") || has_suffix(path, "CHANGES.md") {
            return SemanticUnit::Behavior;
        }
        SemanticUnit::Declaration
    }
}

/// The lowercase hex rendering of the 256-bit content digest of some bytes;
/// a function of the bytes alone.
pub uninterp spec fn blake3_hex_of(data: Seq<u8>) -> Seq<char>;

/// Relies on blake3::hash and Hash::to_hex: a 32-byte digest rendered as 64
/// lowercase hex characters, a function of the input bytes alone.
#[verifier::external_body]
pub fn blake3_hex(data: &[u8]) -> (r: String)
    ensures
        r@ == blake3_hex_of(data@),
        r@.len() == 64,
{
    blake3::hash(data).to_hex().to_string()
}

/// The content digest of a string's UTF-8 bytes, as 64 hex characters.
pub fn blake3_str(s: &str) -> (r: String)
    ensures
        r@ == blake3_hex_of(s.spec_bytes()),
        r@.len() == 64,
{
    blake3_hex(s.as_bytes())
}

} // verus!
