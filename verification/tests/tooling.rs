use yawl_engine::delta;
use yawl_engine::delta::{DeltaList, GuardReceipt};
use yawl_engine::differ::compute_deltas;
use yawl_engine::facts;
use yawl_engine::facts::{blake3_str, SemanticUnit};
use yawl_engine::javadiff::{diff_file, diff_java, diff_spr, diff_toml};
use yawl_engine::manifest_diff::{diff_cargo_toml, diff_ticket_toml};
use yawl_engine::structural::{diff_quads, diff_rules, term_value};

#[test]
fn test_java_diff() {
    let old = "public void foo() { }";
    let new = "public void foo() { }\npublic void bar() { }";
    let deltas = diff_java(old, new, "test.java").unwrap();
    assert!(!deltas.deltas.is_empty());
}

#[test]
fn test_toml_diff() {
    let old = "[dependencies]\ntest = \"1.0\"";
    let new = "[dependencies]\ntest = \"2.0\"";
    let deltas = diff_toml(old, new).unwrap();
    assert!(!deltas.deltas.is_empty());
}

#[test]
fn test_declaration_diff_detects_added_function() {
    let old = "pub fn existing() -> bool { true }";
    let new = "pub fn existing() -> bool { true }\npub fn added() -> String { String::new() }";
    let deltas = compute_deltas("src/lib.rs", old, new).unwrap();
    assert!(
        deltas.iter().any(
            |d| matches!(d, facts::Delta::Declaration { name, change: facts::Change::Added, .. } if name == "added"),
        ),
        "Expected 'added' function to appear as Added delta, got: {:?}",
        deltas
    );
}

#[test]
fn test_cargo_diff_detects_version_change() {
    let old = "[dependencies]\r\nserde = \"1.0\"\r\n";
    let new = "[dependencies]\r\nserde = \"2.0\"\r\n";
    let deltas = compute_deltas("Cargo.toml", old, new).unwrap();
    assert!(
        deltas.iter().any(
            |d| matches!(d, facts::Delta::Dependency { name, from, to, .. } if name == "serde" && from == "1.0" && to == "2.0"),
        ),
        "Expected serde version delta, got: {:?}",
        deltas
    );
}

#[test]
fn java_diff_reports_removals() {
    let old = "public void foo() { }\npublic void gone() { }";
    let new = "public void foo() { }";
    let deltas = diff_java(old, new, "test.java").unwrap();
    assert!(deltas.deltas.iter().any(|d| matches!(
        d,
        delta::Delta::Declaration { name, change: delta::Change::Removed, .. } if name == "gone"
    )));
}

#[test]
fn spr_diff_reports_added_rules() {
    let old = "## Rules\nalpha\n";
    let new = "## Rules\nalpha\nbeta\n";
    let deltas = diff_spr(old, new).unwrap();
    assert_eq!(deltas.deltas.len(), 1);
    assert!(matches!(
        &deltas.deltas[0],
        delta::Delta::Rule { section, predicate, change: delta::Change::Added }
            if section == "Rules" && predicate == "beta"
    ));
}

#[test]
fn diff_file_dispatches_by_extension() {
    let unknown = diff_file("a", "b", "notes.txt").unwrap();
    assert!(unknown.deltas.is_empty());
    let java = diff_file("public void a() { }", "public void a() { }\npublic void b() { }", "x/y.java")
        .unwrap();
    assert!(!java.deltas.is_empty());
}

#[test]
fn breaking_version_changes_are_flagged() {
    let old = "[dependencies]\na = \"1.2\"\nb = \"1.2\"\nc = \"0.3\"\n";
    let new = "[dependencies]\na = \"2.0\"\nb = \"1.9\"\nc = \"0.4\"\n";
    let deltas = diff_cargo_toml(old, new).unwrap();
    let flag = |n: &str| {
        deltas.iter().find_map(|d| match d {
            facts::Delta::Dependency { name, breaking, .. } if name == n => Some(*breaking),
            _ => None,
        }).unwrap()
    };
    assert!(flag("a"));
    assert!(!flag("b"));
    assert!(!flag("c"));
}

#[test]
fn cargo_diff_reports_added_and_removed() {
    let old = "[dependencies]\ngone = \"1.0\"\n";
    let new = "[dependencies]\nfresh = \"1.0\"\n";
    let deltas = diff_cargo_toml(old, new).unwrap();
    assert!(deltas.iter().any(|d| matches!(
        d,
        facts::Delta::Dependency { name, breaking: false, .. } if name == "fresh"
    )));
    assert!(deltas.iter().any(|d| matches!(
        d,
        facts::Delta::Dependency { name, breaking: true, .. } if name == "gone"
    )));
}

#[test]
fn cargo_diff_rejects_bad_toml() {
    let err = diff_cargo_toml("not = = toml", "[dependencies]").unwrap_err();
    assert_eq!(err, "TOML parse error");
}

#[test]
fn ticket_diff_tracks_criteria() {
    let old = "[ticket.acceptance_criteria]\nac1 = false\nac2 = false\n";
    let new = "[ticket.acceptance_criteria]\nac1 = true\nac3 = false\n";
    let deltas = diff_ticket_toml("T-1", old, new).unwrap();
    assert!(deltas.iter().any(|d| matches!(
        d,
        facts::Delta::Criterion { ticket_id, ac, change: facts::Change::Modified { .. } }
            if ticket_id == "T-1" && ac == "ac1"
    )));
    assert!(deltas.iter().any(|d| matches!(
        d,
        facts::Delta::Criterion { ac, change: facts::Change::Added, .. } if ac == "ac3"
    )));
    assert!(deltas.iter().any(|d| matches!(
        d,
        facts::Delta::Criterion { ac, change: facts::Change::Removed, .. } if ac == "ac2"
    )));
}

#[test]
fn rules_diff_reports_both_directions() {
    let old = "intro\n## A\none\n";
    let new = "intro\n## A\ntwo\n";
    let deltas = diff_rules(old, new);
    assert!(deltas.iter().any(|d| matches!(
        d,
        facts::Delta::Rule { section, predicate, change: facts::Change::Added }
            if section == "A" && predicate == "two"
    )));
    assert!(deltas.iter().any(|d| matches!(
        d,
        facts::Delta::Rule { section, predicate, change: facts::Change::Removed }
            if section == "A" && predicate == "one"
    )));
    // the leading line belongs to the root section
    assert!(!deltas.iter().any(|d| matches!(
        d,
        facts::Delta::Rule { predicate, .. } if predicate == "intro"
    )));
}

#[test]
fn quads_diff_parses_added_lines() {
    let old = "<s> <p> <o> <g> .\n";
    let new = "<s> <p> <o> <g> .\n<s2> <p2> \"lit\" .\n# comment\n";
    let deltas = diff_quads(old, new);
    assert_eq!(deltas.len(), 1);
    match &deltas[0] {
        facts::Delta::Quad { adds, removes } => {
            assert_eq!(removes.len(), 0);
            assert_eq!(adds.len(), 1);
            assert_eq!(adds[0].subject, "<s2>");
            assert_eq!(adds[0].predicate, "<p2>");
            assert_eq!(adds[0].object, "\"lit\"");
            assert_eq!(adds[0].graph, None);
        },
        _ => panic!("expected a quad delta"),
    }
}

#[test]
fn quads_diff_lists_additions_in_ascending_order() {
    let old = "";
    let new = "<z> <p> <o> .\n<a> <p> <o> .\n";
    let deltas = diff_quads(old, new);
    assert_eq!(deltas.len(), 1);
    match &deltas[0] {
        facts::Delta::Quad { adds, .. } => {
            assert_eq!(adds.len(), 2);
            assert_eq!(adds[0].subject, "<a>");
            assert_eq!(adds[1].subject, "<z>");
        },
        _ => panic!("expected a quad delta"),
    }
}

#[test]
fn quads_diff_is_silent_on_equal_sets() {
    let a = "<s> <p> <o> .\n# note\n";
    let b = "# other note\n  <s> <p> <o> .  \n";
    assert!(diff_quads(a, b).is_empty());
}

#[test]
fn term_value_strips_encodings() {
    assert_eq!(term_value("<http://host/x>"), "http://host/x");
    assert_eq!(term_value("\"hello\"^^<t>"), "hello");
    assert_eq!(term_value("_:b0"), "_:b0");
}

#[test]
fn semantic_unit_from_path_cases() {
    assert_eq!(SemanticUnit::from_path("a/Cargo.toml"), SemanticUnit::DependencyConstraint);
    assert_eq!(SemanticUnit::from_path("x/jira/tickets/T-1.toml"), SemanticUnit::Criterion);
    assert_eq!(SemanticUnit::from_path("facts.nq"), SemanticUnit::Quad);
    assert_eq!(SemanticUnit::from_path("CHANGELOG.md"), SemanticUnit::Behavior);
    assert_eq!(SemanticUnit::from_path("src/lib.rs"), SemanticUnit::Declaration);
    assert_eq!(SemanticUnit::from_path("x/GUIDE.md"), SemanticUnit::Rule);
    assert_eq!(SemanticUnit::from_path("x/SPR.md"), SemanticUnit::Rule);
}

#[test]
fn changelog_diff_marks_breaking_entries() {
    let old = "";
    let new = "- plain change\n- a BREAKING move\n";
    let deltas = compute_deltas("CHANGELOG.md", old, new).unwrap();
    assert_eq!(deltas.len(), 2);
    let flags: Vec<bool> = deltas.iter().map(|d| match d {
        facts::Delta::Behavior { breaking, .. } => *breaking,
        _ => panic!("expected behavior deltas"),
    }).collect();
    assert_eq!(flags, vec![false, true]);
}

#[test]
fn changelog_breaking_marker_is_case_insensitive() {
    let deltas = compute_deltas("CHANGELOG.md", "", "- a Breaking move\n").unwrap();
    assert!(matches!(&deltas[0], facts::Delta::Behavior { breaking: true, .. }));
}

#[test]
fn rules_document_dispatch_by_name() {
    let deltas = diff_file("## A\none\n", "## A\none\ntwo\n", "docs/GUIDE.md").unwrap();
    assert!(matches!(
        &deltas.deltas[0],
        delta::Delta::Rule { predicate, .. } if predicate == "two"
    ));
}

#[test]
fn content_hash_is_hex_of_fixed_width() {
    let h = blake3_str("foo");
    assert_eq!(h.len(), 64);
    assert!(h.chars().all(|c| c.is_ascii_hexdigit()));
    assert_ne!(h, blake3_str("bar"));
}

#[test]
fn delta_list_collects_in_order() {
    let mut l = DeltaList::new();
    assert!(l.deltas.is_empty());
    l.add(delta::Delta::Rule {
        section: "s".to_string(),
        predicate: "p".to_string(),
        change: delta::Change::Added,
    });
    assert_eq!(l.deltas.len(), 1);
}

#[test]
fn emit_context_derives_directories() {
    let ctx = yawl_engine::emit::EmitCtx::new(
        "/repo".to_string(),
        "/out".to_string(),
        "abc123".to_string(),
        "main".to_string(),
        "2024-01-01T00:00:00Z".to_string(),
    );
    assert_eq!(ctx.facts_dir(), "/out/facts");
    assert_eq!(ctx.diagrams_dir(), "/out/diagrams");
    assert_eq!(ctx.receipts_dir(), "/out/receipts");
}

#[test]
fn package_scan_reads_the_header() {
    let src = "// header\npackage com.example.app;\nclass X {}\n";
    assert_eq!(yawl_engine::emit::extract_package_from_str(src), Some("com.example.app".to_string()));
    assert_eq!(yawl_engine::emit::extract_package_from_str("no header"), None);
    assert_eq!(yawl_engine::emit::extract_package_from_str("package ;"), None);
}

#[test]
fn guard_receipt_keeps_its_fields() {
    let r = GuardReceipt::new(
        "session-123".to_string(),
        "src/test.java".to_string(),
        "abc".to_string(),
        "def".to_string(),
        "ghi".to_string(),
        1,
    );
    assert_eq!(r.session_id, "session-123");
    assert_eq!(r.delta_count, 1);
    assert!(!r.injected);
}
