use docata::catalog::normalize_path_string;
use docata::catalog_presentation::write_catalog;
use docata::{build_catalog, build_catalog_with_options, BuildOptions, Catalog, Edge, Entry, Node};

fn entry(id: &str, deps: &[&str], path: &str) -> Entry {
    Entry {
        id: id.to_owned(),
        deps: deps.iter().map(|d| d.to_string()).collect(),
        path: path.to_owned(),
        node_type: Some("note".to_owned()),
        domain: Some("engineering".to_owned()),
        status: Some("published".to_owned()),
        source_of_truth: Some("docs".to_owned()),
    }
}

fn bare(id: &str, deps: &[&str], path: &str) -> Entry {
    Entry {
        id: id.to_owned(),
        deps: deps.iter().map(|d| d.to_string()).collect(),
        path: path.to_owned(),
        node_type: None,
        domain: None,
        status: None,
        source_of_truth: None,
    }
}

fn edge_pairs(edges: &[Edge]) -> Vec<(String, String)> {
    edges.iter().map(|e| (e.from.clone(), e.to.clone())).collect()
}

#[test]
fn normalizes_paths_and_sorts_output() {
    let entries = vec![
        entry("zeta", &["alpha", "alpha"], "./docs/./zeta.md"),
        entry("alpha", &["zeta"], "docs/alpha.md"),
    ];

    let catalog = Catalog::from_entries(&entries);

    assert_eq!(catalog.nodes.len(), 2);
    assert_eq!(catalog.nodes[0].id, "alpha");
    assert_eq!(catalog.nodes[0].path, "docs/alpha.md");
    assert_eq!(catalog.nodes[1].id, "zeta");
    assert_eq!(catalog.nodes[1].path, "docs/zeta.md");

    assert_eq!(
        edge_pairs(&catalog.edges),
        vec![
            ("alpha".to_owned(), "zeta".to_owned()),
            ("zeta".to_owned(), "alpha".to_owned()),
        ]
    );
}

#[test]
fn includes_node_metadata_fields() {
    let entries = vec![entry("alpha", &[], "docs/alpha.md")];

    let catalog = Catalog::from_entries(&entries);
    assert_eq!(catalog.nodes[0].kind.as_deref(), Some("note"));
    assert_eq!(catalog.nodes[0].domain.as_deref(), Some("engineering"));
    assert_eq!(catalog.nodes[0].status.as_deref(), Some("published"));
    assert_eq!(catalog.nodes[0].source_of_truth.as_deref(), Some("docs"));
}

fn catalog_fixture() -> Catalog {
    Catalog {
        nodes: vec![Node {
            id: "foo".to_owned(),
            path: "docs/foo.md".to_owned(),
            kind: Some("spec".to_owned()),
            domain: Some("billing".to_owned()),
            status: Some("draft".to_owned()),
            source_of_truth: Some("handbook".to_owned()),
        }],
        edges: vec![Edge { from: "foo".to_owned(), to: "bar".to_owned() }],
    }
}

#[test]
fn writes_basic_node_without_metadata_fields() {
    let catalog = catalog_fixture();
    let json = write_catalog(&catalog, false);
    assert!(json.contains("\"id\": \"foo\""));
    assert!(json.contains("\"path\": \"docs/foo.md\""));
    assert!(!json.contains("\"type\""));
    assert!(!json.contains("\"domain\""));
    assert!(!json.contains("\"status\""));
    assert!(!json.contains("\"source_of_truth\""));
}

#[test]
fn writes_node_with_metadata_fields_when_enabled() {
    let catalog = catalog_fixture();
    let json = write_catalog(&catalog, true);
    assert!(json.contains("\"type\": \"spec\""));
    assert!(json.contains("\"domain\": \"billing\""));
    assert!(json.contains("\"status\": \"draft\""));
    assert!(json.contains("\"source_of_truth\": \"handbook\""));
}

#[test]
fn writes_exact_pretty_layout() {
    let json = write_catalog(&catalog_fixture(), false);
    let expected = "{\n  \"nodes\": [\n    {\n      \"id\": \"foo\",\n      \"path\": \"docs/foo.md\"\n    }\n  ],\n  \"edges\": [\n    {\n      \"from\": \"foo\",\n      \"to\": \"bar\"\n    }\n  ]\n}";
    assert_eq!(json, expected);
}

#[test]
fn writes_null_for_absent_metadata_and_empty_lists() {
    let catalog = Catalog {
        nodes: vec![Node {
            id: "a".to_owned(),
            path: "a.md".to_owned(),
            kind: None,
            domain: Some("d".to_owned()),
            status: None,
            source_of_truth: None,
        }],
        edges: vec![],
    };
    let json = write_catalog(&catalog, true);
    assert!(json.contains("\"type\": null"));
    assert!(json.contains("\"domain\": \"d\""));
    assert!(json.contains("\"edges\": []"));
    let empty = write_catalog(&Catalog { nodes: vec![], edges: vec![] }, false);
    assert_eq!(empty, "{\n  \"nodes\": [],\n  \"edges\": []\n}");
}

#[test]
fn escapes_special_characters_in_strings() {
    let catalog = Catalog {
        nodes: vec![Node {
            id: "q\"x".to_owned(),
            path: "a\\b.md".to_owned(),
            kind: None,
            domain: None,
            status: None,
            source_of_truth: None,
        }],
        edges: vec![],
    };
    let json = write_catalog(&catalog, false);
    assert!(json.contains("\"id\": \"q\\\"x\""));
    assert!(json.contains("\"path\": \"a\\\\b.md\""));
}

#[test]
fn normalizes_dot_segments() {
    assert_eq!(normalize_path_string("./docs/./zeta.md"), "docs/zeta.md");
    assert_eq!(normalize_path_string("docs/sub/../a.md"), "docs/a.md");
    assert_eq!(normalize_path_string("../a/../../b"), "../../b");
    assert_eq!(normalize_path_string("/x/../../y"), "/y");
    assert_eq!(normalize_path_string("/"), "/");
    assert_eq!(normalize_path_string(""), ".");
    assert_eq!(normalize_path_string("."), ".");
    assert_eq!(normalize_path_string("a//b/"), "a/b");
    assert_eq!(normalize_path_string("a/.."), ".");
}

#[test]
fn keeps_duplicate_identifiers_as_separate_nodes() {
    let entries = vec![bare("x", &[], "b.md"), bare("x", &[], "a.md"), bare("x", &[], "./a.md")];
    let catalog = Catalog::from_entries(&entries);
    assert_eq!(catalog.nodes.len(), 2);
    assert_eq!(catalog.nodes[0].path, "a.md");
    assert_eq!(catalog.nodes[1].path, "b.md");
}

#[test]
fn orders_absent_metadata_before_present() {
    let mut with_kind = bare("x", &[], "a.md");
    with_kind.node_type = Some("k".to_owned());
    let entries = vec![with_kind, bare("x", &[], "a.md")];
    let catalog = Catalog::from_entries(&entries);
    assert_eq!(catalog.nodes.len(), 2);
    assert_eq!(catalog.nodes[0].kind, None);
    assert_eq!(catalog.nodes[1].kind.as_deref(), Some("k"));
}

#[test]
fn keeps_dangling_edges() {
    let entries = vec![bare("a", &["ghost", "b", "b"], "a.md")];
    let catalog = Catalog::from_entries(&entries);
    assert_eq!(
        edge_pairs(&catalog.edges),
        vec![("a".to_owned(), "b".to_owned()), ("a".to_owned(), "ghost".to_owned())]
    );
}

#[test]
fn build_output_ignores_record_order() {
    let forward = vec![
        entry("b", &["a"], "docs/b.md"),
        entry("a", &["c", "b"], "docs/a.md"),
        entry("c", &[], "./docs/c.md"),
    ];
    let backward = vec![
        entry("c", &[], "./docs/c.md"),
        entry("a", &["c", "b"], "docs/a.md"),
        entry("b", &["a"], "docs/b.md"),
    ];
    assert_eq!(build_catalog(&forward), build_catalog(&backward));
    let options = BuildOptions { include_node_metadata: true };
    assert_eq!(
        build_catalog_with_options(&forward, options),
        build_catalog_with_options(&backward, options)
    );
}

#[test]
fn cosmetic_path_forms_normalize_alike() {
    for (a, b) in [
        ("docs/./a.md", "docs/a.md"),
        ("docs//a.md", "docs/a.md"),
        ("/x/.//y/./z", "/x/y/z"),
        ("../up/./", "../up"),
    ] {
        assert_eq!(normalize_path_string(a), normalize_path_string(b));
    }
}

#[test]
fn normalizing_twice_changes_nothing() {
    for raw in ["./docs/./zeta.md", "../a/../../b", "/x/../../y", "", "a/..", "a//b/", "/", "../.."] {
        let once = normalize_path_string(raw);
        assert!(!once.is_empty());
        assert_eq!(normalize_path_string(&once), once);
    }
}
