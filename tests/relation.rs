use docata::relation::run;
use docata::relation_presentation::{write_json, write_text};
use docata::{
    build_catalog, build_relation, check_catalog, query_catalog_relation,
    query_catalog_relation_with_options, BuildOptions, Catalog, Edge, Entry, Error, Graph, Node,
    OutputFormat, QueryOptions, RelationKind,
};

fn entry(id: &str, deps: &[&str], path: &str) -> Entry {
    Entry {
        id: id.to_owned(),
        deps: deps.iter().map(|d| d.to_string()).collect(),
        path: path.to_owned(),
        node_type: None,
        domain: None,
        status: None,
        source_of_truth: None,
    }
}

fn node(id: &str, path: &str) -> Node {
    Node { id: id.to_owned(), path: path.to_owned(), kind: None, domain: None, status: None, source_of_truth: None }
}

fn edge(from: &str, to: &str) -> Edge {
    Edge { from: from.to_owned(), to: to.to_owned() }
}

fn two_node_catalog() -> Catalog {
    Catalog { nodes: vec![node("a", "docs/a.md"), node("b", "docs/b.md")], edges: vec![edge("a", "b")] }
}

#[test]
fn strict_query_fails_for_unknown_id() {
    let entries = vec![entry("foo", &[], "docs/foo.md")];
    let catalog = Catalog::from_entries(&entries);
    let _bytes = build_catalog(&entries);

    let strict_result = query_catalog_relation_with_options(
        "missing",
        &catalog,
        RelationKind::Deps,
        OutputFormat::Json,
        QueryOptions { strict: true },
    );
    assert!(matches!(
        strict_result,
        Err(Error::QueryIdNotFound { query_id }) if query_id == "missing"
    ));

    let non_strict_result = query_catalog_relation_with_options(
        "missing",
        &catalog,
        RelationKind::Deps,
        OutputFormat::Json,
        QueryOptions { strict: false },
    );
    assert!(non_strict_result.is_ok());
}

#[test]
fn check_catalog_requires_no_regeneration_diff() {
    let entries = vec![entry("foo", &[], "docs/foo.md"), entry("bar", &["foo"], "docs/bar.md")];
    let catalog_output = build_catalog(&entries);

    check_catalog(&entries, &catalog_output, "catalog.json", BuildOptions::default())
        .expect("check should pass for up-to-date catalog");

    let broken = b"{}".to_vec();
    let result = check_catalog(&entries, &broken, "catalog.json", BuildOptions::default());
    assert!(matches!(result, Err(Error::CatalogDiff { .. })));
}

#[test]
fn check_reports_validation_before_drift() {
    let entries = vec![entry("a", &["ghost"], "a.md")];
    let bytes = build_catalog(&entries);
    let result = check_catalog(&entries, &bytes, "catalog.json", BuildOptions::default());
    assert!(matches!(result, Err(Error::Validation(_))));
}

#[test]
fn check_depends_on_metadata_option() {
    let mut e = entry("a", &[], "a.md");
    e.domain = Some("d".to_owned());
    let entries = vec![e];
    let with_meta = BuildOptions { include_node_metadata: true };
    let bytes = docata::build_catalog_with_options(&entries, with_meta);
    assert!(check_catalog(&entries, &bytes, "c.json", with_meta).is_ok());
    match check_catalog(&entries, &bytes, "c.json", BuildOptions::default()) {
        Err(Error::CatalogDiff { catalog_path }) => assert_eq!(catalog_path, "c.json"),
        _ => panic!("expected drift"),
    }
}

#[test]
fn deps_and_refs_resolve_paths() {
    let catalog = two_node_catalog();
    let graph = Graph::from_catalog(&catalog);
    let deps = build_relation("a", &catalog, &graph, RelationKind::Deps);
    assert_eq!(deps.count, 1);
    assert_eq!(deps.items.len(), 1);
    assert_eq!(deps.items[0].id, "b");
    assert!(deps.items[0].resolved);
    assert_eq!(deps.items[0].path.as_deref(), Some("docs/b.md"));
    let refs = build_relation("b", &catalog, &graph, RelationKind::Refs);
    assert_eq!(refs.count, 1);
    assert_eq!(refs.items[0].id, "a");
    assert!(refs.items[0].resolved);
    assert_eq!(refs.items[0].path.as_deref(), Some("docs/a.md"));
    assert!(refs.meta.missing_nodes.is_empty());
}

#[test]
fn unknown_query_is_empty_when_lenient() {
    let catalog = two_node_catalog();
    let graph = Graph::from_catalog(&catalog);
    let response = build_relation("nobody", &catalog, &graph, RelationKind::Deps);
    assert_eq!(response.count, 0);
    assert!(response.items.is_empty());
    assert!(response.meta.missing_nodes.is_empty());
    let strict = run("nobody", &catalog, &graph, RelationKind::Refs, true, OutputFormat::Text);
    assert!(matches!(strict, Err(Error::QueryIdNotFound { .. })));
    let lenient = run("nobody", &catalog, &graph, RelationKind::Refs, false, OutputFormat::Text);
    assert_eq!(lenient.ok().as_deref(), Some(""));
}

#[test]
fn neighbours_without_nodes_are_missing() {
    let catalog = Catalog {
        nodes: vec![node("a", "a.md"), node("c", "c.md")],
        edges: vec![edge("a", "zeta"), edge("a", "c"), edge("a", "beta"), edge("a", "c")],
    };
    let graph = Graph::from_catalog(&catalog);
    assert_eq!(graph.deps("a"), vec!["zeta".to_owned(), "c".to_owned(), "beta".to_owned(), "c".to_owned()]);
    assert!(graph.deps("zeta").is_empty());
    assert_eq!(graph.refs("c"), vec!["a".to_owned(), "a".to_owned()]);
    let response = build_relation("a", &catalog, &graph, RelationKind::Deps);
    let ids: Vec<&str> = response.items.iter().map(|i| i.id.as_str()).collect();
    assert_eq!(ids, vec!["beta", "c", "zeta"]);
    assert_eq!(response.count, 3);
    assert!(!response.items[0].resolved);
    assert_eq!(response.items[0].path, None);
    assert!(response.items[1].resolved);
    assert_eq!(response.meta.missing_nodes, vec!["beta".to_owned(), "zeta".to_owned()]);
}

#[test]
fn duplicate_node_ids_resolve_to_last_path() {
    let catalog = Catalog {
        nodes: vec![node("a", "a.md"), node("b", "b1.md"), node("b", "b2.md")],
        edges: vec![edge("a", "b")],
    };
    let graph = Graph::from_catalog(&catalog);
    let response = build_relation("a", &catalog, &graph, RelationKind::Deps);
    assert_eq!(response.items[0].path.as_deref(), Some("b2.md"));
}

#[test]
fn writes_text_one_id_per_line() {
    let catalog = Catalog {
        nodes: vec![node("a", "a.md")],
        edges: vec![edge("a", "c"), edge("a", "b")],
    };
    let graph = Graph::from_catalog(&catalog);
    let response = build_relation("a", &catalog, &graph, RelationKind::Deps);
    assert_eq!(write_text(&response), "b\nc\n");
}

#[test]
fn writes_json_response() {
    let catalog = Catalog { nodes: vec![node("a", "docs/a.md")], edges: vec![edge("a", "b")] };
    let graph = Graph::from_catalog(&catalog);
    let response = build_relation("a", &catalog, &graph, RelationKind::Deps);
    let expected = "{\n  \"command\": \"deps\",\n  \"query_id\": \"a\",\n  \"count\": 1,\n  \"items\": [\n    {\n      \"id\": \"b\",\n      \"path\": null,\n      \"resolved\": false\n    }\n  ],\n  \"meta\": {\n    \"missing_nodes\": [\n      \"b\"\n    ]\n  }\n}\n";
    assert_eq!(write_json(&response), expected);
    let via_query = query_catalog_relation("a", &catalog, RelationKind::Deps, OutputFormat::Json);
    assert_eq!(via_query.ok().as_deref(), Some(expected));
}

#[test]
fn writes_json_count_in_decimal() {
    let ids: Vec<String> = (0..12).map(|i| format!("t{:02}", i)).collect();
    let edges: Vec<Edge> = ids.iter().map(|t| edge("a", t)).collect();
    let catalog = Catalog { nodes: vec![node("a", "a.md")], edges };
    let out = query_catalog_relation("a", &catalog, RelationKind::Deps, OutputFormat::Json).unwrap();
    assert!(out.contains("\"count\": 12,"));
    assert!(out.contains("\"command\": \"deps\""));
    let refs = query_catalog_relation("t03", &catalog, RelationKind::Refs, OutputFormat::Json).unwrap();
    assert!(refs.contains("\"command\": \"refs\""));
    assert!(refs.contains("\"path\": \"a.md\""));
    assert!(refs.contains("\"resolved\": true"));
    assert!(refs.contains("\"missing_nodes\": []"));
}

#[test]
fn end_to_end_queries() {
    let entries = vec![entry("a", &["b"], "a.md"), entry("b", &["a"], "b.md"), entry("c", &[], "c.md")];
    let catalog = Catalog::from_entries(&entries);
    let text = |id: &str, kind: RelationKind| {
        query_catalog_relation(id, &catalog, kind, OutputFormat::Text).unwrap()
    };
    assert_eq!(text("a", RelationKind::Deps), "b\n");
    assert_eq!(text("a", RelationKind::Refs), "b\n");
    assert_eq!(text("c", RelationKind::Deps), "");
}

#[test]
fn kind_names() {
    assert_eq!(RelationKind::Deps.as_str(), "deps");
    assert_eq!(RelationKind::Refs.as_str(), "refs");
    let catalog = two_node_catalog();
    let graph = Graph::from_catalog(&catalog);
    assert_eq!(RelationKind::Deps.resolver(&graph, "a"), vec!["b".to_owned()]);
    assert_eq!(RelationKind::Refs.resolver(&graph, "b"), vec!["a".to_owned()]);
}
