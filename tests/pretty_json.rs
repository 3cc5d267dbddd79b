use docata::catalog_presentation::write_catalog;
use docata::relation_presentation::write_json;
use docata::{build_relation, Catalog, Edge, Graph, Node, RelationKind};
use serde::ser::{SerializeStruct, Serializer};
use serde::Serialize;

struct NodeRef<'a> {
    node: &'a Node,
    meta: bool,
}

impl Serialize for NodeRef<'_> {
    fn serialize<S: Serializer>(&self, s: S) -> Result<S::Ok, S::Error> {
        let n = self.node;
        let mut st = s.serialize_struct("Node", if self.meta { 6 } else { 2 })?;
        st.serialize_field("id", &n.id)?;
        st.serialize_field("path", &n.path)?;
        if self.meta {
            st.serialize_field("type", &n.kind)?;
            st.serialize_field("domain", &n.domain)?;
            st.serialize_field("status", &n.status)?;
            st.serialize_field("source_of_truth", &n.source_of_truth)?;
        }
        st.end()
    }
}

struct EdgeRef<'a>(&'a Edge);

impl Serialize for EdgeRef<'_> {
    fn serialize<S: Serializer>(&self, s: S) -> Result<S::Ok, S::Error> {
        let mut st = s.serialize_struct("Edge", 2)?;
        st.serialize_field("from", &self.0.from)?;
        st.serialize_field("to", &self.0.to)?;
        st.end()
    }
}

struct CatalogRef<'a> {
    catalog: &'a Catalog,
    meta: bool,
}

impl Serialize for CatalogRef<'_> {
    fn serialize<S: Serializer>(&self, s: S) -> Result<S::Ok, S::Error> {
        let nodes: Vec<NodeRef> =
            self.catalog.nodes.iter().map(|node| NodeRef { node, meta: self.meta }).collect();
        let edges: Vec<EdgeRef> = self.catalog.edges.iter().map(EdgeRef).collect();
        let mut st = s.serialize_struct("Catalog", 2)?;
        st.serialize_field("nodes", &nodes)?;
        st.serialize_field("edges", &edges)?;
        st.end()
    }
}

struct ItemRef<'a>(&'a docata::RelationItem);

impl Serialize for ItemRef<'_> {
    fn serialize<S: Serializer>(&self, s: S) -> Result<S::Ok, S::Error> {
        let mut st = s.serialize_struct("Item", 3)?;
        st.serialize_field("id", &self.0.id)?;
        st.serialize_field("path", &self.0.path)?;
        st.serialize_field("resolved", &self.0.resolved)?;
        st.end()
    }
}

struct MetaRef<'a>(&'a docata::RelationMeta);

impl Serialize for MetaRef<'_> {
    fn serialize<S: Serializer>(&self, s: S) -> Result<S::Ok, S::Error> {
        let mut st = s.serialize_struct("Meta", 1)?;
        st.serialize_field("missing_nodes", &self.0.missing_nodes)?;
        st.end()
    }
}

struct ResponseRef<'a>(&'a docata::RelationResponse);

impl Serialize for ResponseRef<'_> {
    fn serialize<S: Serializer>(&self, s: S) -> Result<S::Ok, S::Error> {
        let r = self.0;
        let items: Vec<ItemRef> = r.items.iter().map(ItemRef).collect();
        let mut st = s.serialize_struct("Response", 5)?;
        st.serialize_field("command", r.command.as_str())?;
        st.serialize_field("query_id", &r.query_id)?;
        st.serialize_field("count", &r.count)?;
        st.serialize_field("items", &items)?;
        st.serialize_field("meta", &MetaRef(&r.meta))?;
        st.end()
    }
}

fn node(id: &str, path: &str, domain: Option<&str>) -> Node {
    Node {
        id: id.to_owned(),
        path: path.to_owned(),
        kind: Some("spec\ttab".to_owned()),
        domain: domain.map(str::to_owned),
        status: None,
        source_of_truth: Some("q\"uote\\".to_owned()),
    }
}

fn sample() -> Catalog {
    Catalog {
        nodes: vec![
            node("a", "docs/a.md", Some("billing")),
            node("b\u{1}", "docs/b\n.md", None),
            node("é", "docs/é.md", Some("")),
        ],
        edges: vec![
            Edge { from: "a".to_owned(), to: "b\u{1}".to_owned() },
            Edge { from: "a".to_owned(), to: "ghost".to_owned() },
        ],
    }
}

#[test]
fn catalog_text_matches_serde_json_pretty_printer() {
    let catalog = sample();
    for meta in [false, true] {
        let expected = serde_json::to_string_pretty(&CatalogRef { catalog: &catalog, meta }).unwrap();
        assert_eq!(write_catalog(&catalog, meta), expected);
    }
    let empty = Catalog { nodes: vec![], edges: vec![] };
    let expected = serde_json::to_string_pretty(&CatalogRef { catalog: &empty, meta: false }).unwrap();
    assert_eq!(write_catalog(&empty, false), expected);
}

#[test]
fn relation_json_matches_serde_json_pretty_printer() {
    let catalog = sample();
    let graph = Graph::from_catalog(&catalog);
    for (id, kind) in [("a", RelationKind::Deps), ("ghost", RelationKind::Refs), ("none", RelationKind::Deps)] {
        let response = build_relation(id, &catalog, &graph, kind);
        let mut expected = serde_json::to_string_pretty(&ResponseRef(&response)).unwrap();
        expected.push('\n');
        assert_eq!(write_json(&response), expected);
    }
}
