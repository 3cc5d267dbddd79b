//! The persisted form of a catalog.
use crate::catalog::{Catalog, Edge, Node, NodeV};
use crate::render::{block, field, json_quoted, quote, render_block, render_field};
use vstd::prelude::*;

verus! {

pub open spec fn opt_json(o: Option<Seq<char>>) -> Seq<char> {
    match o {
        Some(s) => json_quoted(s),
        None => "null"@,
    }
}

/// The members written for a node: identifier and path, then the metadata
/// fields (absent ones as null) where metadata is asked for.
pub open spec fn node_fields(n: NodeV, meta: bool) -> Seq<Seq<char>> {
    let base = seq![field("\"id\""@, json_quoted(n.id)), field("\"path\""@, json_quoted(n.path))];
    if meta {
        base + seq![
            field("\"type\""@, opt_json(n.kind)),
            field("\"domain\""@, opt_json(n.domain)),
            field("\"status\""@, opt_json(n.status)),
            field("\"source_of_truth\""@, opt_json(n.source_of_truth)),
        ]
    } else {
        base
    }
}

pub open spec fn node_json(n: NodeV, meta: bool) -> Seq<char> {
    block('{', '}', node_fields(n, meta), 2)
}

pub open spec fn edge_json(e: (Seq<char>, Seq<char>)) -> Seq<char> {
    block('{', '}', seq![field("\"from\""@, json_quoted(e.0)), field("\"to\""@, json_quoted(e.1))], 2)
}

/// The persisted text of a catalog: an object with its node list and its
/// edge list, in catalog order.
pub open spec fn catalog_json(c: crate::catalog::CatalogV, meta: bool) -> Seq<char> {
    block(
        '{',
        '}',
        seq![
            field("\"nodes\""@, block('[', ']', c.nodes.map_values(|n: NodeV| node_json(n, meta)), 1)),
            field("\"edges\""@, block('[', ']', c.edges.map_values(|e: (Seq<char>, Seq<char>)| edge_json(e)), 1)),
        ],
        0,
    )
}

fn opt_json_exec(o: &Option<String>) -> (r: String)
    ensures
        r@ == opt_json(crate::order::opt_view(*o)),
{
    match o {
        Some(s) => quote(s.as_str()),
        None => "null".to_owned(),
    }
}

fn node_json_exec(n: &Node, meta: bool) -> (r: String)
    ensures
        r@ == node_json(n@, meta),
{
    let mut fields: Vec<String> = Vec::new();
    fields.push(render_field("\"id\"", quote(n.id.as_str())));
    fields.push(render_field("\"path\"", quote(n.path.as_str())));
    if meta {
        fields.push(render_field("\"type\"", opt_json_exec(&n.kind)));
        fields.push(render_field("\"domain\"", opt_json_exec(&n.domain)));
        fields.push(render_field("\"status\"", opt_json_exec(&n.status)));
        fields.push(render_field("\"source_of_truth\"", opt_json_exec(&n.source_of_truth)));
    }
    assert(fields@.map_values(|x: String| x@) =~= node_fields(n@, meta));
    render_block('{', '}', &fields, 2)
}

fn edge_json_exec(e: &Edge) -> (r: String)
    ensures
        r@ == edge_json(e@),
{
    let mut fields: Vec<String> = Vec::new();
    fields.push(render_field("\"from\"", quote(e.from.as_str())));
    fields.push(render_field("\"to\"", quote(e.to.as_str())));
    assert(fields@.map_values(|x: String| x@) =~= seq![
        field("\"from\""@, json_quoted(e@.0)),
        field("\"to\""@, json_quoted(e@.1)),
    ]);
    render_block('{', '}', &fields, 2)
}

/// Writes a catalog in its persisted form, with or without node metadata.
pub fn write_catalog(catalog: &Catalog, include_node_metadata: bool) -> (r: String)
    ensures
        r@ == catalog_json(catalog@, include_node_metadata),
{
    let ghost c = catalog@;
    let mut nodes: Vec<String> = Vec::new();
    let mut i: usize = 0;
    while i < catalog.nodes.len()
        invariant
            i <= catalog.nodes.len(),
            c == catalog@,
            nodes@.map_values(|x: String| x@) == c.nodes.take(i as int).map_values(
                |n: NodeV| node_json(n, include_node_metadata),
            ),
        decreases catalog.nodes.len() - i,
    {
        let ghost before = nodes@.map_values(|x: String| x@);
        let s = node_json_exec(&catalog.nodes[i], include_node_metadata);
        nodes.push(s);
        assert(nodes@.map_values(|x: String| x@) =~= before.push(s@));
        assert(c.nodes.take(i + 1) =~= c.nodes.take(i as int).push(c.nodes[i as int]));
        i = i + 1;
        assert(nodes@.map_values(|x: String| x@) =~= c.nodes.take(i as int).map_values(
            |n: NodeV| node_json(n, include_node_metadata),
        ));
    }
    assert(c.nodes.take(i as int) =~= c.nodes);
    let mut edges: Vec<String> = Vec::new();
    let mut i: usize = 0;
    while i < catalog.edges.len()
        invariant
            i <= catalog.edges.len(),
            c == catalog@,
            edges@.map_values(|x: String| x@) == c.edges.take(i as int).map_values(
                |e: (Seq<char>, Seq<char>)| edge_json(e),
            ),
        decreases catalog.edges.len() - i,
    {
        let ghost before = edges@.map_values(|x: String| x@);
        let s = edge_json_exec(&catalog.edges[i]);
        edges.push(s);
        assert(edges@.map_values(|x: String| x@) =~= before.push(s@));
        assert(c.edges.take(i + 1) =~= c.edges.take(i as int).push(c.edges[i as int]));
        i = i + 1;
        assert(edges@.map_values(|x: String| x@) =~= c.edges.take(i as int).map_values(
            |e: (Seq<char>, Seq<char>)| edge_json(e),
        ));
    }
    assert(c.edges.take(i as int) =~= c.edges);
    let mut top: Vec<String> = Vec::new();
    top.push(render_field("\"nodes\"", render_block('[', ']', &nodes, 1)));
    top.push(render_field("\"edges\"", render_block('[', ']', &edges, 1)));
    assert(top@.map_values(|x: String| x@) =~= seq![
        field("\"nodes\""@, block('[', ']', c.nodes.map_values(|n: NodeV| node_json(n, include_node_metadata)), 1)),
        field("\"edges\""@, block('[', ']', c.edges.map_values(|e: (Seq<char>, Seq<char>)| edge_json(e)), 1)),
    ]);
    render_block('{', '}', &top, 0)
}

} // verus!
