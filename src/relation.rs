//! Running a relation query with its strict or lenient treatment of the
//! query identifier.
use crate::catalog::{Catalog, NodeV};
use crate::domain::{build_relation, is_relation_of, missing_of, neighbors_of, RelationKind};
use crate::error::Error;
use crate::format::OutputFormat;
use crate::graph::Graph;
use crate::order::str_equal;
use crate::relation_presentation::response_output;
use vstd::prelude::*;

verus! {

/// Some node carries `id`.
pub open spec fn has_node(nodes: Seq<NodeV>, id: Seq<char>) -> bool {
    exists|i: int| 0 <= i < nodes.len() && (#[trigger] nodes[i]).id == id
}

/// What a query answers: a strict query for an identifier that no node
/// carries fails; any other query writes out the relation answer.
pub open spec fn is_query_result(
    query_id: Seq<char>,
    nodes: Seq<NodeV>,
    edges: Seq<(Seq<char>, Seq<char>)>,
    kind: RelationKind,
    strict: bool,
    format: OutputFormat,
    r: Result<String, Error>,
) -> bool {
    if strict && !has_node(nodes, query_id) {
        r matches Err(Error::QueryIdNotFound { query_id: q }) && q@ == query_id
    } else {
        r matches Ok(s) && exists|resp: crate::domain::RelationResponse|
            is_relation_of(kind, query_id, nodes, edges, resp) && s@ == response_output(resp, format)
    }
}

fn catalog_has_node(catalog: &Catalog, id: &str) -> (r: bool)
    ensures
        r == has_node(catalog@.nodes, id@),
{
    let mut i: usize = 0;
    while i < catalog.nodes.len()
        invariant
            i <= catalog.nodes.len(),
            forall|k: int| 0 <= k < i ==> (#[trigger] catalog@.nodes[k]).id != id@,
        decreases catalog.nodes.len() - i,
    {
        if str_equal(catalog.nodes[i].id.as_str(), id) {
            assert(catalog@.nodes[i as int].id == id@);
            return true;
        }
        i = i + 1;
    }
    false
}

/// Answers a relation query and writes the answer in the chosen form.
pub fn run(
    query_id: &str,
    catalog: &Catalog,
    graph: &Graph,
    relation_kind: RelationKind,
    strict: bool,
    format: OutputFormat,
) -> (r: Result<String, Error>)
    requires
        graph@ == catalog@.edges,
        graph.wf(),
    ensures
        is_query_result(query_id@, catalog@.nodes, catalog@.edges, relation_kind, strict, format, r),
{
    if strict && !catalog_has_node(catalog, query_id) {
        return Err(Error::QueryIdNotFound { query_id: query_id.to_owned() });
    }
    let response = build_relation(query_id, catalog, graph, relation_kind);
    Ok(crate::relation_presentation::write(&response, format))
}

/// No edge starts or ends at `id`.
pub open spec fn unmentioned(edges: Seq<(Seq<char>, Seq<char>)>, id: Seq<char>) -> bool {
    forall|i: int| 0 <= i < edges.len() ==> (#[trigger] edges[i]).0 != id && edges[i].1 != id
}

proof fn lemma_unmentioned_no_neighbors(
    kind: RelationKind,
    edges: Seq<(Seq<char>, Seq<char>)>,
    id: Seq<char>,
)
    requires
        unmentioned(edges, id),
    ensures
        neighbors_of(kind, edges, id).len() == 0,
    decreases edges.len(),
{
    if edges.len() > 0 {
        let rest = edges.drop_last();
        assert(unmentioned(rest, id)) by {
            assert forall|i: int| 0 <= i < rest.len() implies (#[trigger] rest[i]).0 != id && rest[i].1 != id by {
                assert(rest[i] == edges[i]);
            }
        }
        assert(edges.last() == edges[edges.len() - 1]);
        lemma_unmentioned_no_neighbors(kind, rest, id);
    }
}

/// An identifier that the catalog does not know at all (no node carries it,
/// no edge names it) gives an empty answer without error to a lenient query,
/// and fails a strict query with "query identifier not found".
pub proof fn lemma_unknown_query(
    query_id: Seq<char>,
    nodes: Seq<NodeV>,
    edges: Seq<(Seq<char>, Seq<char>)>,
    kind: RelationKind,
    format: OutputFormat,
    lenient: Result<String, Error>,
    strict: Result<String, Error>,
)
    requires
        !has_node(nodes, query_id),
        unmentioned(edges, query_id),
        is_query_result(query_id, nodes, edges, kind, false, format, lenient),
        is_query_result(query_id, nodes, edges, kind, true, format, strict),
    ensures
        lenient matches Ok(s) && exists|resp: crate::domain::RelationResponse|
            resp.count == 0 && resp.items.len() == 0 && resp.meta.missing_nodes.len() == 0
                && s@ == response_output(resp, format),
        strict matches Err(Error::QueryIdNotFound { query_id: q }) && q@ == query_id,
{
    lemma_unmentioned_no_neighbors(kind, edges, query_id);
    let s = lenient->Ok_0;
    let resp = choose|resp: crate::domain::RelationResponse|
        is_relation_of(kind, query_id, nodes, edges, resp) && s@ == response_output(resp, format);
    let ids = resp.items@.map_values(|it: crate::domain::RelationItem| it.id@);
    if ids.len() > 0 {
        assert(ids.to_set().contains(ids[0]));
        assert(neighbors_of(kind, edges, query_id).to_set().contains(ids[0]));
    }
    assert(ids.len() == 0);
    assert(resp.items.len() == 0);
    assert(missing_of(nodes, ids) =~= Seq::<Seq<char>>::empty());
    assert(crate::order::views(resp.meta.missing_nodes@).len() == 0);
    assert(resp.count == 0 && resp.items.len() == 0 && resp.meta.missing_nodes.len() == 0
        && s@ == response_output(resp, format));
}

} // verus!
