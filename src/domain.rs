//! Relation queries: which identifiers a query identifier depends on, or is
//! referred to by, resolved against the catalog's nodes.
use crate::catalog::{Catalog, NodeV};
use crate::graph::{forward_of, reverse_of, Graph};
use crate::order::{sort_dedup, str_equal, strictly_sorted, views, opt_view};
use vstd::prelude::*;

verus! {

/// The direction of a relation query.
#[derive(Clone, Copy, Debug, PartialEq, Eq, Structural)]
pub enum RelationKind {
    Deps,
    Refs,
}

pub open spec fn kind_name(kind: RelationKind) -> Seq<char> {
    match kind {
        RelationKind::Deps => seq!['d', 'e', 'p', 's'],
        RelationKind::Refs => seq!['r', 'e', 'f', 's'],
    }
}

/// The raw neighbours of `id` in the direction of `kind`.
pub open spec fn neighbors_of(
    kind: RelationKind,
    edges: Seq<(Seq<char>, Seq<char>)>,
    id: Seq<char>,
) -> Seq<Seq<char>> {
    match kind {
        RelationKind::Deps => forward_of(edges, id),
        RelationKind::Refs => reverse_of(edges, id),
    }
}

impl RelationKind {
    /// The name of the query kind.
    pub fn as_str(self) -> (r: &'static str)
        ensures
            r@ == kind_name(self),
    {
        match self {
            RelationKind::Deps => {
                proof {
                    reveal_strlit("deps");
                }
                "deps"
            },
            RelationKind::Refs => {
                proof {
                    reveal_strlit("refs");
                }
                "refs"
            },
        }
    }

    /// The raw neighbours of `id` in this direction, as the graph holds them.
    pub fn resolver(self, graph: &Graph, id: &str) -> (r: Vec<String>)
        requires
            graph.wf(),
        ensures
            views(r@) == neighbors_of(self, graph@, id@),
    {
        match self {
            RelationKind::Deps => graph.deps(id),
            RelationKind::Refs => graph.refs(id),
        }
    }
}

/// One resolved neighbour.
#[derive(Debug)]
pub struct RelationItem {
    pub id: String,
    pub path: Option<String>,
    pub resolved: bool,
}

pub struct RelationItemV {
    pub id: Seq<char>,
    pub path: Option<Seq<char>>,
    pub resolved: bool,
}

impl View for RelationItem {
    type V = RelationItemV;

    open spec fn view(&self) -> RelationItemV {
        RelationItemV { id: self.id@, path: opt_view(self.path), resolved: self.resolved }
    }
}

#[derive(Debug)]
pub struct RelationMeta {
    pub missing_nodes: Vec<String>,
}

/// The answer to a relation query.
#[derive(Debug)]
pub struct RelationResponse {
    pub command: RelationKind,
    pub query_id: String,
    pub count: usize,
    pub items: Vec<RelationItem>,
    pub meta: RelationMeta,
}

/// The path of the node with identifier `id`; where several nodes carry it,
/// the last one in catalog order.
pub open spec fn node_path(nodes: Seq<NodeV>, id: Seq<char>) -> Option<Seq<char>>
    decreases nodes.len(),
{
    if nodes.len() == 0 {
        None
    } else if nodes.last().id == id {
        Some(nodes.last().path)
    } else {
        node_path(nodes.drop_last(), id)
    }
}

/// The item for neighbour `id`: resolved with its path where a node carries
/// it, unresolved without a path otherwise.
pub open spec fn item_for(nodes: Seq<NodeV>, id: Seq<char>) -> RelationItemV {
    RelationItemV { id, path: node_path(nodes, id), resolved: node_path(nodes, id) is Some }
}

/// The identifiers among `ids` that no node carries, in order.
pub open spec fn missing_of(nodes: Seq<NodeV>, ids: Seq<Seq<char>>) -> Seq<Seq<char>>
    decreases ids.len(),
{
    if ids.len() == 0 {
        seq![]
    } else {
        let rest = missing_of(nodes, ids.drop_last());
        if node_path(nodes, ids.last()) is Some {
            rest
        } else {
            rest.push(ids.last())
        }
    }
}

/// `r` answers a `kind` query for `query_id` against the catalog `c`: the
/// neighbours sorted and deduplicated, each resolved against the nodes, the
/// unresolved ones listed again as missing.
pub open spec fn is_relation_of(
    kind: RelationKind,
    query_id: Seq<char>,
    nodes: Seq<NodeV>,
    edges: Seq<(Seq<char>, Seq<char>)>,
    r: RelationResponse,
) -> bool {
    let ids = r.items@.map_values(|it: RelationItem| it.id@);
    &&& r.command == kind
    &&& r.query_id@ == query_id
    &&& r.count == r.items.len()
    &&& strictly_sorted::<String>(ids)
    &&& ids.to_set() == neighbors_of(kind, edges, query_id).to_set()
    &&& forall|k: int| 0 <= k < r.items.len() ==> (#[trigger] r.items@[k])@ == item_for(nodes, ids[k])
    &&& views(r.meta.missing_nodes@) == missing_of(nodes, ids)
}

fn lookup_path(catalog: &Catalog, id: &str) -> (r: Option<String>)
    ensures
        opt_view(r) == node_path(catalog@.nodes, id@),
{
    let mut i: usize = catalog.nodes.len();
    assert(catalog@.nodes.take(i as int) =~= catalog@.nodes);
    while i > 0
        invariant
            i <= catalog.nodes.len(),
            node_path(catalog@.nodes, id@) == node_path(catalog@.nodes.take(i as int), id@),
        decreases i,
    {
        let n = &catalog.nodes[i - 1];
        let ghost t = catalog@.nodes.take(i as int);
        assert(t.drop_last() =~= catalog@.nodes.take(i - 1));
        assert(t.last() == n@);
        if str_equal(n.id.as_str(), id) {
            return Some(n.path.clone());
        }
        i = i - 1;
    }
    None
}

/// Answers a relation query against a catalog and its graph index.
pub fn build_relation(query_id: &str, catalog: &Catalog, graph: &Graph, relation_kind: RelationKind)
    -> (r: RelationResponse)
    requires
        graph@ == catalog@.edges,
        graph.wf(),
    ensures
        is_relation_of(relation_kind, query_id@, catalog@.nodes, catalog@.edges, r),
{
    let raw = relation_kind.resolver(graph, query_id);
    let ids = sort_dedup(raw);
    let mut items: Vec<RelationItem> = Vec::new();
    let mut missing_nodes: Vec<String> = Vec::new();
    let ghost nodes = catalog@.nodes;
    let mut k: usize = 0;
    while k < ids.len()
        invariant
            k <= ids.len(),
            nodes == catalog@.nodes,
            items.len() == k,
            forall|m: int| 0 <= m < k ==> (#[trigger] items@[m])@ == item_for(nodes, ids@[m]@),
            forall|m: int| 0 <= m < k ==> (#[trigger] items@[m]).id@ == ids@[m]@,
            views(missing_nodes@) == missing_of(nodes, views(ids@).take(k as int)),
        decreases ids.len() - k,
    {
        let id = &ids[k];
        let path = lookup_path(catalog, id.as_str());
        let ghost before = views(missing_nodes@);
        proof {
            let t = views(ids@).take(k + 1);
            assert(t.drop_last() =~= views(ids@).take(k as int));
            assert(t.last() == id@);
        }
        let resolved = match &path {
            Some(_) => true,
            None => false,
        };
        assert(opt_view(path) == node_path(nodes, id@));
        assert(resolved == (node_path(nodes, id@) is Some));
        assert(missing_of(nodes, views(ids@).take(k + 1)) == if resolved {
            before
        } else {
            before.push(id@)
        });
        if !resolved {
            missing_nodes.push(id.clone());
            assert(views(missing_nodes@) =~= before.push(id@));
        }
        let item = RelationItem { id: id.clone(), path, resolved };
        assert(item@ == item_for(nodes, ids@[k as int]@));
        items.push(item);
        k = k + 1;
    }
    proof {
        let item_ids = items@.map_values(|it: RelationItem| it.id@);
        assert(item_ids =~= views(ids@));
        assert(views(ids@).take(k as int) =~= views(ids@));
    }
    let count = items.len();
    RelationResponse {
        command: relation_kind,
        query_id: query_id.to_owned(),
        count,
        items,
        meta: RelationMeta { missing_nodes },
    }
}

} // verus!
