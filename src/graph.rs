//! The graph index: forward and reverse neighbours over a catalog's edges.
use crate::catalog::Catalog;
use crate::order::{copy_strings, str_equal, views};
use vstd::prelude::*;

verus! {

/// The targets of the edges that leave `id`, in edge order.
pub open spec fn forward_of(edges: Seq<(Seq<char>, Seq<char>)>, id: Seq<char>) -> Seq<Seq<char>>
    decreases edges.len(),
{
    if edges.len() == 0 {
        seq![]
    } else {
        let rest = forward_of(edges.drop_last(), id);
        if edges.last().0 == id {
            rest.push(edges.last().1)
        } else {
            rest
        }
    }
}

/// The sources of the edges that enter `id`, in edge order.
pub open spec fn reverse_of(edges: Seq<(Seq<char>, Seq<char>)>, id: Seq<char>) -> Seq<Seq<char>>
    decreases edges.len(),
{
    if edges.len() == 0 {
        seq![]
    } else {
        let rest = reverse_of(edges.drop_last(), id);
        if edges.last().1 == id {
            rest.push(edges.last().0)
        } else {
            rest
        }
    }
}

/// The neighbour list of the first entry for `id`; empty where none is.
pub open spec fn lookup(adj: Seq<(Seq<char>, Seq<Seq<char>>)>, id: Seq<char>) -> Seq<Seq<char>>
    decreases adj.len(),
{
    if adj.len() == 0 {
        seq![]
    } else if adj[0].0 == id {
        adj[0].1
    } else {
        lookup(adj.drop_first(), id)
    }
}

/// The position of the first entry for `id`, or the entry count.
pub open spec fn first_index(adj: Seq<(Seq<char>, Seq<Seq<char>>)>, id: Seq<char>) -> int
    decreases adj.len(),
{
    if adj.len() == 0 {
        0
    } else if adj[0].0 == id {
        0
    } else {
        first_index(adj.drop_first(), id) + 1
    }
}

proof fn lemma_first_index(adj: Seq<(Seq<char>, Seq<Seq<char>>)>, id: Seq<char>)
    ensures
        0 <= first_index(adj, id) <= adj.len(),
        first_index(adj, id) < adj.len() ==> adj[first_index(adj, id)].0 == id && lookup(adj, id)
            == adj[first_index(adj, id)].1,
        first_index(adj, id) == adj.len() ==> lookup(adj, id) == Seq::<Seq<char>>::empty(),
        forall|k: int| 0 <= k < first_index(adj, id) ==> (#[trigger] adj[k]).0 != id,
    decreases adj.len(),
{
    if adj.len() > 0 && adj[0].0 != id {
        lemma_first_index(adj.drop_first(), id);
        assert forall|k: int| 0 <= k < first_index(adj, id) implies (#[trigger] adj[k]).0 != id by {
            if k > 0 {
                assert(adj[k] == adj.drop_first()[k - 1]);
            }
        }
    }
}

/// Changing the list of the entry at `p` changes what `lookup` gives for
/// its key alone, provided no earlier entry has that key.
proof fn lemma_lookup_update(
    adj: Seq<(Seq<char>, Seq<Seq<char>>)>,
    p: int,
    list: Seq<Seq<char>>,
    id: Seq<char>,
)
    requires
        0 <= p < adj.len(),
        forall|k: int| 0 <= k < p ==> (#[trigger] adj[k]).0 != adj[p].0,
    ensures
        lookup(adj.update(p, (adj[p].0, list)), id) == if id == adj[p].0 {
            list
        } else {
            lookup(adj, id)
        },
    decreases adj.len(),
{
    let adj2 = adj.update(p, (adj[p].0, list));
    if p == 0 {
        assert(adj2.drop_first() =~= adj.drop_first());
    } else {
        assert(adj2[0] == adj[0]);
        assert(adj2.drop_first() =~= adj.drop_first().update(p - 1, (adj[p].0, list)));
        assert forall|k: int| 0 <= k < p - 1 implies (#[trigger] adj.drop_first()[k]).0 != adj.drop_first()[p - 1].0 by {
            assert(adj.drop_first()[k] == adj[k + 1]);
        }
        lemma_lookup_update(adj.drop_first(), p - 1, list, id);
    }
}

/// Appending an entry for a key that has none yet.
proof fn lemma_lookup_push(
    adj: Seq<(Seq<char>, Seq<Seq<char>>)>,
    entry: (Seq<char>, Seq<Seq<char>>),
    id: Seq<char>,
)
    requires
        forall|k: int| 0 <= k < adj.len() ==> (#[trigger] adj[k]).0 != entry.0,
    ensures
        lookup(adj.push(entry), id) == if id == entry.0 {
            entry.1
        } else {
            lookup(adj, id)
        },
    decreases adj.len(),
{
    if adj.len() > 0 {
        assert(adj.push(entry)[0] == adj[0]);
        assert(adj.push(entry).drop_first() =~= adj.drop_first().push(entry));
        assert forall|k: int| 0 <= k < adj.drop_first().len() implies (#[trigger] adj.drop_first()[k]).0 != entry.0 by {
            assert(adj.drop_first()[k] == adj[k + 1]);
        }
        lemma_lookup_push(adj.drop_first(), entry, id);
    } else {
        assert(adj.push(entry).drop_first() =~= Seq::<(Seq<char>, Seq<Seq<char>>)>::empty());
        assert(adj.push(entry)[0] == entry);
        assert(lookup(Seq::<(Seq<char>, Seq<Seq<char>>)>::empty(), id) == Seq::<Seq<char>>::empty());
    }
}

/// One entry of an adjacency list: an identifier and its neighbours.
#[derive(Debug)]
struct Adjacency {
    id: String,
    neighbors: Vec<String>,
}

impl View for Adjacency {
    type V = (Seq<char>, Seq<Seq<char>>);

    closed spec fn view(&self) -> (Seq<char>, Seq<Seq<char>>) {
        (self.id@, views(self.neighbors@))
    }
}

/// Adds `to` to the neighbours of `from`, creating its entry where needed.
fn add_neighbor(adj: &mut Vec<Adjacency>, from: &String, to: &String)
    ensures
        forall|id: Seq<char>| #[trigger] lookup(views(final(adj)@), id) == if id == from@ {
            lookup(views(old(adj)@), id).push(to@)
        } else {
            lookup(views(old(adj)@), id)
        },
{
    let ghost a = views(adj@);
    proof {
        lemma_first_index(a, from@);
    }
    let mut p: usize = 0;
    while p < adj.len() && !adj[p].id.eq(from)
        invariant
            p <= adj.len(),
            a == views(adj@),
            forall|k: int| 0 <= k < p ==> (#[trigger] a[k]).0 != from@,
        decreases adj.len() - p,
    {
        assert(a[p as int] == adj@[p as int]@);
        p = p + 1;
    }
    if p < adj.len() {
        assert(a[p as int] == adj@[p as int]@);
    }
    if p < adj.len() {
        proof {
            lemma_first_index(a, from@);
            if first_index(a, from@) < p {
                assert(a[first_index(a, from@)].0 == from@);
            }
            if first_index(a, from@) > p {
                assert(a[p as int].0 != from@);
            }
        }
        let mut entry = adj.remove(p);
        let ghost old_list = views(entry.neighbors@);
        entry.neighbors.push(to.clone());
        assert(views(entry.neighbors@) =~= old_list.push(to@));
        adj.insert(p, entry);
        proof {
            assert(views(adj@) =~= a.update(p as int, (from@, old_list.push(to@))));
            assert forall|id: Seq<char>| #[trigger] lookup(views(adj@), id) == if id == from@ {
                lookup(a, id).push(to@)
            } else {
                lookup(a, id)
            } by {
                lemma_lookup_update(a, p as int, old_list.push(to@), id);
            }
        }
    } else {
        let mut neighbors: Vec<String> = Vec::new();
        neighbors.push(to.clone());
        let entry = Adjacency { id: from.clone(), neighbors };
        assert(views(entry.neighbors@) =~= seq![to@]);
        let ghost ev = entry@;
        adj.push(entry);
        proof {
            assert(views(adj@) =~= a.push(ev));
            lemma_first_index(a, from@);
            assert(first_index(a, from@) == a.len()) by {
                if first_index(a, from@) < a.len() {
                    assert(a[first_index(a, from@)].0 == from@);
                }
            }
            assert forall|id: Seq<char>| #[trigger] lookup(views(adj@), id) == if id == from@ {
                lookup(a, id).push(to@)
            } else {
                lookup(a, id)
            } by {
                lemma_lookup_push(a, ev, id);
                assert(seq![to@] =~= Seq::<Seq<char>>::empty().push(to@));
            }
        }
    }
}

fn neighbors_of_entry(adj: &Vec<Adjacency>, id: &str) -> (r: Vec<String>)
    ensures
        views(r@) == lookup(views(adj@), id@),
{
    let ghost a = views(adj@);
    proof {
        lemma_first_index(a, id@);
    }
    let mut p: usize = 0;
    while p < adj.len()
        invariant
            p <= adj.len(),
            a == views(adj@),
            forall|k: int| 0 <= k < p ==> (#[trigger] a[k]).0 != id@,
        decreases adj.len() - p,
    {
        assert(a[p as int] == adj@[p as int]@);
        if str_equal(adj[p].id.as_str(), id) {
            proof {
                lemma_first_index(a, id@);
                if first_index(a, id@) < p {
                    assert(a[first_index(a, id@)].0 == id@);
                }
                if first_index(a, id@) > p {
                    assert(a[p as int].0 != id@);
                }
            }
            return copy_strings(&adj[p].neighbors);
        }
        p = p + 1;
    }
    proof {
        lemma_first_index(a, id@);
        if first_index(a, id@) < a.len() {
            assert(a[first_index(a, id@)].0 == id@);
        }
    }
    Vec::new()
}


/// Forward and reverse adjacency derived from a catalog's edges alone: each
/// identifier with the targets of its edges, and with the sources of the
/// edges that enter it, in edge order.
pub struct Graph {
    edges: Ghost<Seq<(Seq<char>, Seq<char>)>>,
    forward: Vec<Adjacency>,
    reverse: Vec<Adjacency>,
}

impl View for Graph {
    type V = Seq<(Seq<char>, Seq<char>)>;

    closed spec fn view(&self) -> Seq<(Seq<char>, Seq<char>)> {
        self.edges@
    }
}

impl Graph {
    /// The adjacency lists agree with the edges the graph was built from.
    pub closed spec fn wf(&self) -> bool {
        &&& forall|id: Seq<char>| #[trigger] lookup(views(self.forward@), id) == forward_of(self.edges@, id)
        &&& forall|id: Seq<char>| #[trigger] lookup(views(self.reverse@), id) == reverse_of(self.edges@, id)
    }

    /// Builds the index of a catalog; its nodes play no part.
    pub fn from_catalog(catalog: &Catalog) -> (r: Graph)
        ensures
            r@ == catalog@.edges,
            r.wf(),
    {
        let ghost es = catalog@.edges;
        let mut forward: Vec<Adjacency> = Vec::new();
        let mut reverse: Vec<Adjacency> = Vec::new();
        let mut i: usize = 0;
        while i < catalog.edges.len()
            invariant
                i <= catalog.edges.len(),
                es == catalog@.edges,
                forall|id: Seq<char>| #[trigger] lookup(views(forward@), id) == forward_of(es.take(i as int), id),
                forall|id: Seq<char>| #[trigger] lookup(views(reverse@), id) == reverse_of(es.take(i as int), id),
            decreases catalog.edges.len() - i,
        {
            let e = &catalog.edges[i];
            add_neighbor(&mut forward, &e.from, &e.to);
            add_neighbor(&mut reverse, &e.to, &e.from);
            proof {
                let t = es.take(i + 1);
                assert(t.drop_last() =~= es.take(i as int));
                assert(t.last() == e@);
                assert forall|id: Seq<char>| #[trigger] lookup(views(forward@), id) == forward_of(t, id) by {}
                assert forall|id: Seq<char>| #[trigger] lookup(views(reverse@), id) == reverse_of(t, id) by {}
            }
            i = i + 1;
        }
        assert(es.take(i as int) =~= es);
        Graph { edges: Ghost(es), forward, reverse }
    }

    /// The dependencies of `id`; empty where it has none.
    pub fn deps(&self, id: &str) -> (r: Vec<String>)
        requires
            self.wf(),
        ensures
            views(r@) == forward_of(self@, id@),
    {
        let r = neighbors_of_entry(&self.forward, id);
        assert(lookup(views(self.forward@), id@) == forward_of(self.edges@, id@));
        r
    }

    /// The referrers of `id`; empty where it has none.
    pub fn refs(&self, id: &str) -> (r: Vec<String>)
        requires
            self.wf(),
        ensures
            views(r@) == reverse_of(self@, id@),
    {
        let r = neighbors_of_entry(&self.reverse, id);
        assert(lookup(views(self.reverse@), id@) == reverse_of(self.edges@, id@));
        r
    }
}

} // verus!
