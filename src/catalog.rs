//! The catalog data model and the builder that turns parsed records into a
//! canonical catalog.
use crate::order::{
    lemma_opt_less_order, lemma_sorted_unique, lemma_str_less_irreflexive,
    lemma_str_less_total, lemma_str_less_transitive, opt_duplicate, opt_less, opt_precedes,
    opt_same, opt_view, sort_dedup, str_less, str_precedes, strictly_sorted, views, Canonical,
};
use crate::text::{push_char, push_chars};
use vstd::prelude::*;
use vstd::std_specs::iter::IteratorSpec;

verus! {

broadcast use vstd::string::group_string_axioms;

/// One parsed record: what the document parser extracted from one file.
#[derive(Clone, Debug)]
pub struct Entry {
    pub id: String,
    pub deps: Vec<String>,
    pub path: String,
    pub node_type: Option<String>,
    pub domain: Option<String>,
    pub status: Option<String>,
    pub source_of_truth: Option<String>,
}

pub struct EntryV {
    pub id: Seq<char>,
    pub deps: Seq<Seq<char>>,
    pub path: Seq<char>,
    pub node_type: Option<Seq<char>>,
    pub domain: Option<Seq<char>>,
    pub status: Option<Seq<char>>,
    pub source_of_truth: Option<Seq<char>>,
}

impl View for Entry {
    type V = EntryV;

    open spec fn view(&self) -> EntryV {
        EntryV {
            id: self.id@,
            deps: views(self.deps@),
            path: self.path@,
            node_type: opt_view(self.node_type),
            domain: opt_view(self.domain),
            status: opt_view(self.status),
            source_of_truth: opt_view(self.source_of_truth),
        }
    }
}

/// One catalog entry.
#[derive(Debug)]
pub struct Node {
    pub id: String,
    pub path: String,
    pub kind: Option<String>,
    pub domain: Option<String>,
    pub status: Option<String>,
    pub source_of_truth: Option<String>,
}

pub struct NodeV {
    pub id: Seq<char>,
    pub path: Seq<char>,
    pub kind: Option<Seq<char>>,
    pub domain: Option<Seq<char>>,
    pub status: Option<Seq<char>>,
    pub source_of_truth: Option<Seq<char>>,
}

impl View for Node {
    type V = NodeV;

    open spec fn view(&self) -> NodeV {
        NodeV {
            id: self.id@,
            path: self.path@,
            kind: opt_view(self.kind),
            domain: opt_view(self.domain),
            status: opt_view(self.status),
            source_of_truth: opt_view(self.source_of_truth),
        }
    }
}

/// The composite key order of nodes: identifier, path, then the metadata
/// fields, an absent value before a present one.
pub open spec fn node_less(a: NodeV, b: NodeV) -> bool {
    if a.id != b.id {
        str_less(a.id, b.id)
    } else if a.path != b.path {
        str_less(a.path, b.path)
    } else if a.kind != b.kind {
        opt_less(a.kind, b.kind)
    } else if a.domain != b.domain {
        opt_less(a.domain, b.domain)
    } else if a.status != b.status {
        opt_less(a.status, b.status)
    } else {
        opt_less(a.source_of_truth, b.source_of_truth)
    }
}

impl Canonical for Node {
    open spec fn before(a: NodeV, b: NodeV) -> bool {
        node_less(a, b)
    }

    proof fn lemma_before_order(a: NodeV, b: NodeV, c: NodeV) {
        lemma_str_less_irreflexive(a.id);
        lemma_str_less_irreflexive(a.path);
        lemma_opt_less_order(a.kind, b.kind, c.kind);
        lemma_opt_less_order(a.domain, b.domain, c.domain);
        lemma_opt_less_order(a.status, b.status, c.status);
        lemma_opt_less_order(a.source_of_truth, b.source_of_truth, c.source_of_truth);
        lemma_opt_less_order(a.kind, c.kind, b.kind);
        lemma_opt_less_order(a.domain, c.domain, b.domain);
        lemma_opt_less_order(a.status, c.status, b.status);
        lemma_opt_less_order(a.source_of_truth, c.source_of_truth, b.source_of_truth);
        if a.id != b.id {
            lemma_str_less_total(a.id, b.id);
        }
        if a.path != b.path {
            lemma_str_less_total(a.path, b.path);
        }
        if str_less(a.id, b.id) && str_less(b.id, c.id) {
            lemma_str_less_transitive(a.id, b.id, c.id);
        }
        if str_less(a.path, b.path) && str_less(b.path, c.path) {
            lemma_str_less_transitive(a.path, b.path, c.path);
        }
        if a.id == c.id && a.id != b.id {
            lemma_str_less_irreflexive(b.id);
            if str_less(a.id, b.id) && str_less(b.id, c.id) {
                lemma_str_less_transitive(b.id, c.id, b.id);
            }
        }
        if a.path == c.path && a.path != b.path {
            if str_less(a.path, b.path) && str_less(b.path, c.path) {
                lemma_str_less_transitive(b.path, c.path, b.path);
                lemma_str_less_irreflexive(b.path);
            }
        }
        if a != b {
            assert(a.id != b.id || a.path != b.path || a.kind != b.kind || a.domain != b.domain
                || a.status != b.status || a.source_of_truth != b.source_of_truth);
        }
    }

    fn precedes(&self, other: &Node) -> (r: bool) {
        if !self.id.eq(&other.id) {
            str_precedes(self.id.as_str(), other.id.as_str())
        } else if !self.path.eq(&other.path) {
            str_precedes(self.path.as_str(), other.path.as_str())
        } else if !opt_same(&self.kind, &other.kind) {
            opt_precedes(&self.kind, &other.kind)
        } else if !opt_same(&self.domain, &other.domain) {
            opt_precedes(&self.domain, &other.domain)
        } else if !opt_same(&self.status, &other.status) {
            opt_precedes(&self.status, &other.status)
        } else {
            opt_precedes(&self.source_of_truth, &other.source_of_truth)
        }
    }

    fn duplicate(&self) -> (r: Node) {
        Node {
            id: self.id.clone(),
            path: self.path.clone(),
            kind: opt_duplicate(&self.kind),
            domain: opt_duplicate(&self.domain),
            status: opt_duplicate(&self.status),
            source_of_truth: opt_duplicate(&self.source_of_truth),
        }
    }
}

/// One declared dependency, from a record's identifier to a declared one.
#[derive(Debug)]
pub struct Edge {
    pub from: String,
    pub to: String,
}

impl View for Edge {
    type V = (Seq<char>, Seq<char>);

    open spec fn view(&self) -> (Seq<char>, Seq<char>) {
        (self.from@, self.to@)
    }
}

pub open spec fn edge_less(a: (Seq<char>, Seq<char>), b: (Seq<char>, Seq<char>)) -> bool {
    if a.0 != b.0 {
        str_less(a.0, b.0)
    } else {
        str_less(a.1, b.1)
    }
}

impl Canonical for Edge {
    open spec fn before(a: (Seq<char>, Seq<char>), b: (Seq<char>, Seq<char>)) -> bool {
        edge_less(a, b)
    }

    proof fn lemma_before_order(
        a: (Seq<char>, Seq<char>),
        b: (Seq<char>, Seq<char>),
        c: (Seq<char>, Seq<char>),
    ) {
        lemma_str_less_irreflexive(a.1);
        lemma_str_less_irreflexive(b.0);
        if a.0 != b.0 {
            lemma_str_less_total(a.0, b.0);
        }
        if a.1 != b.1 {
            lemma_str_less_total(a.1, b.1);
        }
        if str_less(a.0, b.0) && str_less(b.0, c.0) {
            lemma_str_less_transitive(a.0, b.0, c.0);
        }
        if str_less(a.1, b.1) && str_less(b.1, c.1) {
            lemma_str_less_transitive(a.1, b.1, c.1);
        }
        if a.0 == c.0 && str_less(a.0, b.0) && str_less(b.0, c.0) {
            lemma_str_less_transitive(b.0, c.0, b.0);
        }
    }

    fn precedes(&self, other: &Edge) -> (r: bool) {
        if !self.from.eq(&other.from) {
            str_precedes(self.from.as_str(), other.from.as_str())
        } else {
            str_precedes(self.to.as_str(), other.to.as_str())
        }
    }

    fn duplicate(&self) -> (r: Edge) {
        Edge { from: self.from.clone(), to: self.to.clone() }
    }
}

/// The canonical catalog: nodes and edges, each strictly sorted.
#[derive(Debug)]
pub struct Catalog {
    pub nodes: Vec<Node>,
    pub edges: Vec<Edge>,
}

pub struct CatalogV {
    pub nodes: Seq<NodeV>,
    pub edges: Seq<(Seq<char>, Seq<char>)>,
}

impl View for Catalog {
    type V = CatalogV;

    open spec fn view(&self) -> CatalogV {
        CatalogV { nodes: views(self.nodes@), edges: views(self.edges@) }
    }
}

pub open spec fn is_rooted(p: Seq<char>) -> bool {
    p.len() > 0 && p[0] == '/'
}

/// The effect of one path segment on the parts kept so far: empty and "."
/// segments vanish, ".." takes back the last part where it can (never above
/// the root, and a relative path keeps leading ".." parts), any other segment
/// is kept.
pub open spec fn apply_segment(parts: Seq<Seq<char>>, rooted: bool, seg: Seq<char>) -> Seq<
    Seq<char>,
> {
    if seg.len() == 0 || seg == seq!['.'] {
        parts
    } else if seg == seq!['.', '.'] {
        if rooted {
            if parts.len() > 0 {
                parts.drop_last()
            } else {
                parts
            }
        } else if parts.len() > 0 && parts.last() != seq!['.', '.'] {
            parts.drop_last()
        } else {
            parts.push(seg)
        }
    } else {
        parts.push(seg)
    }
}

/// After the first `n` characters of `p`: the parts kept so far, and the
/// segment still being read.
pub open spec fn scan_path(p: Seq<char>, n: int) -> (Seq<Seq<char>>, Seq<char>)
    decreases n,
{
    if n <= 0 {
        (seq![], seq![])
    } else {
        let (parts, cur) = scan_path(p, n - 1);
        if p[n - 1] == '/' {
            (apply_segment(parts, is_rooted(p), cur), seq![])
        } else {
            (parts, cur.push(p[n - 1]))
        }
    }
}

/// The parts of `p` that remain once "." and ".." segments are resolved.
pub open spec fn path_parts(p: Seq<char>) -> Seq<Seq<char>> {
    let (parts, cur) = scan_path(p, p.len() as int);
    apply_segment(parts, is_rooted(p), cur)
}

/// One character read by the scan, in the state `st`.
pub open spec fn scan_step(st: (Seq<Seq<char>>, Seq<char>), rooted: bool, c: char) -> (
    Seq<Seq<char>>,
    Seq<char>,
) {
    if c == '/' {
        (apply_segment(st.0, rooted, st.1), seq![])
    } else {
        (st.0, st.1.push(c))
    }
}

/// The state after reading the first `k` characters of `q` from `st`.
pub open spec fn scan_from(st: (Seq<Seq<char>>, Seq<char>), rooted: bool, q: Seq<char>, k: int) -> (
    Seq<Seq<char>>,
    Seq<char>,
)
    decreases k,
{
    if k <= 0 {
        st
    } else {
        scan_step(scan_from(st, rooted, q, k - 1), rooted, q[k - 1])
    }
}

proof fn lemma_scan_prefix(p: Seq<char>, q: Seq<char>, n: int)
    requires
        p.len() > 0,
        0 <= n <= p.len(),
    ensures
        scan_path(p + q, n) == scan_path(p, n),
    decreases n,
{
    if n > 0 {
        lemma_scan_prefix(p, q, n - 1);
        assert((p + q)[n - 1] == p[n - 1]);
        assert(is_rooted(p + q) == is_rooted(p)) by {
            assert((p + q)[0] == p[0]);
        }
    }
}

proof fn lemma_scan_continues(p: Seq<char>, q: Seq<char>, k: int)
    requires
        p.len() > 0,
        0 <= k <= q.len(),
    ensures
        scan_path(p + q, p.len() + k) == scan_from(scan_path(p, p.len() as int), is_rooted(p), q, k),
    decreases k,
{
    assert(is_rooted(p + q) == is_rooted(p)) by {
        assert((p + q)[0] == p[0]);
    }
    if k == 0 {
        lemma_scan_prefix(p, q, p.len() as int);
    } else {
        lemma_scan_continues(p, q, k - 1);
        assert((p + q)[p.len() + k - 1] == q[k - 1]);
    }
}

/// Where two texts lead the scan to the same state, anything read after
/// them leads to the same parts.
proof fn lemma_same_state_same_parts(a: Seq<char>, b: Seq<char>, q: Seq<char>)
    requires
        a.len() > 0,
        b.len() > 0,
        is_rooted(a) == is_rooted(b),
        scan_path(a, a.len() as int) == scan_path(b, b.len() as int),
    ensures
        path_parts(a + q) == path_parts(b + q),
        is_rooted(a + q) == is_rooted(b + q),
{
    lemma_scan_continues(a, q, q.len() as int);
    lemma_scan_continues(b, q, q.len() as int);
    assert((a + q).len() == a.len() + q.len());
    assert((b + q).len() == b.len() + q.len());
    assert((a + q)[0] == a[0] && (b + q)[0] == b[0]);
}

/// Paths that differ only in cosmetic form normalize alike: after a
/// non-empty beginning `p`, a "." segment ("/./" for "/") or a doubled
/// separator ("//" for "/") changes nothing.
pub proof fn lemma_cosmetic_forms_normalize_alike(p: Seq<char>, q: Seq<char>)
    requires
        p.len() > 0,
    ensures
        normalized_path(p + seq!['/', '.', '/'] + q) == normalized_path(p + seq!['/'] + q),
        normalized_path(p + seq!['/', '/'] + q) == normalized_path(p + seq!['/'] + q),
{
    let one = p + seq!['/'];
    let dot = p + seq!['/', '.', '/'];
    let two = p + seq!['/', '/'];
    let n = p.len() as int;
    let r = is_rooted(p);
    assert(one[0] == p[0] && dot[0] == p[0] && two[0] == p[0]);
    lemma_scan_prefix(p, seq!['/'], n);
    lemma_scan_prefix(p, seq!['/', '.', '/'], n);
    lemma_scan_prefix(p, seq!['/', '/'], n);
    let st0 = scan_path(p, n);
    let st1 = (apply_segment(st0.0, r, st0.1), Seq::<char>::empty());
    assert(one[n] == '/');
    assert(scan_path(one, n + 1) == st1);
    assert(dot[n] == '/' && dot[n + 1] == '.' && dot[n + 2] == '/');
    assert(scan_path(dot, n + 1) == st1);
    assert(scan_path(dot, n + 2) == (st1.0, seq!['.']));
    assert(seq!['.'] == Seq::<char>::empty().push('.'));
    assert(scan_path(dot, n + 3) == st1);
    assert(two[n] == '/' && two[n + 1] == '/');
    assert(scan_path(two, n + 1) == st1);
    assert(scan_path(two, n + 2) == st1);
    lemma_same_state_same_parts(dot, one, q);
    lemma_same_state_same_parts(two, one, q);
    assert(p + seq!['/', '.', '/'] + q == dot + q);
    assert(p + seq!['/', '/'] + q == two + q);
    assert(p + seq!['/'] + q == one + q);
}

/// The parts joined with "/".
pub open spec fn join_parts(parts: Seq<Seq<char>>) -> Seq<char>
    decreases parts.len(),
{
    if parts.len() == 0 {
        seq![]
    } else if parts.len() == 1 {
        parts[0]
    } else {
        join_parts(parts.drop_last()) + seq!['/'] + parts.last()
    }
}

/// The canonical form of a path: a leading "/" where it is absolute, then
/// its resolved parts joined with "/"; "." where that leaves nothing.
pub open spec fn normalized_path(p: Seq<char>) -> Seq<char> {
    let body = (if is_rooted(p) {
        seq!['/']
    } else {
        seq![]
    }) + join_parts(path_parts(p));
    if body.len() == 0 {
        seq!['.']
    } else {
        body
    }
}

pub open spec fn no_slash(s: Seq<char>) -> bool {
    forall|i: int| 0 <= i < s.len() ==> s[i] != '/'
}

/// The parts that a scan keeps: non-empty, without "/", never ".", never
/// ".." under a root, and ".." only as a leading run.
pub open spec fn parts_well_formed(parts: Seq<Seq<char>>, rooted: bool) -> bool {
    &&& forall|i: int|
        0 <= i < parts.len() ==> (#[trigger] parts[i]).len() > 0 && no_slash(parts[i]) && parts[i]
            != seq!['.']
    &&& forall|i: int| 0 <= i < parts.len() && rooted ==> #[trigger] parts[i] != seq!['.', '.']
    &&& forall|i: int, j: int|
        0 <= i < j < parts.len() && #[trigger] parts[j] == seq!['.', '.'] ==> #[trigger] parts[i]
            == seq!['.', '.']
}

proof fn lemma_apply_keeps_well_formed(parts: Seq<Seq<char>>, rooted: bool, seg: Seq<char>)
    requires
        parts_well_formed(parts, rooted),
        no_slash(seg),
    ensures
        parts_well_formed(apply_segment(parts, rooted, seg), rooted),
{
    let r = apply_segment(parts, rooted, seg);
    if seg.len() == 0 || seg == seq!['.'] {
    } else if seg == seq!['.', '.'] {
        if rooted {
            if parts.len() > 0 {
                assert forall|i: int| 0 <= i < r.len() implies #[trigger] r[i] == parts[i] by {}
            }
        } else if parts.len() > 0 && parts.last() != seq!['.', '.'] {
            assert forall|i: int| 0 <= i < r.len() implies #[trigger] r[i] == parts[i] by {}
        } else {
            assert forall|i: int| 0 <= i < r.len() - 1 implies #[trigger] r[i] == seq!['.', '.'] by {
                assert(parts[parts.len() - 1] == seq!['.', '.']);
                assert(r[i] == parts[i]);
            }
        }
    } else {
        assert(r.last() == seg);
    }
}

proof fn lemma_scan_well_formed(p: Seq<char>, n: int)
    requires
        0 <= n <= p.len(),
    ensures
        parts_well_formed(scan_path(p, n).0, is_rooted(p)),
        no_slash(scan_path(p, n).1),
    decreases n,
{
    if n > 0 {
        lemma_scan_well_formed(p, n - 1);
        let (parts, cur) = scan_path(p, n - 1);
        if p[n - 1] == '/' {
            lemma_apply_keeps_well_formed(parts, is_rooted(p), cur);
        } else {
            assert(no_slash(cur.push(p[n - 1])));
        }
    }
}

proof fn lemma_scan_from_plain(
    st: (Seq<Seq<char>>, Seq<char>),
    rooted: bool,
    x: Seq<char>,
    k: int,
)
    requires
        no_slash(x),
        0 <= k <= x.len(),
    ensures
        scan_from(st, rooted, x, k) == (st.0, st.1 + x.take(k)),
    decreases k,
{
    if k == 0 {
        assert(st.1 + x.take(0) =~= st.1);
    } else {
        lemma_scan_from_plain(st, rooted, x, k - 1);
        assert(st.1 + x.take(k) =~= (st.1 + x.take(k - 1)).push(x[k - 1]));
    }
}

proof fn lemma_scan_from_prefix(
    st: (Seq<Seq<char>>, Seq<char>),
    rooted: bool,
    a: Seq<char>,
    b: Seq<char>,
    k: int,
)
    requires
        0 <= k <= a.len(),
    ensures
        scan_from(st, rooted, a + b, k) == scan_from(st, rooted, a, k),
    decreases k,
{
    if k > 0 {
        lemma_scan_from_prefix(st, rooted, a, b, k - 1);
        assert((a + b)[k - 1] == a[k - 1]);
    }
}

proof fn lemma_scan_from_concat(
    st: (Seq<Seq<char>>, Seq<char>),
    rooted: bool,
    a: Seq<char>,
    b: Seq<char>,
    k: int,
)
    requires
        0 <= k <= b.len(),
    ensures
        scan_from(st, rooted, a + b, a.len() + k) == scan_from(
            scan_from(st, rooted, a, a.len() as int),
            rooted,
            b,
            k,
        ),
    decreases k,
{
    if k == 0 {
        lemma_scan_from_prefix(st, rooted, a, b, a.len() as int);
    } else {
        lemma_scan_from_concat(st, rooted, a, b, k - 1);
        assert((a + b)[a.len() + k - 1] == b[k - 1]);
    }
}

proof fn lemma_scan_path_is_scan_from(p: Seq<char>, n: int)
    requires
        0 <= n <= p.len(),
    ensures
        scan_path(p, n) == scan_from((Seq::<Seq<char>>::empty(), Seq::<char>::empty()), is_rooted(p), p, n),
    decreases n,
{
    if n > 0 {
        lemma_scan_path_is_scan_from(p, n - 1);
    }
}

proof fn lemma_apply_appends(ps: Seq<Seq<char>>, rooted: bool, x: Seq<char>)
    requires
        parts_well_formed(ps.push(x), rooted),
    ensures
        apply_segment(ps, rooted, x) == ps.push(x),
{
    let full = ps.push(x);
    assert(full[ps.len() as int] == x);
    if x == seq!['.', '.'] {
        if ps.len() > 0 {
            assert(full[ps.len() - 1] == seq!['.', '.']);
            assert(ps.last() == full[ps.len() - 1]);
        }
    }
}

proof fn lemma_well_formed_prefix(ps: Seq<Seq<char>>, rooted: bool, n: int)
    requires
        parts_well_formed(ps, rooted),
        0 <= n <= ps.len(),
    ensures
        parts_well_formed(ps.take(n), rooted),
{
    let t = ps.take(n);
    assert forall|i: int| 0 <= i < t.len() implies #[trigger] t[i] == ps[i] by {}
}

proof fn lemma_join_first(ps: Seq<Seq<char>>)
    requires
        ps.len() > 0,
        ps[0].len() > 0,
    ensures
        join_parts(ps).len() > 0,
        join_parts(ps)[0] == ps[0][0],
    decreases ps.len(),
{
    if ps.len() > 1 {
        lemma_join_first(ps.drop_last());
    }
}

/// Scanning the joined parts rebuilds them: all but the last are kept, and
/// the last is the segment still being read.
proof fn lemma_scan_join(ps: Seq<Seq<char>>, rooted: bool)
    requires
        ps.len() > 0,
        parts_well_formed(ps, rooted),
    ensures
        scan_from((Seq::<Seq<char>>::empty(), Seq::<char>::empty()), rooted, join_parts(ps), join_parts(ps).len() as int)
            == (ps.drop_last(), ps.last()),
    decreases ps.len(),
{
    let e = (Seq::<Seq<char>>::empty(), Seq::<char>::empty());
    if ps.len() == 1 {
        lemma_scan_from_plain(e, rooted, ps[0], ps[0].len() as int);
        assert(Seq::<char>::empty() + ps[0].take(ps[0].len() as int) =~= ps[0]);
        assert(ps.drop_last() =~= Seq::<Seq<char>>::empty());
    } else {
        let init = ps.drop_last();
        let last = ps.last();
        assert(init =~= ps.take(ps.len() - 1));
        lemma_well_formed_prefix(ps, rooted, ps.len() - 1);
        lemma_scan_join(init, rooted);
        let a = join_parts(init);
        let b = seq!['/'] + last;
        assert(join_parts(ps) =~= a + b);
        lemma_scan_from_concat(e, rooted, a, b, b.len() as int);
        let st = (init.drop_last(), init.last());
        assert(init.drop_last().push(init.last()) =~= init);
        lemma_apply_appends(init.drop_last(), rooted, init.last());
        let st1 = (init, Seq::<char>::empty());
        assert(scan_from(st, rooted, b, 1) == st1) by {
            assert(scan_from(st, rooted, b, 0) == st);
            assert(b[0] == '/');
        }
        assert(b =~= seq!['/'] + last);
        assert(no_slash(last)) by {
            assert(ps[ps.len() - 1] == last);
        }
        lemma_scan_from_concat(st, rooted, seq!['/'], last, last.len() as int);
        assert(scan_from(st, rooted, seq!['/'], 1) == st1) by {
            assert(scan_from(st, rooted, seq!['/'], 0) == st);
            assert(seq!['/'][0] == '/');
        }
        lemma_scan_from_plain(st1, rooted, last, last.len() as int);
        assert(Seq::<char>::empty() + last.take(last.len() as int) =~= last);
    }
}

/// Normalizing a normalized path changes nothing.
pub proof fn lemma_normalize_idempotent(p: Seq<char>)
    ensures
        normalized_path(normalized_path(p)) == normalized_path(p),
{
    let parts = path_parts(p);
    let r = is_rooted(p);
    let n = normalized_path(p);
    let e = (Seq::<Seq<char>>::empty(), Seq::<char>::empty());
    lemma_scan_well_formed(p, p.len() as int);
    let (ps0, cur0) = scan_path(p, p.len() as int);
    lemma_apply_keeps_well_formed(ps0, r, cur0);
    assert(parts_well_formed(parts, r));
    let lead = if r {
        seq!['/']
    } else {
        Seq::<char>::empty()
    };
    let body = lead + join_parts(parts);
    if body.len() == 0 {
        assert(n == seq!['.']);
        assert(scan_path(n, 1) == (Seq::<Seq<char>>::empty(), seq!['.'])) by {
            assert(scan_path(n, 0) == (Seq::<Seq<char>>::empty(), Seq::<char>::empty()));
            assert(n[0] == '.');
            assert(seq!['.'] =~= Seq::<char>::empty().push('.'));
        }
        assert(path_parts(n) =~= Seq::<Seq<char>>::empty());
        assert(!is_rooted(n));
        return ;
    }
    assert(n == body);
    if parts.len() > 0 {
        assert(parts[0].len() > 0);
        lemma_join_first(parts);
    }
    if r {
        let j = join_parts(parts);
        assert(n =~= seq!['/'] + j);
        assert(is_rooted(n));
        lemma_scan_path_is_scan_from(n, n.len() as int);
        lemma_scan_from_concat(e, true, seq!['/'], j, j.len() as int);
        assert(scan_from(e, true, seq!['/'], 1) == e) by {
            assert(scan_from(e, true, seq!['/'], 0) == e);
            assert(seq!['/'][0] == '/');
            assert(apply_segment(e.0, true, e.1) == e.0);
        }
        if parts.len() == 0 {
            assert(j.len() == 0);
            assert(path_parts(n) =~= parts);
        } else {
            lemma_scan_join(parts, true);
            assert(parts.drop_last().push(parts.last()) =~= parts);
            lemma_apply_appends(parts.drop_last(), true, parts.last());
            assert(path_parts(n) == parts);
        }
    } else {
        assert(parts.len() > 0);
        let j = join_parts(parts);
        assert(n =~= j);
        assert(parts[0][0] != '/') by {
            assert(no_slash(parts[0]));
        }
        assert(!is_rooted(n));
        lemma_scan_path_is_scan_from(n, n.len() as int);
        lemma_scan_join(parts, false);
        assert(parts.drop_last().push(parts.last()) =~= parts);
        lemma_apply_appends(parts.drop_last(), false, parts.last());
        assert(path_parts(n) == parts);
    }
}

/// A normalized path is never empty.
pub proof fn lemma_normalized_nonempty(p: Seq<char>)
    ensures
        normalized_path(p).len() > 0,
{
}

/// Whether a segment is "." (one dot) or ".." (two dots).
fn is_dot_segment(seg: &Vec<char>, dots: usize) -> (r: bool)
    requires
        1 <= dots <= 2,
    ensures
        r == (seg@ == Seq::new(dots as nat, |_i: int| '.')),
{
    let r = seg.len() == dots && seg[0] == '.' && (dots == 1 || seg[1] == '.');
    proof {
        if seg.len() == dots {
            assert(r ==> seg@ =~= Seq::new(dots as nat, |_i: int| '.'));
        }
    }
    r
}

fn apply_segment_exec(parts: &mut Vec<Vec<char>>, rooted: bool, seg: Vec<char>)
    ensures
        views(final(parts)@) == apply_segment(views(old(parts)@), rooted, seg@),
{
    assert(Seq::new(1, |_i: int| '.') =~= seq!['.']);
    assert(Seq::new(2, |_i: int| '.') =~= seq!['.', '.']);
    let ghost before = parts@;
    if seg.len() == 0 || is_dot_segment(&seg, 1) {
        return ;
    }
    if is_dot_segment(&seg, 2) {
        if rooted {
            if parts.len() > 0 {
                parts.pop();
                assert(views(parts@) =~= views(before).drop_last());
            }
        } else if parts.len() > 0 && !is_dot_segment(&parts[parts.len() - 1], 2) {
            parts.pop();
            assert(views(parts@) =~= views(before).drop_last());
        } else {
            let ghost sv = seg@;
            parts.push(seg);
            assert(views(parts@) =~= views(before).push(sv));
        }
    } else {
        let ghost sv = seg@;
        parts.push(seg);
        assert(views(parts@) =~= views(before).push(sv));
    }
}

/// Normalizes a path: "." segments dropped, ".." resolved against the parts
/// before it, segments joined with "/"; an empty result is ".".
///
/// The path is read as on Unix systems: "/" is the only separator and a
/// leading "/" is the root; there is no drive prefix.
pub fn normalize_path_string(path: &str) -> (r: String)
    ensures
        r@ == normalized_path(path@),
{
    let ghost p = path@;
    let rooted = match path.chars().next() {
        Some(c) => c == '/',
        None => false,
    };
    let mut parts: Vec<Vec<char>> = Vec::new();
    let mut cur: Vec<char> = Vec::new();
    let mut it = path.chars();
    let ghost mut i: int = 0;
    assert(p.skip(0) =~= p);
    loop
        invariant
            0 <= i <= p.len(),
            rooted == is_rooted(p),
            it.remaining() == p.skip(i),
            (views(parts@), cur@) == scan_path(p, i),
        ensures
            i == p.len(),
            (views(parts@), cur@) == scan_path(p, i),
        decreases p.len() - i,
    {
        let ghost rest = p.skip(i);
        match it.next() {
            None => {
                assert(rest.len() == 0);
                break;
            },
            Some(c) => {
                assert(rest.len() > 0);
                assert(rest.drop_first() =~= p.skip(i + 1));
                assert(p[i] == c);
                if c == '/' {
                    let seg = cur;
                    cur = Vec::new();
                    apply_segment_exec(&mut parts, rooted, seg);
                } else {
                    cur.push(c);
                }
                proof {
                    i = i + 1;
                }
            },
        }
    }
    assert(i == p.len());
    apply_segment_exec(&mut parts, rooted, cur);
    let mut out = String::new();
    if rooted {
        push_char(&mut out, '/');
    }
    let ghost lead = out@;
    let mut k: usize = 0;
    while k < parts.len()
        invariant
            k <= parts.len(),
            views(parts@) == path_parts(p),
            lead == (if rooted {
                seq!['/']
            } else {
                seq![]
            }),
            out@ == lead + join_parts(views(parts@).take(k as int)),
        decreases parts.len() - k,
    {
        proof {
            let t = views(parts@).take(k + 1);
            assert(t.drop_last() =~= views(parts@).take(k as int));
            assert(t.last() == parts@[k as int]@);
            if k == 0 {
                assert(t =~= seq![parts@[0]@]);
            }
        }
        if k > 0 {
            push_char(&mut out, '/');
        }
        push_chars(&mut out, &parts[k]);
        k = k + 1;
    }
    assert(views(parts@).take(k as int) =~= views(parts@));
    if out.as_str().is_empty() {
        push_char(&mut out, '.');
    }
    out
}

/// The node that a record gives.
pub open spec fn node_of(e: EntryV) -> NodeV {
    NodeV {
        id: e.id,
        path: normalized_path(e.path),
        kind: e.node_type,
        domain: e.domain,
        status: e.status,
        source_of_truth: e.source_of_truth,
    }
}

/// The nodes that a record set gives, one per record.
pub open spec fn entry_nodes(es: Seq<EntryV>) -> Set<NodeV> {
    Set::new(|n: NodeV| exists|i: int| 0 <= i < es.len() && n == node_of(#[trigger] es[i]))
}

/// The edges that a record set declares: each record's identifier to each of
/// its dependencies.
pub open spec fn entry_edges(es: Seq<EntryV>) -> Set<(Seq<char>, Seq<char>)> {
    Set::new(
        |e: (Seq<char>, Seq<char>)|
            exists|i: int, j: int|
                0 <= i < es.len() && 0 <= j < es[i].deps.len() && e == (
                #[trigger] es[i].id,
                #[trigger] es[i].deps[j],
            ),
    )
}

/// `c` is the canonical catalog of the records `es`: its nodes and edges are
/// those the records give, each list strictly sorted (so sorted, with no
/// value twice).
pub open spec fn is_catalog_of(es: Seq<EntryV>, c: CatalogV) -> bool {
    &&& strictly_sorted::<Node>(c.nodes)
    &&& c.nodes.to_set() == entry_nodes(es)
    &&& strictly_sorted::<Edge>(c.edges)
    &&& c.edges.to_set() == entry_edges(es)
}

impl Catalog {
    /// Builds the canonical catalog of a record set: one node per record with
    /// its path normalized, one edge per declared dependency, both sorted and
    /// deduplicated.
    pub fn from_entries(entries: &Vec<Entry>) -> (r: Catalog)
        ensures
            is_catalog_of(views(entries@), r@),
    {
        let ghost es = views(entries@);
        let mut nodes: Vec<Node> = Vec::new();
        let mut i: usize = 0;
        while i < entries.len()
            invariant
                i <= entries.len(),
                es == views(entries@),
                views(nodes@).to_set() == Set::new(
                    |n: NodeV| exists|k: int| 0 <= k < i && n == node_of(#[trigger] es[k]),
                ),
            decreases entries.len() - i,
        {
            let e = &entries[i];
            let node = Node {
                id: e.id.clone(),
                path: normalize_path_string(e.path.as_str()),
                kind: opt_duplicate(&e.node_type),
                domain: opt_duplicate(&e.domain),
                status: opt_duplicate(&e.status),
                source_of_truth: opt_duplicate(&e.source_of_truth),
            };
            let ghost before = views(nodes@);
            let ghost nv = node@;
            assert(nv == node_of(es[i as int]));
            nodes.push(node);
            proof {
                assert(views(nodes@) =~= before.push(nv));
                assert forall|n: NodeV| views(nodes@).contains(n) <==> (exists|k: int|
                    0 <= k < i + 1 && n == node_of(#[trigger] es[k])) by {
                    if views(nodes@).contains(n) {
                        let m = choose|m: int| 0 <= m < views(nodes@).len() && views(nodes@)[m] == n;
                        if m < before.len() {
                            assert(before.to_set().contains(n));
                        }
                    }
                    if exists|k: int| 0 <= k < i + 1 && n == node_of(#[trigger] es[k]) {
                        let k = choose|k: int| 0 <= k < i + 1 && n == node_of(#[trigger] es[k]);
                        if k < i {
                            assert(before.to_set().contains(n));
                            let m = choose|m: int| 0 <= m < before.len() && before[m] == n;
                            assert(views(nodes@)[m] == n);
                        } else {
                            assert(views(nodes@)[before.len() as int] == n);
                        }
                    }
                }
                assert(views(nodes@).to_set() =~= Set::new(
                    |n: NodeV| exists|k: int| 0 <= k < i + 1 && n == node_of(#[trigger] es[k]),
                ));
            }
            i = i + 1;
        }
        assert(views(nodes@).to_set() =~= entry_nodes(es));
        let nodes = sort_dedup(nodes);

        let mut edges: Vec<Edge> = Vec::new();
        let mut i: usize = 0;
        while i < entries.len()
            invariant
                i <= entries.len(),
                es == views(entries@),
                views(edges@).to_set() == Set::new(
                    |e: (Seq<char>, Seq<char>)|
                        exists|a: int, b: int|
                            0 <= a < i && 0 <= b < es[a].deps.len() && e == (
                            #[trigger] es[a].id,
                            #[trigger] es[a].deps[b],
                        ),
                ),
            decreases entries.len() - i,
        {
            let e = &entries[i];
            let mut j: usize = 0;
            while j < e.deps.len()
                invariant
                    i < entries.len(),
                    e == entries[i as int],
                    j <= e.deps.len(),
                    es == views(entries@),
                    views(edges@).to_set() == Set::new(
                        |x: (Seq<char>, Seq<char>)|
                            exists|a: int, b: int|
                                0 <= a < es.len() && 0 <= b < es[a].deps.len() && (a < i || (a
                                    == i && b < j)) && x == (
                                #[trigger] es[a].id,
                                #[trigger] es[a].deps[b],
                            ),
                    ),
                decreases e.deps.len() - j,
            {
                let edge = Edge { from: e.id.clone(), to: e.deps[j].clone() };
                let ghost before = views(edges@);
                let ghost ev = edge@;
                assert(ev == (es[i as int].id, es[i as int].deps[j as int]));
                edges.push(edge);
                proof {
                    assert(views(edges@) =~= before.push(ev));
                    let target = Set::new(
                        |x: (Seq<char>, Seq<char>)|
                            exists|a: int, b: int|
                                0 <= a < es.len() && 0 <= b < es[a].deps.len() && (a < i || (a
                                    == i && b < j + 1)) && x == (
                                #[trigger] es[a].id,
                                #[trigger] es[a].deps[b],
                            ),
                    );
                    assert forall|x: (Seq<char>, Seq<char>)|
                        views(edges@).contains(x) <==> target.contains(x) by {
                        if views(edges@).contains(x) {
                            let m = choose|m: int|
                                0 <= m < views(edges@).len() && views(edges@)[m] == x;
                            if m < before.len() {
                                assert(before.to_set().contains(x));
                            }
                        }
                        if target.contains(x) {
                            let (a, b) = choose|a: int, b: int|
                                0 <= a < es.len() && 0 <= b < es[a].deps.len() && (a < i || (a
                                    == i && b < j + 1)) && x == (
                                #[trigger] es[a].id,
                                #[trigger] es[a].deps[b],
                            );
                            if a < i || b < j {
                                assert(before.to_set().contains(x));
                                let m = choose|m: int| 0 <= m < before.len() && before[m] == x;
                                assert(views(edges@)[m] == x);
                            } else {
                                assert(views(edges@)[before.len() as int] == x);
                            }
                        }
                    }
                    assert(views(edges@).to_set() =~= target);
                }
                j = j + 1;
            }
            proof {
                let s1 = Set::new(
                    |x: (Seq<char>, Seq<char>)|
                        exists|a: int, b: int|
                            0 <= a < es.len() && 0 <= b < es[a].deps.len() && (a < i || (a == i
                                && b < j)) && x == (
                            #[trigger] es[a].id,
                            #[trigger] es[a].deps[b],
                        ),
                );
                let s2 = Set::new(
                    |x: (Seq<char>, Seq<char>)|
                        exists|a: int, b: int|
                            0 <= a < i + 1 && 0 <= b < es[a].deps.len() && x == (
                            #[trigger] es[a].id,
                            #[trigger] es[a].deps[b],
                        ),
                );
                assert(es[i as int].deps.len() == j);
                assert forall|x: (Seq<char>, Seq<char>)| s1.contains(x) <==> s2.contains(x) by {
                    if s2.contains(x) {
                        let (a, b) = choose|a: int, b: int|
                            0 <= a < i + 1 && 0 <= b < es[a].deps.len() && x == (
                            #[trigger] es[a].id,
                            #[trigger] es[a].deps[b],
                        );
                        assert(a < es.len());
                    }
                }
                assert(s1 =~= s2);
            }
            i = i + 1;
        }
        assert(views(edges@).to_set() =~= entry_edges(es));
        let edges = sort_dedup(edges);
        Catalog { nodes, edges }
    }
}

/// The catalog built from a record set does not depend on the order of the
/// records: two arrangements of the same records give the same catalog.
pub proof fn lemma_catalog_order_independent(
    a: Seq<EntryV>,
    b: Seq<EntryV>,
    ca: CatalogV,
    cb: CatalogV,
)
    requires
        a.to_multiset() == b.to_multiset(),
        is_catalog_of(a, ca),
        is_catalog_of(b, cb),
    ensures
        ca == cb,
{
    a.to_multiset_ensures();
    b.to_multiset_ensures();
    assert forall|e: EntryV| a.contains(e) <==> b.contains(e) by {
        assert(a.contains(e) <==> a.to_multiset().count(e) > 0);
        assert(b.contains(e) <==> b.to_multiset().count(e) > 0);
    }
    assert forall|n: NodeV| entry_nodes(a).contains(n) <==> entry_nodes(b).contains(n) by {
        if entry_nodes(a).contains(n) {
            let i = choose|i: int| 0 <= i < a.len() && n == node_of(#[trigger] a[i]);
            assert(a.contains(a[i]));
            let k = choose|k: int| 0 <= k < b.len() && b[k] == a[i];
            assert(n == node_of(b[k]));
        }
        if entry_nodes(b).contains(n) {
            let i = choose|i: int| 0 <= i < b.len() && n == node_of(#[trigger] b[i]);
            assert(b.contains(b[i]));
            let k = choose|k: int| 0 <= k < a.len() && a[k] == b[i];
            assert(n == node_of(a[k]));
        }
    }
    assert forall|x: (Seq<char>, Seq<char>)| entry_edges(a).contains(x) <==> entry_edges(
        b,
    ).contains(x) by {
        if entry_edges(a).contains(x) {
            let (i, j) = choose|i: int, j: int|
                0 <= i < a.len() && 0 <= j < a[i].deps.len() && x == (
                #[trigger] a[i].id,
                #[trigger] a[i].deps[j],
            );
            assert(a.contains(a[i]));
            let k = choose|k: int| 0 <= k < b.len() && b[k] == a[i];
            assert(x == (b[k].id, b[k].deps[j]));
        }
        if entry_edges(b).contains(x) {
            let (i, j) = choose|i: int, j: int|
                0 <= i < b.len() && 0 <= j < b[i].deps.len() && x == (
                #[trigger] b[i].id,
                #[trigger] b[i].deps[j],
            );
            assert(b.contains(b[i]));
            let k = choose|k: int| 0 <= k < a.len() && a[k] == b[i];
            assert(x == (a[k].id, a[k].deps[j]));
        }
    }
    assert(entry_nodes(a) =~= entry_nodes(b));
    assert(entry_edges(a) =~= entry_edges(b));
    lemma_sorted_unique::<Node>(ca.nodes, cb.nodes);
    lemma_sorted_unique::<Edge>(ca.edges, cb.edges);
}

} // verus!
