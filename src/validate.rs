//! The validation engine: duplicate identifiers, unresolved dependencies and
//! dependency cycles among parsed records.
use crate::catalog::{Entry, EntryV};
use crate::order::{
    copy_strings, lemma_sorted_unique, lemma_str_less_irreflexive, lemma_str_less_total,
    lemma_str_less_transitive, sort_dedup, sort_keep, sorted_by, str_equal, str_less,
    str_precedes, strictly_sorted, views, Canonical,
};
use crate::text::push_text;
use vstd::prelude::*;

verus! {

/// An identifier carried by two or more records, with their paths.
#[derive(Debug)]
pub struct DuplicateId {
    pub id: String,
    pub paths: Vec<String>,
}

pub struct DuplicateIdV {
    pub id: Seq<char>,
    pub paths: Seq<Seq<char>>,
}

impl View for DuplicateId {
    type V = DuplicateIdV;

    open spec fn view(&self) -> DuplicateIdV {
        DuplicateIdV { id: self.id@, paths: views(self.paths@) }
    }
}

/// A declared dependency on an identifier that no record carries.
#[derive(Debug)]
pub struct UnresolvedDependency {
    pub from_id: String,
    pub to_id: String,
    pub path: String,
}

pub struct UnresolvedV {
    pub from_id: Seq<char>,
    pub to_id: Seq<char>,
    pub path: Seq<char>,
}

impl View for UnresolvedDependency {
    type V = UnresolvedV;

    open spec fn view(&self) -> UnresolvedV {
        UnresolvedV { from_id: self.from_id@, to_id: self.to_id@, path: self.path@ }
    }
}

/// Findings are ordered by the declaring identifier, then its path, then the
/// missing identifier.
pub open spec fn unresolved_less(a: UnresolvedV, b: UnresolvedV) -> bool {
    if a.from_id != b.from_id {
        str_less(a.from_id, b.from_id)
    } else if a.path != b.path {
        str_less(a.path, b.path)
    } else {
        str_less(a.to_id, b.to_id)
    }
}

impl Canonical for UnresolvedDependency {
    open spec fn before(a: UnresolvedV, b: UnresolvedV) -> bool {
        unresolved_less(a, b)
    }

    proof fn lemma_before_order(a: UnresolvedV, b: UnresolvedV, c: UnresolvedV) {
        lemma_str_less_irreflexive(a.to_id);
        lemma_str_less_irreflexive(b.from_id);
        lemma_str_less_irreflexive(b.path);
        if a.from_id != b.from_id {
            lemma_str_less_total(a.from_id, b.from_id);
        }
        if a.path != b.path {
            lemma_str_less_total(a.path, b.path);
        }
        if a.to_id != b.to_id {
            lemma_str_less_total(a.to_id, b.to_id);
        }
        if str_less(a.from_id, b.from_id) && str_less(b.from_id, c.from_id) {
            lemma_str_less_transitive(a.from_id, b.from_id, c.from_id);
        }
        if str_less(a.path, b.path) && str_less(b.path, c.path) {
            lemma_str_less_transitive(a.path, b.path, c.path);
        }
        if str_less(a.to_id, b.to_id) && str_less(b.to_id, c.to_id) {
            lemma_str_less_transitive(a.to_id, b.to_id, c.to_id);
        }
        if a.from_id == c.from_id && str_less(a.from_id, b.from_id) && str_less(
            b.from_id,
            c.from_id,
        ) {
            lemma_str_less_transitive(b.from_id, c.from_id, b.from_id);
        }
        if a.path == c.path && str_less(a.path, b.path) && str_less(b.path, c.path) {
            lemma_str_less_transitive(b.path, c.path, b.path);
        }
    }

    fn precedes(&self, other: &UnresolvedDependency) -> (r: bool) {
        if !self.from_id.eq(&other.from_id) {
            str_precedes(self.from_id.as_str(), other.from_id.as_str())
        } else if !self.path.eq(&other.path) {
            str_precedes(self.path.as_str(), other.path.as_str())
        } else {
            str_precedes(self.to_id.as_str(), other.to_id.as_str())
        }
    }

    fn duplicate(&self) -> (r: UnresolvedDependency) {
        UnresolvedDependency {
            from_id: self.from_id.clone(),
            to_id: self.to_id.clone(),
            path: self.path.clone(),
        }
    }
}

/// A set of identifiers that depend on each other in a circle, sorted.
#[derive(Debug)]
pub struct DependencyCycle {
    pub ids: Vec<String>,
}

impl View for DependencyCycle {
    type V = Seq<Seq<char>>;

    open spec fn view(&self) -> Seq<Seq<char>> {
        views(self.ids@)
    }
}

/// All the findings of one validation run.
#[derive(Debug)]
pub struct ValidationReport {
    pub duplicate_ids: Vec<DuplicateId>,
    pub unresolved_dependencies: Vec<UnresolvedDependency>,
    pub dependency_cycles: Vec<DependencyCycle>,
}

impl ValidationReport {
    /// Whether the report holds no finding at all.
    pub fn is_empty(&self) -> (r: bool)
        ensures
            r == (self.duplicate_ids.len() == 0 && self.unresolved_dependencies.len() == 0
                && self.dependency_cycles.len() == 0),
    {
        self.duplicate_ids.len() == 0 && self.unresolved_dependencies.len() == 0
            && self.dependency_cycles.len() == 0
    }
}

/// A failed validation, carrying the complete report.
#[derive(Debug)]
pub struct ValidationError {
    report: ValidationReport,
}

impl ValidationError {
    pub closed spec fn spec_report(&self) -> &ValidationReport {
        &self.report
    }

    /// The report that made validation fail.
    pub fn report(&self) -> (r: &ValidationReport)
        ensures
            r == self.spec_report(),
    {
        &self.report
    }
}

/// Whether some record carries `id`.
pub open spec fn known(es: Seq<EntryV>, id: Seq<char>) -> bool {
    exists|i: int| 0 <= i < es.len() && (#[trigger] es[i]).id == id
}

/// Two distinct records carry `id`.
pub open spec fn repeated(es: Seq<EntryV>, id: Seq<char>) -> bool {
    exists|i: int, j: int|
        0 <= i < es.len() && 0 <= j < es.len() && i != j && (#[trigger] es[i]).id == id && (
        #[trigger] es[j]).id == id
}

/// The raw paths of the records that carry `id`.
pub open spec fn paths_of(es: Seq<EntryV>, id: Seq<char>) -> Set<Seq<char>> {
    Set::new(
        |p: Seq<char>| exists|i: int| 0 <= i < es.len() && (#[trigger] es[i]).id == id && es[i].path == p,
    )
}

/// `r` lists the duplicate identifiers of `es`: one group per repeated
/// identifier, ordered by identifier, each with its sorted, deduplicated
/// paths.
pub open spec fn is_duplicates_of(es: Seq<EntryV>, r: Seq<DuplicateIdV>) -> bool {
    let ids = r.map_values(|d: DuplicateIdV| d.id);
    &&& strictly_sorted::<String>(ids)
    &&& ids.to_set() == Set::new(|id: Seq<char>| repeated(es, id))
    &&& forall|k: int|
        0 <= k < r.len() ==> strictly_sorted::<String>((#[trigger] r[k]).paths) && r[k].paths.to_set()
            == paths_of(es, r[k].id)
}

/// Record `e` gives finding `u`: `u` names the record's identifier and path
/// and one of its declared dependencies that no record carries.
pub open spec fn record_gives(es: Seq<EntryV>, e: EntryV, u: UnresolvedV) -> bool {
    u.from_id == e.id && u.path == e.path && e.deps.contains(u.to_id) && !known(es, u.to_id)
}

/// How many of the first `n` records give finding `u`: each record gives a
/// missing dependency once, however often it declares it.
pub open spec fn finding_count(es: Seq<EntryV>, u: UnresolvedV, n: int) -> nat
    decreases n,
{
    if n <= 0 {
        0
    } else {
        finding_count(es, u, n - 1) + if record_gives(es, es[n - 1], u) {
            1nat
        } else {
            0nat
        }
    }
}

/// The missing dependencies of `es`: the findings that some record gives.
pub open spec fn unresolved_of(es: Seq<EntryV>) -> Set<UnresolvedV> {
    Set::new(|u: UnresolvedV| exists|i: int| 0 <= i < es.len() && record_gives(es, #[trigger] es[i], u))
}

proof fn lemma_finding_count_positive(es: Seq<EntryV>, u: UnresolvedV, n: int)
    requires
        0 <= n <= es.len(),
    ensures
        finding_count(es, u, n) > 0 <==> exists|i: int| 0 <= i < n && record_gives(es, #[trigger] es[i], u),
    decreases n,
{
    if n > 0 {
        lemma_finding_count_positive(es, u, n - 1);
        if finding_count(es, u, n) > 0 && !record_gives(es, es[n - 1], u) {
            let i = choose|i: int| 0 <= i < n - 1 && record_gives(es, #[trigger] es[i], u);
        }
        if exists|i: int| 0 <= i < n && record_gives(es, #[trigger] es[i], u) {
            let i = choose|i: int| 0 <= i < n && record_gives(es, #[trigger] es[i], u);
            if i < n - 1 {
                assert(finding_count(es, u, n - 1) > 0);
            }
        }
    }
}

/// The identifiers that the records carry, sorted and deduplicated.
fn known_ids(entries: &Vec<Entry>) -> (r: Vec<String>)
    ensures
        strictly_sorted::<String>(views(r@)),
        forall|id: Seq<char>| views(r@).contains(id) <==> known(views(entries@), id),
{
    let ghost es = views(entries@);
    let mut all: Vec<String> = Vec::new();
    let mut i: usize = 0;
    while i < entries.len()
        invariant
            i <= entries.len(),
            es == views(entries@),
            views(all@) == es.take(i as int).map_values(|e: EntryV| e.id),
        decreases entries.len() - i,
    {
        let ghost before = views(all@);
        all.push(entries[i].id.clone());
        assert(views(all@) =~= before.push(es[i as int].id));
        assert(es.take(i + 1) =~= es.take(i as int).push(es[i as int]));
        i = i + 1;
        assert(views(all@) =~= es.take(i as int).map_values(|e: EntryV| e.id));
    }
    assert(es.take(i as int) =~= es);
    let r = sort_dedup(all);
    assert forall|id: Seq<char>| views(r@).contains(id) <==> known(es, id) by {
        assert(views(r@).to_set().contains(id) == views(r@).contains(id));
        if known(es, id) {
            let k = choose|k: int| 0 <= k < es.len() && (#[trigger] es[k]).id == id;
            assert(views(all@)[k] == id);
            assert(views(all@).to_set().contains(id));
        }
        if views(all@).contains(id) {
            let k = choose|k: int| 0 <= k < views(all@).len() && views(all@)[k] == id;
            assert(es[k].id == id);
        }
    }
    r
}

/// Groups the records by identifier and reports each identifier that two or
/// more records carry.
fn find_duplicate_ids(entries: &Vec<Entry>) -> (r: Vec<DuplicateId>)
    ensures
        is_duplicates_of(views(entries@), views(r@)),
{
    let ghost es = views(entries@);
    let ids = known_ids(entries);
    let mut out: Vec<DuplicateId> = Vec::new();
    let ghost mut src: Seq<int> = seq![];
    let mut k: usize = 0;
    while k < ids.len()
        invariant
            k <= ids.len(),
            es == views(entries@),
            strictly_sorted::<String>(views(ids@)),
            forall|id: Seq<char>| views(ids@).contains(id) <==> known(es, id),
            strictly_sorted::<String>(views(out@).map_values(|d: DuplicateIdV| d.id)),
            src.len() == out.len(),
            forall|m: int|
                0 <= m < out.len() ==> 0 <= #[trigger] src[m] < k && out@[m].id@ == views(ids@)[src[m]],
            forall|m: int|
                0 <= m < out.len() ==> strictly_sorted::<String>((#[trigger] views(out@)[m]).paths)
                    && views(out@)[m].paths.to_set() == paths_of(es, views(out@)[m].id)
                    && repeated(es, views(out@)[m].id),
            forall|q: int|
                0 <= q < k && repeated(es, #[trigger] views(ids@)[q]) ==> views(out@).map_values(
                    |d: DuplicateIdV| d.id,
                ).contains(views(ids@)[q]),
        decreases ids.len() - k,
    {
        let id = &ids[k];
        let mut paths: Vec<String> = Vec::new();
        let mut seen: usize = 0;
        let ghost mut first: int = 0;
        let mut i: usize = 0;
        while i < entries.len()
            invariant
                i <= entries.len(),
                es == views(entries@),
                seen <= 2,
                views(paths@).to_set() == Set::new(
                    |p: Seq<char>|
                        exists|a: int| 0 <= a < i && (#[trigger] es[a]).id == id@ && es[a].path == p,
                ),
                seen == 0 ==> forall|a: int| 0 <= a < i ==> (#[trigger] es[a]).id != id@,
                seen == 1 ==> 0 <= first < i && es[first].id == id@ && forall|a: int|
                    0 <= a < i && a != first ==> (#[trigger] es[a]).id != id@,
                seen == 2 ==> repeated(es, id@),
            decreases entries.len() - i,
        {
            let e = &entries[i];
            if e.id.eq(id) {
                let ghost before = views(paths@);
                paths.push(e.path.clone());
                proof {
                    assert(views(paths@) =~= before.push(e.path@));
                    let target = Set::new(
                        |p: Seq<char>|
                            exists|a: int| 0 <= a < i + 1 && (#[trigger] es[a]).id == id@ && es[a].path == p,
                    );
                    assert forall|p: Seq<char>| views(paths@).contains(p) <==> target.contains(p) by {
                        if views(paths@).contains(p) {
                            let m = choose|m: int| 0 <= m < views(paths@).len() && views(paths@)[m] == p;
                            if m < before.len() {
                                assert(before.to_set().contains(p));
                            } else {
                                assert(es[i as int].path == p);
                            }
                        }
                        if target.contains(p) {
                            let a = choose|a: int| 0 <= a < i + 1 && (#[trigger] es[a]).id == id@ && es[a].path == p;
                            if a < i {
                                assert(before.to_set().contains(p));
                                let m = choose|m: int| 0 <= m < before.len() && before[m] == p;
                                assert(views(paths@)[m] == p);
                            } else {
                                assert(views(paths@)[before.len() as int] == p);
                            }
                        }
                    }
                    assert(views(paths@).to_set() =~= target);
                    if seen == 1 {
                        assert(es[first].id == id@ && es[i as int].id == id@);
                    }
                    if seen == 0 {
                        first = i as int;
                    }
                }
                if seen < 2 {
                    seen = seen + 1;
                }
            } else {
                proof {
                    let target = Set::new(
                        |p: Seq<char>|
                            exists|a: int| 0 <= a < i + 1 && (#[trigger] es[a]).id == id@ && es[a].path == p,
                    );
                    assert(views(paths@).to_set() =~= target);
                }
            }
            i = i + 1;
        }
        proof {
            assert(es.take(i as int) =~= es);
            if seen < 2 {
                assert(!repeated(es, id@));
            }
        }
        let ghost out_before = views(out@);
        let ghost raw_before = out@;
        if seen == 2 {
            let ghost before = views(out@);
            let sorted = sort_dedup(paths);
            let d = DuplicateId { id: id.clone(), paths: sorted };
            assert(views(sorted@).to_set() =~= paths_of(es, id@));
            out.push(d);
            proof {
                let ids_new = views(out@).map_values(|x: DuplicateIdV| x.id);
                let ids_old = before.map_values(|x: DuplicateIdV| x.id);
                assert(views(out@) =~= before.push(d@));
                assert(ids_new =~= ids_old.push(id@));
                assert forall|a: int, b: int| 0 <= a < b < ids_new.len() implies String::before(
                    #[trigger] ids_new[a],
                    #[trigger] ids_new[b],
                ) by {
                    if b == ids_new.len() - 1 {
                        let q = src[a];
                        assert(String::before(views(ids@)[q], views(ids@)[k as int]));
                    }
                }
            }
        }
        proof {
            let ids_new = views(out@).map_values(|x: DuplicateIdV| x.id);
            let ids_old = out_before.map_values(|x: DuplicateIdV| x.id);
            assert(out@.len() >= raw_before.len());
            assert forall|m: int| 0 <= m < raw_before.len() implies out@[m] == raw_before[m] by {}
            if out@.len() > raw_before.len() {
                src = src.push(k as int);
            }
            assert forall|q: int| 0 <= q < k + 1 && repeated(es, #[trigger] views(ids@)[q]) implies ids_new.contains(views(ids@)[q]) by {
                if q < k {
                    assert(ids_old.contains(views(ids@)[q]));
                    let m = choose|m: int| 0 <= m < ids_old.len() && ids_old[m] == views(ids@)[q];
                    assert(ids_new[m] == ids_old[m]);
                } else {
                    assert(ids_new[ids_new.len() - 1] == views(ids@)[q]);
                }
            }
        }
        k = k + 1;
    }
    proof {
        let ids_out = views(out@).map_values(|d: DuplicateIdV| d.id);
        assert forall|id: Seq<char>| ids_out.contains(id) <==> repeated(es, id) by {
            if ids_out.contains(id) {
                let m = choose|m: int| 0 <= m < ids_out.len() && ids_out[m] == id;
                assert(views(out@)[m].id == id);
            }
            if repeated(es, id) {
                let (a, b) = choose|a: int, b: int|
                    0 <= a < es.len() && 0 <= b < es.len() && a != b && (#[trigger] es[a]).id == id
                        && (#[trigger] es[b]).id == id;
                assert(known(es, id));
                let q = choose|q: int| 0 <= q < views(ids@).len() && views(ids@)[q] == id;
                assert(repeated(es, views(ids@)[q]));
            }
        }
        assert(ids_out.to_set() =~= Set::new(|id: Seq<char>| repeated(es, id)));
    }
    out
}

/// Reports, for each record in turn, each missing identifier among its
/// declared dependencies once. The findings are ordered by declaring
/// identifier, then path, then missing identifier; findings of records that
/// share identifier and path are each kept.
fn find_unresolved_dependencies(entries: &Vec<Entry>) -> (r: Vec<UnresolvedDependency>)
    ensures
        sorted_by::<UnresolvedDependency>(views(r@)),
        forall|u: UnresolvedV| #[trigger] views(r@).to_multiset().count(u) == finding_count(
            views(entries@),
            u,
            entries.len() as int,
        ),
{
    broadcast use vstd::multiset::group_multiset_axioms;

    let ghost es = views(entries@);
    let ids = known_ids(entries);
    let mut found: Vec<UnresolvedDependency> = Vec::new();
    proof {
        views(found@).to_multiset_ensures();
        vstd::multiset::lemma_multiset_empty_len(views(found@).to_multiset());
    }
    let mut i: usize = 0;
    while i < entries.len()
        invariant
            i <= entries.len(),
            es == views(entries@),
            strictly_sorted::<String>(views(ids@)),
            forall|id: Seq<char>| views(ids@).contains(id) <==> known(es, id),
            forall|u: UnresolvedV| #[trigger] views(found@).to_multiset().count(u) == finding_count(es, u, i as int),
        decreases entries.len() - i,
    {
        let e = &entries[i];
        let ds = sort_dedup(copy_strings(&e.deps));
        let ghost ev = es[i as int];
        let mut j: usize = 0;
        while j < ds.len()
            invariant
                i < entries.len(),
                e == entries[i as int],
                ev == es[i as int],
                j <= ds.len(),
                es == views(entries@),
                strictly_sorted::<String>(views(ids@)),
                forall|id: Seq<char>| views(ids@).contains(id) <==> known(es, id),
                strictly_sorted::<String>(views(ds@)),
                views(ds@).to_set() == ev.deps.to_set(),
                forall|u: UnresolvedV| #[trigger] views(found@).to_multiset().count(u) == finding_count(es, u, i as int) + if u.from_id == ev.id && u.path == ev.path && !known(es, u.to_id) && exists|k: int| 0 <= k < j && views(ds@)[k] == u.to_id {
                    1nat
                } else {
                    0nat
                },
            decreases ds.len() - j,
        {
            let d = &ds[j];
            let missing = match index_of(&ids, d.as_str()) {
                Some(k) => {
                    assert(views(ids@)[k as int] == d@);
                    false
                },
                None => true,
            };
            let ghost before = views(found@);
            assert(views(ds@)[j as int] == d@);
            if missing {
                let f = UnresolvedDependency {
                    from_id: e.id.clone(),
                    to_id: d.clone(),
                    path: e.path.clone(),
                };
                let ghost fv = f@;
                found.push(f);
                proof {
                    assert(views(found@) =~= before.push(fv));
                    vstd::seq_lib::to_multiset_build(before, fv);
                    assert forall|u: UnresolvedV| #[trigger] views(found@).to_multiset().count(u) == finding_count(es, u, i as int) + if u.from_id == ev.id && u.path == ev.path && !known(es, u.to_id) && exists|k: int| 0 <= k < j + 1 && views(ds@)[k] == u.to_id {
                        1nat
                    } else {
                        0nat
                    } by {
                        if u == fv {
                            if exists|k: int| 0 <= k < j && views(ds@)[k] == u.to_id {
                                let k = choose|k: int| 0 <= k < j && views(ds@)[k] == u.to_id;
                                String::lemma_before_order(views(ds@)[k], views(ds@)[j as int], views(ds@)[k]);
                            }
                        } else if exists|k: int| 0 <= k < j + 1 && views(ds@)[k] == u.to_id {
                            let k = choose|k: int| 0 <= k < j + 1 && views(ds@)[k] == u.to_id;
                            if u.from_id == ev.id && u.path == ev.path {
                                assert(k < j);
                            }
                        }
                    }
                }
            } else {
                proof {
                    assert(known(es, d@));
                    assert forall|u: UnresolvedV| #[trigger] views(found@).to_multiset().count(u) == finding_count(es, u, i as int) + if u.from_id == ev.id && u.path == ev.path && !known(es, u.to_id) && exists|k: int| 0 <= k < j + 1 && views(ds@)[k] == u.to_id {
                        1nat
                    } else {
                        0nat
                    } by {
                        if exists|k: int| 0 <= k < j + 1 && views(ds@)[k] == u.to_id {
                            let k = choose|k: int| 0 <= k < j + 1 && views(ds@)[k] == u.to_id;
                            if !known(es, u.to_id) {
                                assert(k < j);
                            }
                        }
                    }
                }
            }
            j = j + 1;
        }
        proof {
            assert forall|u: UnresolvedV| #[trigger] views(found@).to_multiset().count(u) == finding_count(es, u, i + 1) by {
                let part = u.from_id == ev.id && u.path == ev.path && !known(es, u.to_id) && exists|k: int| 0 <= k < j && views(ds@)[k] == u.to_id;
                assert(part == record_gives(es, ev, u)) by {
                    if part {
                        let k = choose|k: int| 0 <= k < j && views(ds@)[k] == u.to_id;
                        assert(views(ds@).to_set().contains(u.to_id));
                    }
                    if record_gives(es, ev, u) {
                        assert(ev.deps.to_set().contains(u.to_id));
                        assert(views(ds@).contains(u.to_id));
                    }
                }
            }
        }
        i = i + 1;
    }
    sort_keep(found)
}

/// A dependency edge between known identifiers: some record carrying `a`
/// declares `b`, and some record carries `b`.
pub open spec fn dep_edge(es: Seq<EntryV>, a: Seq<char>, b: Seq<char>) -> bool {
    &&& known(es, b)
    &&& exists|i: int, j: int|
        0 <= i < es.len() && 0 <= j < es[i].deps.len() && (#[trigger] es[i]).id == a
            && #[trigger] es[i].deps[j] == b
}

/// A walk along dependency edges.
pub open spec fn is_walk(es: Seq<EntryV>, w: Seq<Seq<char>>) -> bool {
    &&& w.len() >= 1
    &&& forall|k: int| 0 <= k < w.len() - 1 ==> dep_edge(es, #[trigger] w[k], w[k + 1])
}

/// Some walk leads from `a` to `b` (every identifier reaches itself).
pub open spec fn reaches(es: Seq<EntryV>, a: Seq<char>, b: Seq<char>) -> bool {
    exists|w: Seq<Seq<char>>| is_walk(es, w) && w[0] == a && w.last() == b
}

/// `u` lies in the strongly connected component of `v`.
pub open spec fn in_scc(es: Seq<EntryV>, v: Seq<char>, u: Seq<char>) -> bool {
    known(es, v) && known(es, u) && reaches(es, v, u) && reaches(es, u, v)
}

/// The component of `v` is a cycle: it has another member, or `v` depends
/// on itself.
pub open spec fn on_cycle(es: Seq<EntryV>, v: Seq<char>) -> bool {
    &&& known(es, v)
    &&& (exists|u: Seq<char>| u != v && in_scc(es, v, u)) || dep_edge(es, v, v)
}

/// `c` is the sorted member list of a cycle of `es`.
pub open spec fn is_cycle_list(es: Seq<EntryV>, c: Seq<Seq<char>>) -> bool {
    exists|v: Seq<char>|
        on_cycle(es, v) && strictly_sorted::<String>(c) && c.to_set() == Set::new(
            |u: Seq<char>| in_scc(es, v, u),
        )
}

pub proof fn lemma_reaches_self(es: Seq<EntryV>, a: Seq<char>)
    ensures
        reaches(es, a, a),
{
    let w = seq![a];
    assert(is_walk(es, w) && w[0] == a && w.last() == a);
}

pub proof fn lemma_reaches_step(es: Seq<EntryV>, a: Seq<char>, b: Seq<char>, c: Seq<char>)
    requires
        reaches(es, a, b),
        dep_edge(es, b, c),
    ensures
        reaches(es, a, c),
{
    let w = choose|w: Seq<Seq<char>>| is_walk(es, w) && w[0] == a && w.last() == b;
    let w2 = w.push(c);
    assert forall|k: int| 0 <= k < w2.len() - 1 implies dep_edge(es, #[trigger] w2[k], w2[k + 1]) by {
        if k < w.len() - 1 {
            assert(w2[k] == w[k] && w2[k + 1] == w[k + 1]);
        }
    }
    assert(is_walk(es, w2) && w2[0] == a && w2.last() == c);
}

/// A set closed under dependency edges holds everything its members reach.
pub proof fn lemma_closed_holds_reached(
    es: Seq<EntryV>,
    s: Seq<Seq<char>>,
    a: Seq<char>,
    b: Seq<char>,
)
    requires
        s.contains(a),
        forall|x: Seq<char>, y: Seq<char>| s.contains(x) && #[trigger] dep_edge(es, x, y) ==> s.contains(y),
        reaches(es, a, b),
    ensures
        s.contains(b),
{
    let w = choose|w: Seq<Seq<char>>| is_walk(es, w) && w[0] == a && w.last() == b;
    lemma_walk_stays_in(es, s, w, w.len() - 1);
}

proof fn lemma_walk_stays_in(es: Seq<EntryV>, s: Seq<Seq<char>>, w: Seq<Seq<char>>, k: int)
    requires
        is_walk(es, w),
        s.contains(w[0]),
        forall|x: Seq<char>, y: Seq<char>| s.contains(x) && #[trigger] dep_edge(es, x, y) ==> s.contains(y),
        0 <= k < w.len(),
    ensures
        s.contains(w[k]),
    decreases k,
{
    if k > 0 {
        lemma_walk_stays_in(es, s, w, k - 1);
        assert(dep_edge(es, w[k - 1], w[k]));
    }
}

proof fn lemma_distinct_within<A>(v: Seq<A>, k: Seq<A>)
    requires
        v.no_duplicates(),
        forall|x: A| v.contains(x) ==> k.contains(x),
    ensures
        v.len() <= k.len(),
{
    broadcast use vstd::seq_lib::seq_to_set_is_finite;

    v.unique_seq_to_set();
    k.lemma_cardinality_of_set();
    assert(v.to_set().subset_of(k.to_set()));
    vstd::set_lib::lemma_len_subset(v.to_set(), k.to_set());
}


/// The position of `s` among strictly sorted identifiers, if it is there.
fn index_of(ids: &Vec<String>, s: &str) -> (r: Option<usize>)
    requires
        strictly_sorted::<String>(views(ids@)),
    ensures
        match r {
            Some(k) => k < ids.len() && ids@[k as int]@ == s@,
            None => !views(ids@).contains(s@),
        },
{
    let ghost v = views(ids@);
    let mut lo: usize = 0;
    let mut hi: usize = ids.len();
    while lo < hi
        invariant
            lo <= hi <= ids.len(),
            v == views(ids@),
            strictly_sorted::<String>(v),
            forall|k: int| 0 <= k < lo ==> String::before(#[trigger] v[k], s@),
            forall|k: int| hi <= k < v.len() ==> String::before(s@, #[trigger] v[k]),
        decreases hi - lo,
    {
        let mid = lo + (hi - lo) / 2;
        assert(v[mid as int] == ids@[mid as int]@);
        if str_precedes(ids[mid].as_str(), s) {
            proof {
                assert forall|k: int| 0 <= k < mid + 1 implies String::before(#[trigger] v[k], s@) by {
                    if k < mid {
                        String::lemma_before_order(v[k], v[mid as int], s@);
                    }
                }
            }
            lo = mid + 1;
        } else if str_precedes(s, ids[mid].as_str()) {
            proof {
                assert forall|k: int| mid <= k < v.len() implies String::before(s@, #[trigger] v[k]) by {
                    if k > mid {
                        String::lemma_before_order(s@, v[mid as int], v[k]);
                    }
                }
            }
            hi = mid;
        } else {
            proof {
                String::lemma_before_order(v[mid as int], s@, v[mid as int]);
            }
            return Some(mid);
        }
    }
    proof {
        if v.contains(s@) {
            let k = choose|k: int| 0 <= k < v.len() && v[k] == s@;
            String::lemma_before_order(s@, s@, s@);
        }
    }
    None
}

/// The successors of each known identifier, as positions in `ids`.
fn successor_lists(entries: &Vec<Entry>, ids: &Vec<String>) -> (r: Vec<Vec<usize>>)
    requires
        strictly_sorted::<String>(views(ids@)),
        forall|id: Seq<char>| views(ids@).contains(id) <==> known(views(entries@), id),
    ensures
        r.len() == ids.len(),
        forall|a: int, b: usize|
            0 <= a < r.len() ==> (#[trigger] r@[a]@.contains(b) <==> (b < ids.len() && dep_edge(
                views(entries@),
                ids@[a]@,
                ids@[b as int]@,
            ))),
{
    let ghost es = views(entries@);
    let mut succ: Vec<Vec<usize>> = Vec::new();
    let mut a: usize = 0;
    while a < ids.len()
        invariant
            a <= ids.len(),
            es == views(entries@),
            strictly_sorted::<String>(views(ids@)),
            forall|id: Seq<char>| views(ids@).contains(id) <==> known(es, id),
            succ.len() == a,
            forall|x: int, b: usize|
                0 <= x < a ==> (#[trigger] succ@[x]@.contains(b) <==> (b < ids.len() && dep_edge(
                    es,
                    ids@[x]@,
                    ids@[b as int]@,
                ))),
        decreases ids.len() - a,
    {
        let from = &ids[a];
        let mut list: Vec<usize> = Vec::new();
        let mut i: usize = 0;
        while i < entries.len()
            invariant
                a < ids.len(),
                from == ids@[a as int],
                i <= entries.len(),
                es == views(entries@),
                strictly_sorted::<String>(views(ids@)),
                forall|id: Seq<char>| views(ids@).contains(id) <==> known(es, id),
                forall|b: usize|
                    #[trigger] list@.contains(b) <==> (b < ids.len() && exists|x: int, y: int|
                        0 <= x < i && 0 <= y < es[x].deps.len() && (#[trigger] es[x]).id == from@
                            && #[trigger] es[x].deps[y] == ids@[b as int]@),
            decreases entries.len() - i,
        {
            let e = &entries[i];
            if e.id.eq(from) {
                let mut j: usize = 0;
                while j < e.deps.len()
                    invariant
                        a < ids.len(),
                        from == ids@[a as int],
                        i < entries.len(),
                        e == entries[i as int],
                        e.id@ == from@,
                        j <= e.deps.len(),
                        es == views(entries@),
                        strictly_sorted::<String>(views(ids@)),
                        forall|id: Seq<char>| views(ids@).contains(id) <==> known(es, id),
                        forall|b: usize|
                            #[trigger] list@.contains(b) <==> (b < ids.len() && exists|x: int, y: int|
                                0 <= x < es.len() && 0 <= y < es[x].deps.len() && (x < i || (x == i
                                    && y < j)) && (#[trigger] es[x]).id == from@
                                    && #[trigger] es[x].deps[y] == ids@[b as int]@),
                    decreases e.deps.len() - j,
                {
                    let found = index_of(ids, e.deps[j].as_str());
                    let ghost before = list@;
                    match found {
                        Some(b) => {
                            list.push(b);
                            proof {
                                assert(es[i as int].deps[j as int] == ids@[b as int]@);
                                assert forall|c: usize| #[trigger] list@.contains(c) <==> (c < ids.len() && exists|x: int, y: int|
                                    0 <= x < es.len() && 0 <= y < es[x].deps.len() && (x < i || (x == i
                                        && y < j + 1)) && (#[trigger] es[x]).id == from@
                                        && #[trigger] es[x].deps[y] == ids@[c as int]@) by {
                                    if list@.contains(c) && c != b {
                                        let q = choose|q: int| 0 <= q < list@.len() && list@[q] == c;
                                        assert(before[q] == c);
                                        assert(before.contains(c));
                                    }
                                    if c == b {
                                        assert(list@[list@.len() - 1] == c);
                                    } else if c < ids.len() && exists|x: int, y: int|
                                        0 <= x < es.len() && 0 <= y < es[x].deps.len() && (x < i || (x == i
                                            && y < j + 1)) && (#[trigger] es[x]).id == from@
                                            && #[trigger] es[x].deps[y] == ids@[c as int]@ {
                                        let (x, y) = choose|x: int, y: int|
                                            0 <= x < es.len() && 0 <= y < es[x].deps.len() && (x < i || (x == i
                                                && y < j + 1)) && (#[trigger] es[x]).id == from@
                                                && #[trigger] es[x].deps[y] == ids@[c as int]@;
                                        if x == i && y == j {
                                            assert(ids@[c as int]@ == ids@[b as int]@);
                                            assert(views(ids@)[c as int] == views(ids@)[b as int]);
                                            if c < b {
                                                String::lemma_before_order(views(ids@)[c as int], views(ids@)[b as int], views(ids@)[c as int]);
                                            } else if b < c {
                                                String::lemma_before_order(views(ids@)[b as int], views(ids@)[c as int], views(ids@)[b as int]);
                                            }
                                        }
                                        assert(before.contains(c));
                                        let q = choose|q: int| 0 <= q < before.len() && before[q] == c;
                                        assert(list@[q] == c);
                                    }
                                }
                            }
                        },
                        None => {
                            proof {
                                assert forall|c: usize| #[trigger] list@.contains(c) <==> (c < ids.len() && exists|x: int, y: int|
                                    0 <= x < es.len() && 0 <= y < es[x].deps.len() && (x < i || (x == i
                                        && y < j + 1)) && (#[trigger] es[x]).id == from@
                                        && #[trigger] es[x].deps[y] == ids@[c as int]@) by {
                                    if c < ids.len() && exists|x: int, y: int|
                                        0 <= x < es.len() && 0 <= y < es[x].deps.len() && (x < i || (x == i
                                            && y < j + 1)) && (#[trigger] es[x]).id == from@
                                            && #[trigger] es[x].deps[y] == ids@[c as int]@ {
                                        let (x, y) = choose|x: int, y: int|
                                            0 <= x < es.len() && 0 <= y < es[x].deps.len() && (x < i || (x == i
                                                && y < j + 1)) && (#[trigger] es[x]).id == from@
                                                && #[trigger] es[x].deps[y] == ids@[c as int]@;
                                        if x == i && y == j {
                                            assert(views(ids@)[c as int] == e.deps@[j as int]@);
                                        }
                                    }
                                }
                            }
                        },
                    }
                    j = j + 1;
                }
            } else {
                proof {
                    assert forall|c: usize| #[trigger] list@.contains(c) <==> (c < ids.len() && exists|x: int, y: int|
                        0 <= x < i + 1 && 0 <= y < es[x].deps.len() && (#[trigger] es[x]).id == from@
                            && #[trigger] es[x].deps[y] == ids@[c as int]@) by {
                        if c < ids.len() && exists|x: int, y: int|
                            0 <= x < i + 1 && 0 <= y < es[x].deps.len() && (#[trigger] es[x]).id == from@
                                && #[trigger] es[x].deps[y] == ids@[c as int]@ {
                            let (x, y) = choose|x: int, y: int|
                                0 <= x < i + 1 && 0 <= y < es[x].deps.len() && (#[trigger] es[x]).id == from@
                                    && #[trigger] es[x].deps[y] == ids@[c as int]@;
                            assert(x < i);
                        }
                    }
                }
            }
            proof {
                assert forall|c: usize| #[trigger] list@.contains(c) <==> (c < ids.len() && exists|x: int, y: int|
                    0 <= x < i + 1 && 0 <= y < es[x].deps.len() && (#[trigger] es[x]).id == from@
                        && #[trigger] es[x].deps[y] == ids@[c as int]@) by {
                    if c < ids.len() && exists|x: int, y: int|
                        0 <= x < i + 1 && 0 <= y < es[x].deps.len() && (#[trigger] es[x]).id == from@
                            && #[trigger] es[x].deps[y] == ids@[c as int]@ {
                        let (x, y) = choose|x: int, y: int|
                            0 <= x < i + 1 && 0 <= y < es[x].deps.len() && (#[trigger] es[x]).id == from@
                                && #[trigger] es[x].deps[y] == ids@[c as int]@;
                        assert(x < es.len());
                    }
                }
            }
            i = i + 1;
        }
        proof {
            assert forall|b: usize| #[trigger] list@.contains(b) <==> (b < ids.len() && dep_edge(
                es,
                ids@[a as int]@,
                ids@[b as int]@,
            )) by {
                if b < ids.len() {
                    assert(views(ids@)[b as int] == ids@[b as int]@);
                    assert(views(ids@).contains(ids@[b as int]@));
                }
            }
        }
        succ.push(list);
        a = a + 1;
    }
    succ
}


/// Marks the identifiers that `ids[start]` reaches along dependency edges,
/// searching over the successor lists.
fn reach_marks(
    entries: &Vec<Entry>,
    ids: &Vec<String>,
    succ: &Vec<Vec<usize>>,
    start: usize,
) -> (r: Vec<bool>)
    requires
        strictly_sorted::<String>(views(ids@)),
        start < ids.len(),
        succ.len() == ids.len(),
        forall|id: Seq<char>| views(ids@).contains(id) <==> known(views(entries@), id),
        forall|a: int, b: usize|
            0 <= a < succ.len() ==> (#[trigger] succ@[a]@.contains(b) <==> (b < ids.len() && dep_edge(
                views(entries@),
                ids@[a]@,
                ids@[b as int]@,
            ))),
    ensures
        r.len() == ids.len(),
        forall|m: int| 0 <= m < ids.len() ==> (#[trigger] r@[m] <==> reaches(views(entries@), ids@[start as int]@, ids@[m]@)),
{
    let ghost es = views(entries@);
    let ghost src = ids@[start as int]@;
    let n = ids.len();
    let mut seen: Vec<bool> = Vec::new();
    let mut k: usize = 0;
    while k < n
        invariant
            k <= n,
            seen.len() == k,
            forall|m: int| 0 <= m < k ==> !(#[trigger] seen@[m]),
        decreases n - k,
    {
        seen.push(false);
        k = k + 1;
    }
    let mut order: Vec<usize> = Vec::new();
    order.push(start);
    seen.set(start, true);
    proof {
        lemma_reaches_self(es, src);
        assert forall|m: int| 0 <= m < n implies (#[trigger] seen@[m] <==> order@.contains(m as usize)) by {
            if m == start {
                assert(order@[0] == start);
            } else if order@.contains(m as usize) {
                let q = choose|q: int| 0 <= q < order@.len() && order@[q] == m as usize;
            }
        }
    }
    let ghost all = Seq::new(n as nat, |i: int| i as usize);
    let mut done: usize = 0;
    while done < order.len()
        invariant
            n == ids.len(),
            succ.len() == n,
            es == views(entries@),
            src == ids@[start as int]@,
            start < n,
            all == Seq::new(n as nat, |i: int| i as usize),
            strictly_sorted::<String>(views(ids@)),
            forall|id: Seq<char>| views(ids@).contains(id) <==> known(es, id),
            forall|a: int, b: usize|
                0 <= a < succ.len() ==> (#[trigger] succ@[a]@.contains(b) <==> (b < ids.len() && dep_edge(
                    es,
                    ids@[a]@,
                    ids@[b as int]@,
                ))),
            seen.len() == n,
            order.len() >= 1,
            order@[0] == start,
            order@.no_duplicates(),
            order.len() <= n,
            done <= order.len(),
            forall|q: int| 0 <= q < order.len() ==> (#[trigger] order@[q]) < n,
            forall|m: int| 0 <= m < n ==> (#[trigger] seen@[m] <==> order@.contains(m as usize)),
            forall|q: int| 0 <= q < order.len() ==> reaches(es, src, ids@[#[trigger] order@[q] as int]@),
            forall|q: int, b: usize|
                0 <= q < done && #[trigger] succ@[order@[q] as int]@.contains(b) ==> seen@[b as int],
        decreases n - done,
    {
        let u = order[done];
        let list = &succ[u];
        proof {
            assert forall|x: int| 0 <= x < list.len() implies (#[trigger] list@[x]) < n by {
                assert(succ@[u as int]@.contains(list@[x]));
            }
        }
        let mut i: usize = 0;
        while i < list.len()
            invariant
                n == ids.len(),
                succ.len() == n,
                es == views(entries@),
                src == ids@[start as int]@,
                all == Seq::new(n as nat, |i: int| i as usize),
                forall|a: int, b: usize|
                    0 <= a < succ.len() ==> (#[trigger] succ@[a]@.contains(b) <==> (b < ids.len() && dep_edge(
                        es,
                        ids@[a]@,
                        ids@[b as int]@,
                    ))),
                done < order.len(),
                u == order@[done as int],
                u < n,
                list == succ@[u as int],
                seen.len() == n,
                order.len() >= 1,
                order@[0] == start,
                order@.no_duplicates(),
                order.len() <= n,
                i <= list.len(),
                forall|q: int| 0 <= q < order.len() ==> (#[trigger] order@[q]) < n,
                forall|m: int| 0 <= m < n ==> (#[trigger] seen@[m] <==> order@.contains(m as usize)),
                forall|q: int| 0 <= q < order.len() ==> reaches(es, src, ids@[#[trigger] order@[q] as int]@),
                forall|q: int, b: usize|
                    0 <= q < done && #[trigger] succ@[order@[q] as int]@.contains(b) ==> seen@[b as int],
                forall|x: int| 0 <= x < list.len() ==> (#[trigger] list@[x]) < n,
                forall|x: int| 0 <= x < i ==> seen@[(#[trigger] list@[x]) as int],
            decreases list.len() - i,
        {
            let b = list[i];
            proof {
                assert(list@.contains(b));
            }
            if !seen[b] {
                let ghost before = order@;
                order.push(b);
                seen.set(b, true);
                proof {
                    assert(reaches(es, src, ids@[u as int]@)) by {
                        assert(order@[done as int] == u);
                    }
                    lemma_reaches_step(es, src, ids@[u as int]@, ids@[b as int]@);
                    assert(order@[order.len() - 1] == b);
                    assert forall|m: int| 0 <= m < n implies (#[trigger] seen@[m] <==> order@.contains(m as usize)) by {
                        if m != b {
                            if order@.contains(m as usize) {
                                let q = choose|q: int| 0 <= q < order@.len() && order@[q] == m as usize;
                                assert(q < before.len());
                                assert(before.contains(m as usize));
                            }
                            if before.contains(m as usize) {
                                let q = choose|q: int| 0 <= q < before.len() && before[q] == m as usize;
                                assert(order@[q] == m as usize);
                            }
                        }
                    }
                    assert(!before.contains(b));
                    assert forall|x: usize| order@.contains(x) implies all.contains(x) by {
                        let q = choose|q: int| 0 <= q < order@.len() && order@[q] == x;
                        assert(all[x as int] == x);
                    }
                    lemma_distinct_within(order@, all);
                }
            }
            i = i + 1;
        }
        proof {
            assert forall|q: int, c: usize|
                0 <= q < done + 1 && #[trigger] succ@[order@[q] as int]@.contains(c) implies seen@[c as int] by {
                if q == done {
                    let x = choose|x: int| 0 <= x < list@.len() && list@[x] == c;
                }
            }
        }
        done = done + 1;
    }
    proof {
        let s = order@.map_values(|m: usize| ids@[m as int]@);
        assert forall|x: Seq<char>, y: Seq<char>| s.contains(x) && #[trigger] dep_edge(es, x, y) implies s.contains(y) by {
            let q = choose|q: int| 0 <= q < s.len() && s[q] == x;
            assert(known(es, y));
            assert(views(ids@).contains(y));
            let b = choose|b: int| 0 <= b < views(ids@).len() && views(ids@)[b] == y;
            assert(succ@[order@[q] as int]@.contains(b as usize));
            assert(seen@[b]);
            let q2 = choose|q2: int| 0 <= q2 < order@.len() && order@[q2] == b as usize;
            assert(s[q2] == y);
        }
        assert(s[0] == src);
        assert forall|m: int| 0 <= m < ids.len() implies (#[trigger] seen@[m] <==> reaches(es, src, ids@[m]@)) by {
            if seen@[m] {
                let q = choose|q: int| 0 <= q < order@.len() && order@[q] == m as usize;
            }
            if reaches(es, src, ids@[m]@) {
                lemma_closed_holds_reached(es, s, src, ids@[m]@);
                let q = choose|q: int| 0 <= q < s.len() && s[q] == ids@[m]@;
                let o = order@[q];
                assert(views(ids@)[o as int] == views(ids@)[m]);
                assert(o as int == m) by {
                    if (o as int) < m {
                        assert(String::before(views(ids@)[o as int], views(ids@)[m]));
                        String::lemma_before_order(views(ids@)[m], views(ids@)[m], views(ids@)[m]);
                    } else if (o as int) > m {
                        assert(String::before(views(ids@)[m], views(ids@)[o as int]));
                        String::lemma_before_order(views(ids@)[m], views(ids@)[m], views(ids@)[m]);
                    }
                }
                assert(order@.contains(m as usize));
            }
        }
    }
    seen
}

/// Lexicographic order on lists of identifiers.
pub open spec fn list_less(a: Seq<Seq<char>>, b: Seq<Seq<char>>) -> bool
    decreases a.len(),
{
    if a.len() == 0 {
        b.len() > 0
    } else if b.len() == 0 {
        false
    } else if a[0] != b[0] {
        str_less(a[0], b[0])
    } else {
        list_less(a.drop_first(), b.drop_first())
    }
}

proof fn lemma_list_less_order(a: Seq<Seq<char>>, b: Seq<Seq<char>>, c: Seq<Seq<char>>)
    ensures
        !list_less(a, a),
        list_less(a, b) && list_less(b, c) ==> list_less(a, c),
        a != b ==> list_less(a, b) || list_less(b, a),
    decreases a.len(),
{
    if a.len() > 0 {
        lemma_str_less_irreflexive(a[0]);
        if b.len() > 0 {
            if a[0] != b[0] {
                lemma_str_less_total(a[0], b[0]);
            }
            if c.len() > 0 {
                if str_less(a[0], b[0]) && str_less(b[0], c[0]) {
                    lemma_str_less_transitive(a[0], b[0], c[0]);
                }
                if a[0] == c[0] && str_less(a[0], b[0]) && str_less(b[0], c[0]) {
                    lemma_str_less_transitive(b[0], c[0], b[0]);
                    lemma_str_less_irreflexive(b[0]);
                }
                lemma_list_less_order(a.drop_first(), b.drop_first(), c.drop_first());
            } else {
                lemma_list_less_order(a.drop_first(), b.drop_first(), b.drop_first());
            }
            if a[0] == b[0] && a.drop_first() == b.drop_first() {
                assert(a =~= seq![a[0]] + a.drop_first());
                assert(b =~= seq![b[0]] + b.drop_first());
            }
        } else {
            lemma_list_less_order(a.drop_first(), a.drop_first(), a.drop_first());
        }
    } else if b.len() == 0 {
        assert(a =~= b);
    }
}

/// The members of a cycle joined with NUL characters.
pub open spec fn joined_members(c: Seq<Seq<char>>) -> Seq<char> {
    join_with(c, "\0"@)
}

/// Cycles are ordered by their members joined with NUL; two cycles whose
/// joined members coincide are ordered by their member lists.
pub open spec fn cycle_less(a: Seq<Seq<char>>, b: Seq<Seq<char>>) -> bool {
    str_less(joined_members(a), joined_members(b)) || (joined_members(a) == joined_members(b)
        && list_less(a, b))
}

fn list_precedes(a: &Vec<String>, b: &Vec<String>) -> (r: bool)
    ensures
        r == list_less(views(a@), views(b@)),
{
    let mut i: usize = 0;
    assert(views(a@).skip(0) =~= views(a@));
    assert(views(b@).skip(0) =~= views(b@));
    while i < a.len() && i < b.len()
        invariant
            i <= a.len(),
            i <= b.len(),
            list_less(views(a@).skip(i as int), views(b@).skip(i as int)) == list_less(
                views(a@),
                views(b@),
            ),
        decreases a.len() - i,
    {
        assert(views(a@).skip(i as int)[0] == a@[i as int]@);
        assert(views(b@).skip(i as int)[0] == b@[i as int]@);
        assert(views(a@).skip(i as int).len() > 0 && views(b@).skip(i as int).len() > 0);
        if !a[i].eq(&b[i]) {
            let r = str_precedes(a[i].as_str(), b[i].as_str());
            proof {
                let sa = views(a@).skip(i as int);
                let sb = views(b@).skip(i as int);
                assert(sa[0] != sb[0]);
                assert(list_less(sa, sb) == str_less(sa[0], sb[0]));
            }
            return r;
        }
        assert(views(a@).skip(i as int).drop_first() =~= views(a@).skip(i + 1));
        assert(views(b@).skip(i as int).drop_first() =~= views(b@).skip(i + 1));
        i = i + 1;
    }
    i < b.len()
}

impl Canonical for DependencyCycle {
    open spec fn before(a: Seq<Seq<char>>, b: Seq<Seq<char>>) -> bool {
        cycle_less(a, b)
    }

    proof fn lemma_before_order(a: Seq<Seq<char>>, b: Seq<Seq<char>>, c: Seq<Seq<char>>) {
        let (ja, jb, jc) = (joined_members(a), joined_members(b), joined_members(c));
        lemma_list_less_order(a, b, c);
        lemma_str_less_irreflexive(ja);
        if ja != jb {
            lemma_str_less_total(ja, jb);
        }
        if str_less(ja, jb) && str_less(jb, jc) {
            lemma_str_less_transitive(ja, jb, jc);
        }
        if ja == jc && str_less(ja, jb) && str_less(jb, jc) {
            lemma_str_less_transitive(jb, jc, jb);
            lemma_str_less_irreflexive(jb);
        }
    }

    fn precedes(&self, other: &DependencyCycle) -> (r: bool) {
        let mut ja = String::new();
        push_joined(&mut ja, &self.ids, "\0");
        let mut jb = String::new();
        push_joined(&mut jb, &other.ids, "\0");
        assert(ja@ =~= joined_members(self@));
        assert(jb@ =~= joined_members(other@));
        if str_precedes(ja.as_str(), jb.as_str()) {
            true
        } else if str_equal(ja.as_str(), jb.as_str()) {
            list_precedes(&self.ids, &other.ids)
        } else {
            false
        }
    }

    fn duplicate(&self) -> (r: DependencyCycle) {
        DependencyCycle { ids: copy_strings(&self.ids) }
    }
}


proof fn lemma_reaches_trans(es: Seq<EntryV>, a: Seq<char>, b: Seq<char>, c: Seq<char>)
    requires
        reaches(es, a, b),
        reaches(es, b, c),
    ensures
        reaches(es, a, c),
{
    let w1 = choose|w: Seq<Seq<char>>| is_walk(es, w) && w[0] == a && w.last() == b;
    let w2 = choose|w: Seq<Seq<char>>| is_walk(es, w) && w[0] == b && w.last() == c;
    lemma_walk_join(es, w1, w2);
    let w = w1 + w2.drop_first();
    assert(is_walk(es, w) && w[0] == a && w.last() == c);
}

/// Two components that share a member are the same component.
proof fn lemma_scc_shared(es: Seq<EntryV>, a: Seq<char>, b: Seq<char>, u: Seq<char>)
    requires
        in_scc(es, a, u),
        in_scc(es, b, u),
    ensures
        Set::new(|x: Seq<char>| in_scc(es, a, x)) == Set::new(|x: Seq<char>| in_scc(es, b, x)),
{
    assert forall|x: Seq<char>| in_scc(es, a, x) <==> in_scc(es, b, x) by {
        if in_scc(es, a, x) {
            lemma_reaches_trans(es, u, a, x);
            lemma_reaches_trans(es, b, u, x);
            lemma_reaches_trans(es, x, a, u);
            lemma_reaches_trans(es, x, u, b);
        }
        if in_scc(es, b, x) {
            lemma_reaches_trans(es, u, b, x);
            lemma_reaches_trans(es, a, u, x);
            lemma_reaches_trans(es, x, b, u);
            lemma_reaches_trans(es, x, u, a);
        }
    }
    assert(Set::new(|x: Seq<char>| in_scc(es, a, x)) =~= Set::new(|x: Seq<char>| in_scc(es, b, x)));
}

/// The strongly connected components of the dependency graph among known
/// identifiers, each once: every component lists its members sorted, is the
/// component of its first member, no two share a member, and together they
/// hold every known identifier.
fn strongly_connected_components(entries: &Vec<Entry>, ids: &Vec<String>) -> (r: Vec<Vec<String>>)
    requires
        strictly_sorted::<String>(views(ids@)),
        forall|id: Seq<char>| views(ids@).contains(id) <==> known(views(entries@), id),
    ensures
        forall|q: int|
            0 <= q < r.len() ==> (#[trigger] r@[q]).len() > 0 && strictly_sorted::<String>(views(r@[q]@))
                && views(r@[q]@).to_set() == Set::new(|u: Seq<char>| in_scc(views(entries@), r@[q]@[0]@, u)),
        forall|q1: int, q2: int, u: Seq<char>|
            0 <= q1 < r.len() && 0 <= q2 < r.len() && q1 != q2 && #[trigger] views(r@[q1]@).contains(u)
                ==> !#[trigger] views(r@[q2]@).contains(u),
        forall|v: Seq<char>| known(views(entries@), v) ==> exists|q: int| 0 <= q < r.len() && views((#[trigger] r@[q])@).contains(v),
{
    let ghost es = views(entries@);
    let comps = components_by_id(entries, ids);
    // each component of `comps` holds its own identifier
    assert forall|k: int| 0 <= k < ids.len() implies #[trigger] views(comps@[k]@).contains(ids@[k]@) by {
        assert(views(ids@)[k] == ids@[k]@);
        assert(views(ids@).contains(ids@[k]@));
        lemma_reaches_self(es, ids@[k]@);
        assert(views(comps@[k]@).to_set().contains(ids@[k]@));
    }
    let mut out: Vec<Vec<String>> = Vec::new();
    let ghost mut src: Seq<int> = seq![];
    let mut k: usize = 0;
    while k < comps.len()
        invariant
            k <= comps.len(),
            comps.len() == ids.len(),
            es == views(entries@),
            strictly_sorted::<String>(views(ids@)),
            forall|id: Seq<char>| views(ids@).contains(id) <==> known(es, id),
            forall|q: int|
                0 <= q < comps.len() ==> strictly_sorted::<String>(#[trigger] views(comps@[q]@)) && views(
                    comps@[q]@,
                ).to_set() == Set::new(|u: Seq<char>| in_scc(es, ids@[q]@, u)),
            forall|q: int| 0 <= q < ids.len() ==> #[trigger] views(comps@[q]@).contains(ids@[q]@),
            src.len() == out.len(),
            forall|q: int|
                0 <= q < out.len() ==> 0 <= #[trigger] src[q] < k && views(out@[q]@) == views(comps@[src[q]]@)
                    && comps@[src[q]]@.len() > 0 && comps@[src[q]]@[0]@ == ids@[src[q]]@,
            forall|q1: int, q2: int| 0 <= q1 < q2 < out.len() ==> #[trigger] src[q1] < #[trigger] src[q2],
            forall|j: int|
                0 <= j < k && #[trigger] comps@[j]@.len() > 0 && comps@[j]@[0]@ == ids@[j]@ ==> exists|q: int|
                    0 <= q < out.len() && src[q] == j,
        decreases comps.len() - k,
    {
        let c = &comps[k];
        assert(views(c@).contains(ids@[k as int]@));
        let ghost old_src = src;
        if c.len() > 0 && c[0].eq(&ids[k]) {
            let copy = copy_strings(c);
            out.push(copy);
            proof {
                src = src.push(k as int);
                assert(src[src.len() - 1] == k as int);
            }
        }
        proof {
            assert forall|j: int|
                0 <= j < k + 1 && #[trigger] comps@[j]@.len() > 0 && comps@[j]@[0]@ == ids@[j]@ implies exists|q: int|
                    0 <= q < out.len() && src[q] == j by {
                if j < k {
                    let q = choose|q: int| 0 <= q < old_src.len() && old_src[q] == j;
                    assert(src[q] == j);
                } else {
                    assert(src[src.len() - 1] == j);
                }
            }
        }
        k = k + 1;
    }
    proof {
        // the kept components are the components of their first members
        assert forall|q: int| 0 <= q < out.len() implies (#[trigger] out@[q]).len() > 0 && strictly_sorted::<String>(views(out@[q]@))
            && views(out@[q]@).to_set() == Set::new(|u: Seq<char>| in_scc(es, out@[q]@[0]@, u)) by {
            let j = src[q];
            assert(views(out@[q]@).len() == out@[q].len());
            assert(views(out@[q]@)[0] == views(comps@[j]@)[0]);
            assert(out@[q]@[0]@ == ids@[j]@);
        }
        assert forall|q1: int, q2: int, u: Seq<char>|
            0 <= q1 < out.len() && 0 <= q2 < out.len() && q1 != q2 && #[trigger] views(out@[q1]@).contains(u)
                implies !#[trigger] views(out@[q2]@).contains(u) by {
            if views(out@[q2]@).contains(u) {
                let (j1, j2) = (src[q1], src[q2]);
                assert(j1 != j2) by {
                    if q1 < q2 {
                        assert(src[q1] < src[q2]);
                    } else {
                        assert(src[q2] < src[q1]);
                    }
                }
                assert(views(comps@[j1]@).to_set().contains(u));
                assert(views(comps@[j2]@).to_set().contains(u));
                lemma_scc_shared(es, ids@[j1]@, ids@[j2]@, u);
                lemma_sorted_unique::<String>(views(comps@[j1]@), views(comps@[j2]@));
                assert(views(comps@[j1]@)[0] == views(comps@[j2]@)[0]);
                assert(views(ids@)[j1] == views(ids@)[j2]);
                if j1 < j2 {
                    String::lemma_before_order(views(ids@)[j1], views(ids@)[j2], views(ids@)[j1]);
                } else {
                    String::lemma_before_order(views(ids@)[j2], views(ids@)[j1], views(ids@)[j2]);
                }
            }
        }
        assert forall|v: Seq<char>| known(es, v) implies exists|q: int| 0 <= q < out.len() && views((#[trigger] out@[q])@).contains(v) by {
            assert(views(ids@).contains(v));
            let j = choose|j: int| 0 <= j < views(ids@).len() && views(ids@)[j] == v;
            assert(ids@[j]@ == v);
            let cj = views(comps@[j]@);
            assert(cj.contains(v));
            assert(cj.len() > 0);
            let f = cj[0];
            assert(cj.to_set().contains(f));
            assert(in_scc(es, v, f));
            assert(views(ids@).contains(f));
            let j2 = choose|j2: int| 0 <= j2 < views(ids@).len() && views(ids@)[j2] == f;
            assert(ids@[j2]@ == f);
            lemma_reaches_self(es, f);
            assert(in_scc(es, f, f));
            lemma_scc_shared(es, v, f, f);
            lemma_sorted_unique::<String>(cj, views(comps@[j2]@));
            assert(comps@[j2]@.len() > 0 && comps@[j2]@[0]@ == views(comps@[j2]@)[0]);
            let q = choose|q: int| 0 <= q < out.len() && src[q] == j2;
            assert(views(out@[q]@) == cj);
        }
    }
    out
}

/// The strongly connected component of each known identifier, in the order
/// of `ids`: its members, sorted.
fn components_by_id(entries: &Vec<Entry>, ids: &Vec<String>) -> (r: Vec<Vec<String>>)
    requires
        strictly_sorted::<String>(views(ids@)),
        forall|id: Seq<char>| views(ids@).contains(id) <==> known(views(entries@), id),
    ensures
        r.len() == ids.len(),
        forall|k: int|
            0 <= k < r.len() ==> strictly_sorted::<String>(#[trigger] views(r@[k]@)) && views(
                r@[k]@,
            ).to_set() == Set::new(|u: Seq<char>| in_scc(views(entries@), ids@[k]@, u)),
{
    let ghost es = views(entries@);
    let succ = successor_lists(entries, ids);
    let mut reach: Vec<Vec<bool>> = Vec::new();
    let mut k: usize = 0;
    while k < ids.len()
        invariant
            k <= ids.len(),
            es == views(entries@),
            succ.len() == ids.len(),
            strictly_sorted::<String>(views(ids@)),
            forall|id: Seq<char>| views(ids@).contains(id) <==> known(es, id),
            forall|a: int, b: usize|
                0 <= a < succ.len() ==> (#[trigger] succ@[a]@.contains(b) <==> (b < ids.len() && dep_edge(
                    es,
                    ids@[a]@,
                    ids@[b as int]@,
                ))),
            reach.len() == k,
            forall|q: int| 0 <= q < k ==> (#[trigger] reach@[q]).len() == ids.len(),
            forall|q: int, m: int|
                0 <= q < k && 0 <= m < ids.len() ==> (#[trigger] reach@[q]@[m] <==> reaches(es, ids@[q]@, ids@[m]@)),
        decreases ids.len() - k,
    {
        let r = reach_marks(entries, ids, &succ, k);
        reach.push(r);
        k = k + 1;
    }
    let mut comps: Vec<Vec<String>> = Vec::new();
    let mut k: usize = 0;
    while k < ids.len()
        invariant
            k <= ids.len(),
            es == views(entries@),
            strictly_sorted::<String>(views(ids@)),
            forall|id: Seq<char>| views(ids@).contains(id) <==> known(es, id),
            reach.len() == ids.len(),
            forall|q: int| 0 <= q < ids.len() ==> (#[trigger] reach@[q]).len() == ids.len(),
            forall|q: int, m: int|
                0 <= q < ids.len() && 0 <= m < ids.len() ==> (#[trigger] reach@[q]@[m] <==> reaches(es, ids@[q]@, ids@[m]@)),
            comps.len() == k,
            forall|q: int|
                0 <= q < k ==> strictly_sorted::<String>(#[trigger] views(comps@[q]@)) && views(
                    comps@[q]@,
                ).to_set() == Set::new(|u: Seq<char>| in_scc(es, ids@[q]@, u)),
        decreases ids.len() - k,
    {
        let v = &ids[k];
        let mut comp: Vec<String> = Vec::new();
        let ghost mut src: Seq<int> = seq![];
        let mut m: usize = 0;
        while m < ids.len()
            invariant
                k < ids.len(),
                v == ids@[k as int],
                m <= ids.len(),
                es == views(entries@),
                strictly_sorted::<String>(views(ids@)),
                forall|id: Seq<char>| views(ids@).contains(id) <==> known(es, id),
                reach.len() == ids.len(),
                forall|q: int| 0 <= q < ids.len() ==> (#[trigger] reach@[q]).len() == ids.len(),
                forall|q: int, x: int|
                    0 <= q < ids.len() && 0 <= x < ids.len() ==> (#[trigger] reach@[q]@[x] <==> reaches(es, ids@[q]@, ids@[x]@)),
                src.len() == comp.len(),
                forall|q: int| 0 <= q < comp.len() ==> 0 <= #[trigger] src[q] < m && comp@[q]@ == ids@[src[q]]@,
                strictly_sorted::<String>(views(comp@)),
                views(comp@).to_set() == Set::new(
                    |u: Seq<char>| exists|q: int| 0 <= q < m && u == (#[trigger] ids@[q])@ && in_scc(es, v@, u),
                ),
            decreases ids.len() - m,
        {
            let u = &ids[m];
            let ghost before = views(comp@);
            let ghost target = Set::new(
                |x: Seq<char>| exists|q: int| 0 <= q < m + 1 && x == (#[trigger] ids@[q])@ && in_scc(es, v@, x),
            );
            proof {
                assert(views(ids@).contains(v@)) by {
                    assert(views(ids@)[k as int] == v@);
                }
                assert(views(ids@).contains(u@)) by {
                    assert(views(ids@)[m as int] == u@);
                }
            }
            assert(reach@[k as int].len() == ids.len() && reach@[m as int].len() == ids.len());
            if reach[k][m] && reach[m][k] {
                comp.push(u.clone());
                proof {
                    src = src.push(m as int);
                    assert(views(comp@) =~= before.push(u@));
                    assert forall|a: int, b: int| 0 <= a < b < views(comp@).len() implies String::before(
                        #[trigger] views(comp@)[a],
                        #[trigger] views(comp@)[b],
                    ) by {
                        if b == views(comp@).len() - 1 {
                            assert(views(ids@)[src[a]] == comp@[a]@);
                            assert(views(ids@)[m as int] == u@);
                        }
                    }
                    assert forall|x: Seq<char>| views(comp@).contains(x) <==> target.contains(x) by {
                        if views(comp@).contains(x) {
                            let p = choose|p: int| 0 <= p < views(comp@).len() && views(comp@)[p] == x;
                            if p < before.len() {
                                assert(before.to_set().contains(x));
                            } else {
                                assert(x == ids@[m as int]@);
                            }
                        }
                        if target.contains(x) {
                            let q = choose|q: int| 0 <= q < m + 1 && x == (#[trigger] ids@[q])@ && in_scc(es, v@, x);
                            if q < m {
                                assert(before.to_set().contains(x));
                                let p = choose|p: int| 0 <= p < before.len() && before[p] == x;
                                assert(views(comp@)[p] == x);
                            } else {
                                assert(views(comp@)[before.len() as int] == x);
                            }
                        }
                    }
                    assert(views(comp@).to_set() =~= target);
                }
            } else {
                proof {
                    assert(!in_scc(es, v@, u@));
                    assert forall|x: Seq<char>| before.to_set().contains(x) <==> target.contains(x) by {
                        if target.contains(x) {
                            let q = choose|q: int| 0 <= q < m + 1 && x == (#[trigger] ids@[q])@ && in_scc(es, v@, x);
                        }
                    }
                    assert(views(comp@).to_set() =~= target);
                }
            }
            m = m + 1;
        }
        proof {
            assert forall|x: Seq<char>| views(comp@).to_set().contains(x) <==> in_scc(es, v@, x) by {
                if in_scc(es, v@, x) {
                    assert(views(ids@).contains(x));
                    let q = choose|q: int| 0 <= q < views(ids@).len() && views(ids@)[q] == x;
                    assert(x == (ids@[q])@);
                }
            }
            assert(views(comp@).to_set() =~= Set::new(|u: Seq<char>| in_scc(es, ids@[k as int]@, u)));
        }
        comps.push(comp);
        k = k + 1;
    }
    comps
}

/// Whether some record carrying `v` declares `v` itself.
fn has_self_edge(entries: &Vec<Entry>, v: &String) -> (r: bool)
    requires
        known(views(entries@), v@),
    ensures
        r == dep_edge(views(entries@), v@, v@),
{
    let ghost es = views(entries@);
    let mut i: usize = 0;
    while i < entries.len()
        invariant
            i <= entries.len(),
            es == views(entries@),
            forall|a: int, b: int|
                0 <= a < i && 0 <= b < es[a].deps.len() && (#[trigger] es[a]).id == v@ ==> #[trigger] es[a].deps[b] != v@,
        decreases entries.len() - i,
    {
        let e = &entries[i];
        if e.id.eq(v) {
            let mut j: usize = 0;
            while j < e.deps.len()
                invariant
                    i < entries.len(),
                    e == entries[i as int],
                    e.id@ == v@,
                    j <= e.deps.len(),
                    es == views(entries@),
                    forall|a: int, b: int|
                        0 <= a < es.len() && 0 <= b < es[a].deps.len() && (a < i || (a == i && b < j)) && (#[trigger] es[a]).id == v@
                            ==> #[trigger] es[a].deps[b] != v@,
                decreases e.deps.len() - j,
            {
                if e.deps[j].eq(v) {
                    assert(es[i as int].deps[j as int] == v@);
                    return true;
                }
                j = j + 1;
            }
        }
        i = i + 1;
    }
    false
}

/// A member on a cycle puts the first member of its component on one, and
/// the component is that member's.
proof fn lemma_cycle_of_member(es: Seq<EntryV>, c: Seq<Seq<char>>, v: Seq<char>)
    requires
        c.len() > 0,
        c.to_set() == Set::new(|u: Seq<char>| in_scc(es, c[0], u)),
        c.contains(v),
        on_cycle(es, v),
    ensures
        on_cycle(es, c[0]),
        c.to_set() == Set::new(|u: Seq<char>| in_scc(es, v, u)),
{
    assert(c.to_set().contains(v));
    assert(in_scc(es, c[0], v));
    lemma_reaches_self(es, v);
    assert(in_scc(es, v, v));
    lemma_scc_shared(es, c[0], v, v);
    if v != c[0] {
        assert(in_scc(es, c[0], v));
    }
}

/// Reports each strongly connected component that is a cycle: it has two or
/// more members, or its one member depends on itself. Each cycle lists its
/// members sorted; cycles are ordered by their members joined with NUL.
fn find_dependency_cycles(entries: &Vec<Entry>) -> (r: Vec<DependencyCycle>)
    ensures
        strictly_sorted::<DependencyCycle>(views(r@)),
        views(r@).to_set() == Set::new(|c: Seq<Seq<char>>| is_cycle_list(views(entries@), c)),
        r.len() == 0 <==> forall|v: Seq<char>| !on_cycle(views(entries@), v),
{
    let ghost es = views(entries@);
    let ids = known_ids(entries);
    let comps = strongly_connected_components(entries, &ids);
    let mut cycles: Vec<DependencyCycle> = Vec::new();
    let mut k: usize = 0;
    while k < comps.len()
        invariant
            k <= comps.len(),
            es == views(entries@),
            forall|q: int|
                0 <= q < comps.len() ==> (#[trigger] comps@[q]).len() > 0 && strictly_sorted::<String>(views(comps@[q]@))
                    && views(comps@[q]@).to_set() == Set::new(|u: Seq<char>| in_scc(es, comps@[q]@[0]@, u)),
            forall|c: Seq<Seq<char>>| views(cycles@).contains(c) ==> is_cycle_list(es, c),
            forall|q: int| 0 <= q < k && on_cycle(es, (#[trigger] comps@[q])@[0]@) ==> views(cycles@).contains(views(comps@[q]@)),
        decreases comps.len() - k,
    {
        let c = &comps[k];
        let v = &c[0];
        let ghost cv = views(c@);
        let ghost members = Set::new(|u: Seq<char>| in_scc(es, v@, u));
        proof {
            assert(cv[0] == v@);
            assert(cv.to_set() == members);
            assert(cv.to_set().contains(v@));
            assert(known(es, v@));
        }
        let long = c.len() > 1;
        proof {
            if long {
                assert(cv.to_set().contains(cv[1]));
                assert(String::before(cv[0], cv[1]));
                String::lemma_before_order(cv[0], cv[1], cv[0]);
                assert(cv[1] != v@ && in_scc(es, v@, cv[1]));
            } else {
                assert forall|u: Seq<char>| u != v@ implies !in_scc(es, v@, u) by {
                    if in_scc(es, v@, u) {
                        assert(cv.to_set().contains(u));
                        let p = choose|p: int| 0 <= p < cv.len() && cv[p] == u;
                    }
                }
            }
        }
        let ghost before = views(cycles@);
        if long || has_self_edge(entries, v) {
            let cyc = DependencyCycle { ids: copy_strings(c) };
            cycles.push(cyc);
            proof {
                assert(views(cycles@) =~= before.push(cv));
                assert(on_cycle(es, v@));
                assert(is_cycle_list(es, cv));
                lemma_push_contains_cycle(before, cv);
            }
        } else {
            proof {
                assert(!on_cycle(es, v@));
            }
        }
        k = k + 1;
    }
    proof {
        assert forall|c: Seq<Seq<char>>| views(cycles@).to_set().contains(c) <==> is_cycle_list(es, c) by {
            if is_cycle_list(es, c) {
                let v = choose|v: Seq<char>|
                    on_cycle(es, v) && strictly_sorted::<String>(c) && c.to_set() == Set::new(
                        |u: Seq<char>| in_scc(es, v, u),
                    );
                let q = choose|q: int| 0 <= q < comps.len() && #[trigger] views(comps@[q]@).contains(v);
                let cq = views(comps@[q]@);
                assert(cq[0] == comps@[q]@[0]@);
                lemma_cycle_of_member(es, cq, v);
                assert(views(cycles@).contains(cq));
                lemma_sorted_unique::<String>(c, cq);
            }
        }
        assert(views(cycles@).to_set() =~= Set::new(|c: Seq<Seq<char>>| is_cycle_list(es, c)));
    }
    let r = sort_dedup(cycles);
    proof {
        let rv = views(r@);
        if exists|v: Seq<char>| on_cycle(es, v) {
            let v = choose|v: Seq<char>| on_cycle(es, v);
            let q = choose|q: int| 0 <= q < comps.len() && #[trigger] views(comps@[q]@).contains(v);
            let cq = views(comps@[q]@);
            assert(cq[0] == comps@[q]@[0]@);
            lemma_cycle_of_member(es, cq, v);
            assert(views(cycles@).contains(cq));
            assert(rv.to_set().contains(cq));
        }
        if r.len() > 0 {
            assert(rv.to_set().contains(rv[0]));
        }
    }
    r
}

proof fn lemma_push_contains_cycle(s: Seq<Seq<Seq<char>>>, x: Seq<Seq<char>>)
    ensures
        forall|y: Seq<Seq<char>>| s.contains(y) ==> #[trigger] s.push(x).contains(y),
        s.push(x).contains(x),
{
    assert forall|y: Seq<Seq<char>>| s.contains(y) implies #[trigger] s.push(x).contains(y) by {
        let m = choose|m: int| 0 <= m < s.len() && s[m] == y;
        assert(s.push(x)[m] == y);
    }
    assert(s.push(x)[s.len() as int] == x);
}

/// `r` holds every finding of the three checks on the records `es`.
pub open spec fn is_report_of(es: Seq<EntryV>, r: ValidationReport) -> bool {
    &&& is_duplicates_of(es, views(r.duplicate_ids@))
    &&& sorted_by::<UnresolvedDependency>(views(r.unresolved_dependencies@))
    &&& forall|u: UnresolvedV| #[trigger] views(r.unresolved_dependencies@).to_multiset().count(u)
        == finding_count(es, u, es.len() as int)
    &&& strictly_sorted::<DependencyCycle>(views(r.dependency_cycles@))
    &&& views(r.dependency_cycles@).to_set() == Set::new(|c: Seq<Seq<char>>| is_cycle_list(es, c))
    &&& r.dependency_cycles.len() == 0 <==> forall|v: Seq<char>| !on_cycle(es, v)
}

/// Runs the three checks in full; none stops the others.
pub fn build_validation_report(entries: &Vec<Entry>) -> (r: ValidationReport)
    ensures
        is_report_of(views(entries@), r),
{
    ValidationReport {
        duplicate_ids: find_duplicate_ids(entries),
        unresolved_dependencies: find_unresolved_dependencies(entries),
        dependency_cycles: find_dependency_cycles(entries),
    }
}

/// The records pass validation: no identifier is repeated, every declared
/// dependency is carried by some record, and no component is a cycle.
pub open spec fn passes(es: Seq<EntryV>) -> bool {
    &&& forall|id: Seq<char>| !repeated(es, id)
    &&& unresolved_of(es) == Set::<UnresolvedV>::empty()
    &&& forall|c: Seq<Seq<char>>| !is_cycle_list(es, c)
}

proof fn lemma_empty_iff_no_member<A>(s: Seq<A>)
    ensures
        s.len() == 0 <==> s.to_set() == Set::<A>::empty(),
{
    if s.len() > 0 {
        assert(s.to_set().contains(s[0]));
    } else {
        assert(s.to_set() =~= Set::<A>::empty());
    }
}

/// Validates a record set: it passes exactly when no check finds anything,
/// and fails with the complete report otherwise.
pub fn validate_entries(entries: &Vec<Entry>) -> (r: Result<(), ValidationError>)
    ensures
        r is Ok <==> passes(views(entries@)),
        match r {
            Ok(()) => true,
            Err(e) => is_report_of(views(entries@), *e.spec_report()),
        },
{
    let report = build_validation_report(entries);
    let ghost es = views(entries@);
    proof {
        let d = views(report.duplicate_ids@).map_values(|x: DuplicateIdV| x.id);
        let u = views(report.unresolved_dependencies@);
        let c = views(report.dependency_cycles@);
        lemma_empty_iff_no_member(d);
        lemma_empty_iff_no_member(c);
        if u.len() == 0 {
            u.to_multiset_ensures();
            vstd::multiset::lemma_multiset_empty_len(u.to_multiset());
            assert forall|x: UnresolvedV| !unresolved_of(es).contains(x) by {
                assert(u.to_multiset().count(x) == 0);
                lemma_finding_count_positive(es, x, es.len() as int);
            }
            assert(unresolved_of(es) =~= Set::<UnresolvedV>::empty());
        } else {
            u.to_multiset_ensures();
            assert(u.contains(u[0]));
            assert(u.to_multiset().count(u[0]) > 0);
            lemma_finding_count_positive(es, u[0], es.len() as int);
            assert(unresolved_of(es).contains(u[0]));
        }
        if d.to_set() == Set::<Seq<char>>::empty() {
            assert forall|id: Seq<char>| !repeated(es, id) by {
                assert(!d.to_set().contains(id));
            }
        } else {
            let id = d[0];
            assert(d.to_set().contains(id));
        }
        if c.to_set() == Set::<Seq<Seq<char>>>::empty() {
            assert forall|x: Seq<Seq<char>>| !is_cycle_list(es, x) by {
                assert(!c.to_set().contains(x));
            }
        } else {
            assert(c.to_set().contains(c[0]));
        }
    }
    if report.is_empty() {
        Ok(())
    } else {
        Err(ValidationError { report })
    }
}

/// No walk of one or more edges returns to where it started.
pub open spec fn acyclic(es: Seq<EntryV>) -> bool {
    forall|w: Seq<Seq<char>>| is_walk(es, w) && w.len() >= 2 ==> w[0] != w.last()
}

proof fn lemma_walk_join(es: Seq<EntryV>, w1: Seq<Seq<char>>, w2: Seq<Seq<char>>)
    requires
        is_walk(es, w1),
        is_walk(es, w2),
        w1.last() == w2[0],
    ensures
        is_walk(es, w1 + w2.drop_first()),
        (w1 + w2.drop_first())[0] == w1[0],
        (w1 + w2.drop_first()).last() == w2.last(),
        (w1 + w2.drop_first()).len() == w1.len() + w2.len() - 1,
{
    let w = w1 + w2.drop_first();
    assert forall|k: int| 0 <= k < w.len() - 1 implies dep_edge(es, #[trigger] w[k], w[k + 1]) by {
        if k < w1.len() - 1 {
            assert(w[k] == w1[k] && w[k + 1] == w1[k + 1]);
        } else if k == w1.len() - 1 {
            assert(w[k] == w2[0] && w[k + 1] == w2[1]);
        } else {
            let m = k - w1.len() + 1;
            assert(w[k] == w2[m] && w[k + 1] == w2[m + 1]);
        }
    }
    if w2.len() == 1 {
        assert(w =~= w1);
    } else {
        assert(w.last() == w2.last());
    }
}

/// The cycle findings are empty exactly when the dependency graph has no
/// cycle: no walk of one or more edges (a self-dependency included) returns
/// to where it started.
pub proof fn lemma_no_cycles_iff_acyclic(es: Seq<EntryV>, r: ValidationReport)
    requires
        is_report_of(es, r),
    ensures
        r.dependency_cycles.len() == 0 <==> acyclic(es),
{
    if acyclic(es) {
        assert forall|v: Seq<char>| !on_cycle(es, v) by {
            if on_cycle(es, v) {
                if dep_edge(es, v, v) {
                    let w = seq![v, v];
                    assert(is_walk(es, w));
                    assert(w[0] != w.last());
                    assert(w.last() == v);
                } else {
                    let u = choose|u: Seq<char>| u != v && in_scc(es, v, u);
                    let w1 = choose|w: Seq<Seq<char>>| is_walk(es, w) && w[0] == v && w.last() == u;
                    let w2 = choose|w: Seq<Seq<char>>| is_walk(es, w) && w[0] == u && w.last() == v;
                    lemma_walk_join(es, w1, w2);
                    assert(w1.len() >= 2);
                    let w = w1 + w2.drop_first();
                    assert(is_walk(es, w) && w.len() >= 2);
                    assert(w[0] != w.last());
                }
            }
        }
    } else {
        let w = choose|w: Seq<Seq<char>>| is_walk(es, w) && w.len() >= 2 && w[0] == w.last();
        let v = w[0];
        let u = w[1];
        assert(dep_edge(es, v, u));
        let (i, _j) = choose|i: int, j: int|
            0 <= i < es.len() && 0 <= j < es[i].deps.len() && (#[trigger] es[i]).id == v
                && #[trigger] es[i].deps[j] == u;
        assert(es[i].id == v && known(es, v));
        if u == v {
            assert(on_cycle(es, v));
        } else {
            let w1 = seq![v, u];
            assert(is_walk(es, w1) && w1[0] == v && w1.last() == u);
            let w2 = w.drop_first();
            assert(is_walk(es, w2)) by {
                assert forall|k: int| 0 <= k < w2.len() - 1 implies dep_edge(es, #[trigger] w2[k], w2[k + 1]) by {
                    assert(w2[k] == w[k + 1] && w2[k + 1] == w[k + 2]);
                }
            }
            assert(w2[0] == u && w2.last() == v);
            assert(in_scc(es, v, u));
            assert(on_cycle(es, v));
        }
    }
}

/// Adding a record whose identifier is already repeated extends that
/// identifier's group with the record's path and leaves every other group,
/// and the number of groups, as they were.
pub proof fn lemma_duplicate_group_extends(
    es: Seq<EntryV>,
    x: EntryV,
    before: Seq<DuplicateIdV>,
    after: Seq<DuplicateIdV>,
)
    requires
        repeated(es, x.id),
        is_duplicates_of(es, before),
        is_duplicates_of(es.push(x), after),
    ensures
        after.len() == before.len(),
        forall|k: int| 0 <= k < before.len() ==> (#[trigger] after[k]).id == before[k].id,
        forall|k: int|
            0 <= k < before.len() && (#[trigger] before[k]).id != x.id ==> after[k].paths
                == before[k].paths,
        forall|k: int|
            0 <= k < before.len() && (#[trigger] before[k]).id == x.id ==> after[k].paths.to_set()
                == before[k].paths.to_set().insert(x.path),
{
    let es2 = es.push(x);
    assert forall|y: Seq<char>| repeated(es2, y) <==> repeated(es, y) by {
        if repeated(es, y) {
            let (i, j) = choose|i: int, j: int|
                0 <= i < es.len() && 0 <= j < es.len() && i != j && (#[trigger] es[i]).id == y && (
                #[trigger] es[j]).id == y;
            assert(es2[i] == es[i] && es2[j] == es[j]);
        }
        if repeated(es2, y) && y != x.id {
            let (i, j) = choose|i: int, j: int|
                0 <= i < es2.len() && 0 <= j < es2.len() && i != j && (#[trigger] es2[i]).id == y
                    && (#[trigger] es2[j]).id == y;
            assert(es2[es.len() as int] == x);
            assert(i < es.len() && j < es.len());
            assert(es2[i] == es[i] && es2[j] == es[j]);
        }
    }
    let ids1 = before.map_values(|d: DuplicateIdV| d.id);
    let ids2 = after.map_values(|d: DuplicateIdV| d.id);
    assert(ids1.to_set() =~= ids2.to_set());
    lemma_sorted_unique::<String>(ids1, ids2);
    assert(ids1.len() == ids2.len());
    assert forall|k: int| 0 <= k < before.len() implies (#[trigger] after[k]).id == before[k].id by {
        assert(ids1[k] == ids2[k]);
    }
    assert forall|k: int|
        0 <= k < before.len() && (#[trigger] before[k]).id != x.id implies after[k].paths
            == before[k].paths by {
        assert(ids1[k] == ids2[k]);
        let y = before[k].id;
        assert(paths_of(es2, y) =~= paths_of(es, y)) by {
            assert forall|p: Seq<char>| paths_of(es2, y).contains(p) implies paths_of(es, y).contains(p) by {
                let i = choose|i: int| 0 <= i < es2.len() && (#[trigger] es2[i]).id == y && es2[i].path == p;
                assert(es2[es.len() as int] == x);
                assert(i < es.len());
                assert(es2[i] == es[i]);
            }
            assert forall|p: Seq<char>| paths_of(es, y).contains(p) implies paths_of(es2, y).contains(p) by {
                let i = choose|i: int| 0 <= i < es.len() && (#[trigger] es[i]).id == y && es[i].path == p;
                assert(es2[i] == es[i]);
            }
        }
        lemma_sorted_unique::<String>(before[k].paths, after[k].paths);
    }
    assert forall|k: int|
        0 <= k < before.len() && (#[trigger] before[k]).id == x.id implies after[k].paths.to_set()
            == before[k].paths.to_set().insert(x.path) by {
        assert(ids1[k] == ids2[k]);
        assert(paths_of(es2, x.id) =~= paths_of(es, x.id).insert(x.path)) by {
            assert forall|p: Seq<char>| paths_of(es2, x.id).contains(p) implies paths_of(es, x.id).insert(x.path).contains(p) by {
                let i = choose|i: int| 0 <= i < es2.len() && (#[trigger] es2[i]).id == x.id && es2[i].path == p;
                if i < es.len() {
                    assert(es2[i] == es[i]);
                } else {
                    assert(es2[i] == x);
                }
            }
            assert forall|p: Seq<char>| paths_of(es, x.id).insert(x.path).contains(p) implies paths_of(es2, x.id).contains(p) by {
                if p == x.path {
                    assert(es2[es.len() as int] == x);
                } else {
                    let i = choose|i: int| 0 <= i < es.len() && (#[trigger] es[i]).id == x.id && es[i].path == p;
                    assert(es2[i] == es[i]);
                }
            }
        }
    }
}

/// Each repeated identifier has exactly one duplicate group, and that group
/// lists the paths of every record carrying it: a further record with the
/// identifier extends the group rather than starting another.
pub proof fn lemma_one_group_per_id(es: Seq<EntryV>, r: Seq<DuplicateIdV>, id: Seq<char>)
    requires
        is_duplicates_of(es, r),
        repeated(es, id),
    ensures
        exists|k: int| 0 <= k < r.len() && (#[trigger] r[k]).id == id,
        forall|i: int, j: int| 0 <= i < r.len() && 0 <= j < r.len() && (#[trigger] r[i]).id == id && (#[trigger] r[j]).id == id ==> i == j,
        forall|k: int| 0 <= k < r.len() && (#[trigger] r[k]).id == id ==> r[k].paths.to_set() == paths_of(es, id),
{
    let ids = r.map_values(|d: DuplicateIdV| d.id);
    assert(ids.to_set().contains(id));
    let k = choose|k: int| 0 <= k < ids.len() && ids[k] == id;
    assert(r[k].id == id);
    assert forall|i: int, j: int| 0 <= i < r.len() && 0 <= j < r.len() && (#[trigger] r[i]).id == id && (#[trigger] r[j]).id == id implies i == j by {
        if i < j {
            assert(String::before(ids[i], ids[j]));
            String::lemma_before_order(ids[i], ids[j], ids[i]);
        } else if j < i {
            assert(String::before(ids[j], ids[i]));
            String::lemma_before_order(ids[j], ids[i], ids[j]);
        }
    }
}

/// The parts joined with `sep` between each two.
pub open spec fn join_with(parts: Seq<Seq<char>>, sep: Seq<char>) -> Seq<char>
    decreases parts.len(),
{
    if parts.len() == 0 {
        seq![]
    } else if parts.len() == 1 {
        parts[0]
    } else {
        join_with(parts.drop_last(), sep) + sep + parts.last()
    }
}

pub open spec fn concat_all(parts: Seq<Seq<char>>) -> Seq<char>
    decreases parts.len(),
{
    if parts.len() == 0 {
        seq![]
    } else {
        concat_all(parts.drop_last()) + parts.last()
    }
}

pub open spec fn duplicate_line(d: DuplicateIdV) -> Seq<char> {
    "  - `"@ + d.id + "` appears in: "@ + join_with(d.paths, ", "@) + "\n"@
}

pub open spec fn unresolved_line(u: UnresolvedV) -> Seq<char> {
    "  - `"@ + u.from_id + "` -> `"@ + u.to_id + "` (from "@ + u.path + ")\n"@
}

/// A cycle is shown as its members joined by arrows, back to the first one;
/// a cycle without members shows nothing.
pub open spec fn cycle_line(c: Seq<Seq<char>>) -> Seq<char> {
    if c.len() == 0 {
        seq![]
    } else {
        "  - "@ + join_with(c, " -> "@) + " -> "@ + c[0] + "\n"@
    }
}

pub open spec fn section(title: Seq<char>, count: nat, lines: Seq<Seq<char>>) -> Seq<char> {
    if count == 0 {
        seq![]
    } else {
        title + crate::render::decimal(count) + "\n"@ + concat_all(lines)
    }
}

/// The text of a report: a heading, then for each kind of finding that is
/// present, its count and one line per finding.
pub open spec fn report_text(r: ValidationReport) -> Seq<char> {
    "validation failed:\n"@ + section(
        "- duplicate ids: "@,
        r.duplicate_ids.len() as nat,
        views(r.duplicate_ids@).map_values(|d: DuplicateIdV| duplicate_line(d)),
    ) + section(
        "- unresolved dependencies: "@,
        r.unresolved_dependencies.len() as nat,
        views(r.unresolved_dependencies@).map_values(|u: UnresolvedV| unresolved_line(u)),
    ) + section(
        "- dependency cycles: "@,
        r.dependency_cycles.len() as nat,
        views(r.dependency_cycles@).map_values(|c: Seq<Seq<char>>| cycle_line(c)),
    )
}

fn push_joined(out: &mut String, parts: &Vec<String>, sep: &str)
    ensures
        final(out)@ == old(out)@ + join_with(views(parts@), sep@),
{
    let ghost start = out@;
    let mut i: usize = 0;
    while i < parts.len()
        invariant
            i <= parts.len(),
            out@ == start + join_with(views(parts@).take(i as int), sep@),
        decreases parts.len() - i,
    {
        if i > 0 {
            push_text(out, sep);
        }
        push_text(out, parts[i].as_str());
        proof {
            let t = views(parts@).take(i + 1);
            assert(t.drop_last() =~= views(parts@).take(i as int));
            assert(t.last() == parts@[i as int]@);
            if i == 0 {
                assert(t =~= seq![parts@[0]@]);
            }
        }
        i = i + 1;
        assert(out@ =~= start + join_with(views(parts@).take(i as int), sep@));
    }
    assert(views(parts@).take(i as int) =~= views(parts@));
}

impl ValidationReport {
    /// The report as text, one line per finding.
    pub fn describe(&self) -> (r: String)
        ensures
            r@ == report_text(*self),
    {
        let mut out = String::new();
        push_text(&mut out, "validation failed:\n");
        let ghost s0 = out@;
        let ghost dl = views(self.duplicate_ids@).map_values(|d: DuplicateIdV| duplicate_line(d));
        if self.duplicate_ids.len() > 0 {
            push_text(&mut out, "- duplicate ids: ");
            crate::render::push_decimal(&mut out, self.duplicate_ids.len());
            push_text(&mut out, "\n");
            let ghost h = out@;
            let mut i: usize = 0;
            while i < self.duplicate_ids.len()
                invariant
                    i <= self.duplicate_ids.len(),
                    dl == views(self.duplicate_ids@).map_values(|d: DuplicateIdV| duplicate_line(d)),
                    out@ == h + concat_all(dl.take(i as int)),
                decreases self.duplicate_ids.len() - i,
            {
                let d = &self.duplicate_ids[i];
                push_text(&mut out, "  - `");
                push_text(&mut out, d.id.as_str());
                push_text(&mut out, "` appears in: ");
                push_joined(&mut out, &d.paths, ", ");
                push_text(&mut out, "\n");
                proof {
                    let t = dl.take(i + 1);
                    assert(t.drop_last() =~= dl.take(i as int));
                    assert(t.last() == duplicate_line(d@));
                }
                i = i + 1;
                assert(out@ =~= h + concat_all(dl.take(i as int)));
            }
            assert(dl.take(i as int) =~= dl);
        }
        assert(out@ =~= s0 + section("- duplicate ids: "@, self.duplicate_ids.len() as nat, dl));
        let ghost s1 = out@;
        let ghost ul = views(self.unresolved_dependencies@).map_values(|u: UnresolvedV| unresolved_line(u));
        if self.unresolved_dependencies.len() > 0 {
            push_text(&mut out, "- unresolved dependencies: ");
            crate::render::push_decimal(&mut out, self.unresolved_dependencies.len());
            push_text(&mut out, "\n");
            let ghost h = out@;
            let mut i: usize = 0;
            while i < self.unresolved_dependencies.len()
                invariant
                    i <= self.unresolved_dependencies.len(),
                    ul == views(self.unresolved_dependencies@).map_values(|u: UnresolvedV| unresolved_line(u)),
                    out@ == h + concat_all(ul.take(i as int)),
                decreases self.unresolved_dependencies.len() - i,
            {
                let u = &self.unresolved_dependencies[i];
                push_text(&mut out, "  - `");
                push_text(&mut out, u.from_id.as_str());
                push_text(&mut out, "` -> `");
                push_text(&mut out, u.to_id.as_str());
                push_text(&mut out, "` (from ");
                push_text(&mut out, u.path.as_str());
                push_text(&mut out, ")\n");
                proof {
                    let t = ul.take(i + 1);
                    assert(t.drop_last() =~= ul.take(i as int));
                    assert(t.last() == unresolved_line(u@));
                }
                i = i + 1;
                assert(out@ =~= h + concat_all(ul.take(i as int)));
            }
            assert(ul.take(i as int) =~= ul);
        }
        assert(out@ =~= s1 + section("- unresolved dependencies: "@, self.unresolved_dependencies.len() as nat, ul));
        let ghost s2 = out@;
        let ghost cl = views(self.dependency_cycles@).map_values(|c: Seq<Seq<char>>| cycle_line(c));
        if self.dependency_cycles.len() > 0 {
            push_text(&mut out, "- dependency cycles: ");
            crate::render::push_decimal(&mut out, self.dependency_cycles.len());
            push_text(&mut out, "\n");
            let ghost h = out@;
            let mut i: usize = 0;
            while i < self.dependency_cycles.len()
                invariant
                    i <= self.dependency_cycles.len(),
                    cl == views(self.dependency_cycles@).map_values(|c: Seq<Seq<char>>| cycle_line(c)),
                    out@ == h + concat_all(cl.take(i as int)),
                decreases self.dependency_cycles.len() - i,
            {
                let c = &self.dependency_cycles[i];
                let ghost before = out@;
                if c.ids.len() > 0 {
                    push_text(&mut out, "  - ");
                    push_joined(&mut out, &c.ids, " -> ");
                    push_text(&mut out, " -> ");
                    push_text(&mut out, c.ids[0].as_str());
                    push_text(&mut out, "\n");
                }
                proof {
                    let t = cl.take(i + 1);
                    assert(t.drop_last() =~= cl.take(i as int));
                    assert(t.last() == cycle_line(c@));
                    assert(out@ =~= before + cycle_line(c@));
                }
                i = i + 1;
                assert(out@ =~= h + concat_all(cl.take(i as int)));
            }
            assert(cl.take(i as int) =~= cl);
        }
        assert(out@ =~= s2 + section("- dependency cycles: "@, self.dependency_cycles.len() as nat, cl));
        out
    }
}

} // verus!
