//! A catalog of cross-referenced documents: building it reproducibly from
//! parsed records, validating the declared dependency graph, and answering
//! dependency and referrer queries against it.
use vstd::prelude::*;

pub mod catalog;
pub mod catalog_presentation;
pub mod domain;
pub mod error;
pub mod format;
pub mod frontmatter;
pub mod graph;
pub mod order;
pub mod relation;
pub mod relation_presentation;
pub mod render;
pub mod text;
pub mod validate;

pub use catalog::{Catalog, Edge, Entry, Node};
pub use domain::{build_relation, RelationItem, RelationKind, RelationMeta, RelationResponse};
pub use error::Error;
pub use format::OutputFormat;
pub use graph::Graph;
pub use validate::{
    DependencyCycle, DuplicateId, UnresolvedDependency, ValidationError, ValidationReport,
};

use catalog::{is_catalog_of, CatalogV, EntryV};
use catalog_presentation::{catalog_json, write_catalog};
use order::{lemma_sorted_unique, views};
use relation::is_query_result;
use validate::{is_report_of, passes, validate_entries};
use vstd::string::StrSliceExecFns;
use vstd::utf8::encode_utf8;

verus! {

/// Options of a catalog build.
#[derive(Clone, Copy, Debug)]
pub struct BuildOptions {
    pub include_node_metadata: bool,
}

impl Default for BuildOptions {
    fn default() -> (r: BuildOptions)
        ensures
            !r.include_node_metadata,
    {
        BuildOptions { include_node_metadata: false }
    }
}

/// Options of a relation query.
#[derive(Clone, Copy, Debug)]
pub struct QueryOptions {
    pub strict: bool,
}

impl Default for QueryOptions {
    fn default() -> (r: QueryOptions)
        ensures
            !r.strict,
    {
        QueryOptions { strict: false }
    }
}

/// `bytes` is the persisted catalog of the records `es`.
pub open spec fn catalog_bytes(es: Seq<EntryV>, meta: bool, bytes: Seq<u8>) -> bool {
    exists|c: CatalogV| is_catalog_of(es, c) && bytes == encode_utf8(catalog_json(c, meta))
}

/// Builds the catalog of a record set and returns its persisted bytes,
/// without node metadata.
pub fn build_catalog(entries: &Vec<Entry>) -> (r: Vec<u8>)
    ensures
        catalog_bytes(views(entries@), false, r@),
{
    build_catalog_with_options(entries, BuildOptions::default())
}

/// Builds the catalog of a record set and returns its persisted bytes.
pub fn build_catalog_with_options(entries: &Vec<Entry>, options: BuildOptions) -> (r: Vec<u8>)
    ensures
        catalog_bytes(views(entries@), options.include_node_metadata, r@),
{
    let catalog = Catalog::from_entries(entries);
    let text = write_catalog(&catalog, options.include_node_metadata);
    text.as_str().as_bytes_vec()
}

/// Checks the structure of a record set: it succeeds exactly when
/// validation finds nothing.
pub fn check_catalog_structure(entries: &Vec<Entry>) -> (r: Result<(), Error>)
    ensures
        r is Ok <==> passes(views(entries@)),
        match r {
            Ok(()) => true,
            Err(Error::Validation(e)) => is_report_of(views(entries@), *e.spec_report()),
            Err(_) => false,
        },
{
    match validate_entries(entries) {
        Ok(()) => Ok(()),
        Err(e) => Err(Error::Validation(e)),
    }
}

fn bytes_equal(a: &Vec<u8>, b: &Vec<u8>) -> (r: bool)
    ensures
        r == (a@ == b@),
{
    if a.len() != b.len() {
        return false;
    }
    let mut i: usize = 0;
    while i < a.len()
        invariant
            i <= a.len(),
            a.len() == b.len(),
            forall|k: int| 0 <= k < i ==> a@[k] == b@[k],
        decreases a.len() - i,
    {
        if a[i] != b[i] {
            return false;
        }
        i = i + 1;
    }
    assert(a@ =~= b@);
    true
}

/// Checks that a persisted catalog is up to date: the records must pass
/// validation, and the bytes built from them afresh must equal `current`.
/// A validation failure and a drifted catalog are told apart.
pub fn check_catalog(
    entries: &Vec<Entry>,
    current: &Vec<u8>,
    catalog_path: &str,
    options: BuildOptions,
) -> (r: Result<(), Error>)
    ensures
        r is Ok <==> passes(views(entries@)) && catalog_bytes(
            views(entries@),
            options.include_node_metadata,
            current@,
        ),
        match r {
            Ok(()) => true,
            Err(Error::Validation(e)) => !passes(views(entries@)) && is_report_of(
                views(entries@),
                *e.spec_report(),
            ),
            Err(Error::CatalogDiff { catalog_path: p }) => passes(views(entries@)) && !catalog_bytes(
                views(entries@),
                options.include_node_metadata,
                current@,
            ) && p@ == catalog_path@,
            Err(_) => false,
        },
{
    check_catalog_structure(entries)?;
    let regenerated = build_catalog_with_options(entries, options);
    if !bytes_equal(current, &regenerated) {
        proof {
            lemma_catalog_bytes_unique(
                views(entries@),
                options.include_node_metadata,
                regenerated@,
                current@,
            );
        }
        return Err(Error::CatalogDiff { catalog_path: catalog_path.to_owned() });
    }
    Ok(())
}

/// A record set has one persisted catalog: a check of a persisted catalog
/// succeeds exactly when its bytes are the ones that a build writes.
pub proof fn lemma_catalog_bytes_unique(es: Seq<EntryV>, meta: bool, a: Seq<u8>, b: Seq<u8>)
    requires
        catalog_bytes(es, meta, a),
    ensures
        catalog_bytes(es, meta, b) <==> a == b,
{
    let ca = choose|c: CatalogV| is_catalog_of(es, c) && a == encode_utf8(catalog_json(c, meta));
    if catalog_bytes(es, meta, b) {
        let cb = choose|c: CatalogV| is_catalog_of(es, c) && b == encode_utf8(catalog_json(c, meta));
        lemma_sorted_unique::<Node>(ca.nodes, cb.nodes);
        lemma_sorted_unique::<Edge>(ca.edges, cb.edges);
        assert(ca == cb);
    }
}

/// The persisted catalog does not depend on the order of the records: two
/// arrangements of the same records build the same bytes.
pub proof fn lemma_build_order_independent(
    a: Seq<EntryV>,
    b: Seq<EntryV>,
    meta: bool,
    bytes_a: Seq<u8>,
    bytes_b: Seq<u8>,
)
    requires
        a.to_multiset() == b.to_multiset(),
        catalog_bytes(a, meta, bytes_a),
        catalog_bytes(b, meta, bytes_b),
    ensures
        bytes_a == bytes_b,
{
    let ca = choose|c: CatalogV| is_catalog_of(a, c) && bytes_a == encode_utf8(catalog_json(c, meta));
    let cb = choose|c: CatalogV| is_catalog_of(b, c) && bytes_b == encode_utf8(catalog_json(c, meta));
    catalog::lemma_catalog_order_independent(a, b, ca, cb);
}

/// Answers a lenient relation query against a catalog.
pub fn query_catalog_relation(
    query_id: &str,
    catalog: &Catalog,
    relation_kind: RelationKind,
    format: OutputFormat,
) -> (r: Result<String, Error>)
    ensures
        is_query_result(query_id@, catalog@.nodes, catalog@.edges, relation_kind, false, format, r),
{
    query_catalog_relation_with_options(
        query_id,
        catalog,
        relation_kind,
        format,
        QueryOptions::default(),
    )
}

/// Answers a relation query against a catalog, strict or lenient as the
/// options say.
pub fn query_catalog_relation_with_options(
    query_id: &str,
    catalog: &Catalog,
    relation_kind: RelationKind,
    format: OutputFormat,
    options: QueryOptions,
) -> (r: Result<String, Error>)
    ensures
        is_query_result(
            query_id@,
            catalog@.nodes,
            catalog@.edges,
            relation_kind,
            options.strict,
            format,
            r,
        ),
{
    let graph = Graph::from_catalog(catalog);
    relation::run(query_id, catalog, &graph, relation_kind, options.strict, format)
}

} // verus!
