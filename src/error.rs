use crate::validate::ValidationError;
use vstd::prelude::*;

verus! {

/// The failures of the library's entry points.
#[derive(Debug)]
pub enum Error {
    /// Validation found problems; the report lists all of them.
    Validation(ValidationError),
    /// A strict query named an identifier that no node carries.
    QueryIdNotFound { query_id: String },
    /// The persisted catalog differs from the one built afresh.
    CatalogDiff { catalog_path: String },
}

} // verus!
