use vstd::prelude::*;

verus! {

/// How a relation answer is written out.
#[derive(Clone, Copy, Debug, PartialEq, Eq, Structural)]
pub enum OutputFormat {
    Text,
    Json,
}

} // verus!
