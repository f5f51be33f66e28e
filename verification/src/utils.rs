//! Field selector shared by the indexer and the query engine.

use vstd::prelude::*;

verus! {

/// The two indexed text fields of a record.
pub enum Field {
    Title,
    Alt,
}

} // verus!
