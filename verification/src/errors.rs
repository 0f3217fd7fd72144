use vstd::prelude::*;

verus! {

/// Errors shared by both pipelines.
#[derive(Debug, Clone, PartialEq, Eq)]
pub enum TaxoError {
    /// One or more requested identifiers are absent from the backing data;
    /// all of them are reported together in one list.
    NotFound(Vec<String>),
    /// A token matched none of the recognized identifier shapes; the
    /// offending token is carried along.
    MalformedInput(String),
    /// An error of the backing query layer, propagated unchanged.
    StorageError(String),
    /// No self-referential root was found, or a caller required a
    /// non-empty result and got none.
    EmptyResult,
}

} // verus!
