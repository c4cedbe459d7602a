//! The failures a store operation can report.

use vstd::prelude::*;

verus! {

/// A typed failure of a store operation.
#[derive(Debug, PartialEq, Eq)]
pub enum StoreError {
    /// A table with the requested name already exists.
    TableExists,
    /// No table with the requested name exists.
    TableNotFound,
    /// The candidate row lacks the named declared column.
    MissingColumn(String),
    /// The candidate row's value for the named column has an incompatible
    /// kind.
    TypeMismatch(String),
}

/// The mathematical model of a [`StoreError`].
pub enum SpecStoreError {
    TableExists,
    TableNotFound,
    MissingColumn(Seq<char>),
    TypeMismatch(Seq<char>),
}

impl View for StoreError {
    type V = SpecStoreError;

    open spec fn view(&self) -> SpecStoreError {
        match self {
            StoreError::TableExists => SpecStoreError::TableExists,
            StoreError::TableNotFound => SpecStoreError::TableNotFound,
            StoreError::MissingColumn(n) => SpecStoreError::MissingColumn(n@),
            StoreError::TypeMismatch(n) => SpecStoreError::TypeMismatch(n@),
        }
    }
}

} // verus!
