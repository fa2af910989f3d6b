use vstd::prelude::*;

verus! {

/// Why a single schema operation could not be applied.
#[derive(Debug, Clone, Copy, PartialEq, Eq, Structural)]
pub enum OperationFailure {
    /// `CreateModel` named a model that already exists.
    ModelExists,
    /// The operation named a model that does not exist.
    NoSuchModel,
    /// The operation named a field that the model does not have.
    NoSuchField,
    /// The resulting field list would not have exactly one primary key
    /// and distinct field names.
    InvalidFields,
}

/// Errors of the registry, the migration layer and the record façade.
#[derive(Debug)]
pub enum Error {
    DuplicateModel,
    UnknownModel,
    UnknownField,
    ConstraintViolation,
    CyclicDependency,
    /// A migration failed; nothing of it was kept.
    Migration { app_name: String, sequence_number: u64, cause: OperationFailure },
}

} // verus!
