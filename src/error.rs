use vstd::prelude::*;

verus! {

#[verifier::external_type_specification]
#[verifier::external_body]
pub struct ExJsonError(serde_json::Error);

#[verifier::external_type_specification]
#[verifier::external_body]
pub struct ExIoError(std::io::Error);

/// The fields that a stored task must carry.
#[derive(Clone, Copy, Debug, PartialEq, Eq, Structural)]
pub enum TaskField {
    Id,
    Description,
    Completed,
}

/// Why the stored data is not a list of tasks.
#[derive(Debug)]
pub enum FormatError {
    /// The text is not JSON, or not an array of objects; or it could not be written.
    Json(serde_json::Error),
    /// The record at `record` lacks `field`, or holds a value of the wrong kind there.
    Field { record: usize, field: TaskField },
    /// The record at `record` repeats the id of an earlier record.
    DuplicateId { record: usize },
}

/// The failures of loading and saving: the file could not be used, or its data is bad.
#[derive(Debug)]
pub enum StoreError {
    Io(std::io::Error),
    Format(FormatError),
}

impl From<std::io::Error> for StoreError {
    fn from(err: std::io::Error) -> (r: StoreError)
        ensures
            r == StoreError::Io(err),
    {
        StoreError::Io(err)
    }
}

impl vstd::std_specs::convert::FromSpecImpl<std::io::Error> for StoreError {
    open spec fn obeys_from_spec() -> bool {
        true
    }

    open spec fn from_spec(v: std::io::Error) -> StoreError {
        StoreError::Io(v)
    }
}

impl From<serde_json::Error> for StoreError {
    fn from(err: serde_json::Error) -> (r: StoreError)
        ensures
            r == StoreError::Format(FormatError::Json(err)),
    {
        StoreError::Format(FormatError::Json(err))
    }
}

impl vstd::std_specs::convert::FromSpecImpl<serde_json::Error> for StoreError {
    open spec fn obeys_from_spec() -> bool {
        true
    }

    open spec fn from_spec(v: serde_json::Error) -> StoreError {
        StoreError::Format(FormatError::Json(v))
    }
}

} // verus!
