//! Error values reported by the engine and by the layers built on it.

use vstd::prelude::*;
use vstd::string::*;

verus! {

/// A failure of the store.
#[derive(Debug)]
pub enum DbError {
    /// A record was refused by its schema.
    SchemaError(String),
    /// Reading or writing the data directory failed.
    StorageError(String),
    /// Bytes could not be framed, or framed bytes could not be understood.
    SerializationError(String),
}

/// A record that does not fit its schema.
#[derive(Debug)]
pub enum SchemaError {
    /// The named index field holds nothing.
    IndexFieldEmpty(String),
}

impl DbError {
    /// The text a user is shown for this error.
    pub open spec fn spec_message(self) -> Seq<char> {
        match self {
            DbError::SchemaError(detail) => "Schema validation error: "@ + detail@,
            DbError::StorageError(detail) => "Storage error: "@ + detail@,
            DbError::SerializationError(detail) => "Serialization error :"@ + detail@,
        }
    }

    /// Renders the error as text.
    pub fn message(&self) -> (text: String)
        ensures
            text@ == self.spec_message(),
    {
        match self {
            DbError::SchemaError(detail) => String::from_str("Schema validation error: ").concat(
                detail.as_str(),
            ),
            DbError::StorageError(detail) => String::from_str("Storage error: ").concat(
                detail.as_str(),
            ),
            DbError::SerializationError(detail) => String::from_str(
                "Serialization error :",
            ).concat(detail.as_str()),
        }
    }
}

impl SchemaError {
    /// The text a user is shown for this error.
    pub open spec fn spec_message(self) -> Seq<char> {
        match self {
            SchemaError::IndexFieldEmpty(field) => "Index field '"@ + field@
                + "' cannot be empty"@,
        }
    }

    /// Renders the error as text.
    pub fn message(&self) -> (text: String)
        ensures
            text@ == self.spec_message(),
    {
        match self {
            SchemaError::IndexFieldEmpty(field) => String::from_str("Index field '").concat(
                field.as_str(),
            ).concat("' cannot be empty"),
        }
    }
}

} // verus!
