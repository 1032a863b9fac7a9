//! The interface of the schema layer that stands above the store.

use crate::error::SchemaError;
use vstd::prelude::*;
use vstd::string::*;

verus! {

/// A record type that can be checked and that names its table.
pub trait Schema {
    /// Checks the record against the rules of its table.
    fn schema_validate(&self) -> Result<(), SchemaError>;

    /// The table that records of this type belong to.
    fn table_name() -> &'static str;
}

/// What a record type declares of its table when it is defined.
pub trait CompileTimeSchema {
    /// The table that records of this type belong to.
    const TABLE_NAME: &'static str;

    /// How many fields the record type has.
    const FIELD_COUNT: usize;

    /// Whether the declaration names a table and has a field.
    fn validate_at_compile_time() -> (valid: bool)
        default_ensures
            valid == (Self::TABLE_NAME@.len() > 0 && Self::FIELD_COUNT > 0),
    {
        !Self::TABLE_NAME.is_empty() && Self::FIELD_COUNT > 0
    }
}

/// A byte that may stand in a table name: a letter, a digit or an
/// underscore.
pub open spec fn is_name_byte(byte: u8) -> bool {
    ||| 0x61 <= byte <= 0x7a
    ||| 0x41 <= byte <= 0x5a
    ||| 0x30 <= byte <= 0x39
    ||| byte == 0x5f
}

/// A table name is valid if it is not empty and made of letters, digits
/// and underscores alone.
pub open spec fn spec_valid_table_name(name: Seq<u8>) -> bool {
    name.len() > 0 && forall|i: int| 0 <= i < name.len() ==> is_name_byte(#[trigger] name[i])
}

/// Checks a table name.
pub fn valid_table_name(name: &str) -> (valid: bool)
    ensures
        valid == spec_valid_table_name(name.spec_bytes()),
{
    let bytes = name.as_bytes();
    if bytes.len() == 0 {
        return false;
    }
    let mut i: usize = 0;
    while i < bytes.len()
        invariant
            i <= bytes.len(),
            bytes@ == name.spec_bytes(),
            bytes.len() > 0,
            forall|k: int| 0 <= k < i ==> is_name_byte(#[trigger] bytes@[k]),
        decreases bytes.len() - i,
    {
        let byte = bytes[i];
        if !((byte >= 0x61 && byte <= 0x7a) || (byte >= 0x41 && byte <= 0x5a) || (byte >= 0x30
            && byte <= 0x39) || byte == 0x5f) {
            assert(!is_name_byte(bytes@[i as int]));
            return false;
        }
        i += 1;
    }
    true
}

} // verus!
