use rust_db::schema::valid_table_name;
use rust_db::{CompileTimeSchema, DbError, Schema, SchemaError};

struct User {
    name: String,
}

impl Schema for User {
    fn schema_validate(&self) -> Result<(), SchemaError> {
        if self.name.is_empty() {
            Err(SchemaError::IndexFieldEmpty("name".to_string()))
        } else {
            Ok(())
        }
    }

    fn table_name() -> &'static str {
        "User"
    }
}

impl CompileTimeSchema for User {
    const TABLE_NAME: &'static str = "User";
    const FIELD_COUNT: usize = 1;
}

struct Nameless;

impl CompileTimeSchema for Nameless {
    const TABLE_NAME: &'static str = "";
    const FIELD_COUNT: usize = 3;
}

struct Fieldless;

impl CompileTimeSchema for Fieldless {
    const TABLE_NAME: &'static str = "Fieldless";
    const FIELD_COUNT: usize = 0;
}

#[test]
fn schema_can_be_implemented() {
    assert!(User { name: "Alice".to_string() }.schema_validate().is_ok());
    assert!(matches!(
        User { name: String::new() }.schema_validate(),
        Err(SchemaError::IndexFieldEmpty(field)) if field == "name"
    ));
    assert_eq!(User::table_name(), "User");
}

#[test]
fn declaration_needs_a_name_and_a_field() {
    assert!(User::validate_at_compile_time());
    assert!(!Nameless::validate_at_compile_time());
    assert!(!Fieldless::validate_at_compile_time());
}

#[test]
fn table_names_of_letters_digits_and_underscores_are_valid() {
    assert!(valid_table_name("User"));
    assert!(valid_table_name("user_2"));
    assert!(valid_table_name("_"));
    assert!(valid_table_name("azAZ09_"));
}

#[test]
fn other_table_names_are_not_valid() {
    assert!(!valid_table_name(""));
    assert!(!valid_table_name("Invalid-Table-Name!"));
    assert!(!valid_table_name("a b"));
    assert!(!valid_table_name("caf\u{e9}"));
    assert!(!valid_table_name("a`"));
    assert!(!valid_table_name("a{"));
    assert!(!valid_table_name("a@"));
    assert!(!valid_table_name("a["));
    assert!(!valid_table_name("a/"));
    assert!(!valid_table_name("a:"));
}

#[test]
fn errors_render_as_text() {
    assert_eq!(
        DbError::SchemaError("bad".to_string()).message(),
        "Schema validation error: bad"
    );
    assert_eq!(DbError::StorageError("disk".to_string()).message(), "Storage error: disk");
    assert_eq!(
        DbError::SerializationError("bytes".to_string()).message(),
        "Serialization error :bytes"
    );
    assert_eq!(
        SchemaError::IndexFieldEmpty("email".to_string()).message(),
        "Index field 'email' cannot be empty"
    );
}
