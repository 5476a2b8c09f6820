use ferrumdb::cli::{parse, Command};
use ferrumdb::error::FerrumError;

fn json_string(s: &str) -> String {
    serde_json::Value::String(s.to_string()).to_string()
}

#[test]
fn test_parse_set() {
    assert_eq!(
        parse("SET name usman").unwrap(),
        Command::Put { key: "name".into(), value: json_string("usman") }
    );
}

#[test]
fn test_parse_set_with_spaces_in_value() {
    assert_eq!(
        parse("SET greeting hello world").unwrap(),
        Command::Put { key: "greeting".into(), value: json_string("hello world") }
    );
}

#[test]
fn test_parse_set_json() {
    let mut obj = serde_json::Map::new();
    obj.insert("id".to_string(), serde_json::Value::from(1));
    assert_eq!(
        parse(r#"SET user {"id": 1}"#).unwrap(),
        Command::Put { key: "user".into(), value: serde_json::Value::Object(obj).to_string() }
    );
}

#[test]
fn test_parse_get() {
    assert_eq!(parse("get name").unwrap(), Command::Get { key: "name".into() });
}

#[test]
fn test_parse_delete() {
    assert_eq!(parse("DEL name").unwrap(), Command::Delete { key: "name".into() });
}

#[test]
fn test_parse_invalid() {
    assert!(parse("INVALID").is_err());
}

#[test]
fn parse_reports_uppercased_unknown_command() {
    assert_eq!(parse("frobnicate x").unwrap_err(), FerrumError::InvalidCommand("FROBNICATE".into()));
}

#[test]
fn parse_empty_line_is_invalid_command() {
    assert_eq!(parse("   ").unwrap_err(), FerrumError::InvalidCommand(String::new()));
}

#[test]
fn parse_missing_arguments() {
    assert_eq!(parse("SET").unwrap_err(), FerrumError::MissingArgument("key"));
    assert_eq!(parse("SET k").unwrap_err(), FerrumError::MissingArgument("value"));
    assert_eq!(parse("GET").unwrap_err(), FerrumError::MissingArgument("key"));
    assert_eq!(parse("delete").unwrap_err(), FerrumError::MissingArgument("key"));
    assert_eq!(parse("INDEX").unwrap_err(), FerrumError::MissingArgument("field"));
    assert_eq!(parse("FIND").unwrap_err(), FerrumError::MissingArgument("field"));
    assert_eq!(parse("find role").unwrap_err(), FerrumError::MissingArgument("value"));
}

#[test]
fn parse_simple_commands_and_synonyms() {
    assert_eq!(parse("keys").unwrap(), Command::Keys);
    assert_eq!(parse("COUNT").unwrap(), Command::Count);
    assert_eq!(parse("Help").unwrap(), Command::Help);
    assert_eq!(parse("exit").unwrap(), Command::Exit);
    assert_eq!(parse("QUIT").unwrap(), Command::Exit);
    assert_eq!(parse("DELETE k").unwrap(), Command::Delete { key: "k".into() });
    assert_eq!(parse("create_index role").unwrap(), Command::CreateIndex { field: "role".into() });
    assert_eq!(parse("INDEX role").unwrap(), Command::CreateIndex { field: "role".into() });
}

#[test]
fn parse_find_reads_json_value() {
    assert_eq!(
        parse("FIND role \"admin\"").unwrap(),
        Command::Find { field: "role".into(), value: json_string("admin") }
    );
    assert_eq!(
        parse("FIND score 42").unwrap(),
        Command::Find { field: "score".into(), value: "42".into() }
    );
}

#[test]
fn parse_trims_and_splits_on_single_whitespace() {
    // Surrounding whitespace is ignored; a doubled space gives an empty key.
    assert_eq!(
        parse("  SET  a b  ").unwrap(),
        Command::Put { key: "".into(), value: json_string("a b") }
    );
    assert_eq!(parse("\tget\tk").unwrap(), Command::Get { key: "k".into() });
}
