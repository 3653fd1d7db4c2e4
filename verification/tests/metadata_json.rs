use crap_analyzer::cargo::error::Error;
use crap_analyzer::cargo::json::Json;
use crap_analyzer::cargo::workspace::{all_members, metadata_from_text, packages_from_metadata};

#[test]
fn parses_object_string_array() {
    let json = Json::parse(r#"{"workspace_members":["a"],"n":1}"#);
    assert!(json.is_ok());
    let value = json.unwrap_or(Json::Null);
    let members = value.get("workspace_members").and_then(Json::as_array);
    assert!(members.is_some());
    let items = members.unwrap_or(&[]);
    assert_eq!(items.first().and_then(Json::as_str), Some("a"));
}

#[test]
fn rejects_trailing_junk() {
    assert!(Json::parse("true false").is_err());
}

#[test]
fn keeps_utf8_in_strings() {
    let json = Json::parse(r#"{"manifest_path":"/tmp/用户/Cargo.toml"}"#);
    assert!(json.is_ok());
    let value = json.unwrap_or(Json::Null);
    assert_eq!(
        value.get("manifest_path").and_then(Json::as_str),
        Some("/tmp/用户/Cargo.toml")
    );
}

const METADATA: &str = r#"{
  "workspace_members": ["pkg a 1"],
  "packages": [
    {
      "name": "a",
      "id": "pkg a 1",
      "manifest_path": "/tmp/a/Cargo.toml"
    },
    {
      "name": "b",
      "id": "pkg b 1",
      "manifest_path": "/tmp/b/Cargo.toml"
    }
  ]
}"#;

#[test]
fn reads_members_from_metadata_json() {
    let json = metadata_from_text(METADATA);
    assert!(json.is_ok());
    let value = json.unwrap_or(Json::Null);
    let pkgs = packages_from_metadata(&value);
    assert!(pkgs.is_ok());
    let pkgs = pkgs.unwrap_or_default();
    assert_eq!(pkgs.len(), 1);
    assert_eq!(pkgs[0].name, "a");
    assert_eq!(pkgs[0].root, "/tmp/a");
}

fn metadata_message(r: Result<Vec<crap_analyzer::cargo::workspace::Package>, Error>) -> String {
    match r {
        Err(Error::Metadata(m)) => m,
        _ => String::new(),
    }
}

#[test]
fn all_members_reads_the_same_text() {
    let pkgs = all_members(METADATA).unwrap_or_default();
    assert_eq!(pkgs.len(), 1);
    assert_eq!(pkgs[0].root, "/tmp/a");
}

#[test]
fn metadata_shape_errors_are_named() {
    let missing = Json::parse(r#"{"packages":[]}"#).unwrap_or(Json::Null);
    assert_eq!(metadata_message(packages_from_metadata(&missing)), "missing workspace_members array");
    let numbers = Json::parse(r#"{"workspace_members":[1],"packages":[]}"#).unwrap_or(Json::Null);
    assert_eq!(metadata_message(packages_from_metadata(&numbers)), "workspace_members must be strings");
    let no_packages = Json::parse(r#"{"workspace_members":[]}"#).unwrap_or(Json::Null);
    assert_eq!(metadata_message(packages_from_metadata(&no_packages)), "missing packages array");
    let rootless = Json::parse(
        r#"{"workspace_members":["x"],"packages":[{"id":"x","name":"x","manifest_path":"/"}]}"#,
    )
    .unwrap_or(Json::Null);
    assert_eq!(metadata_message(packages_from_metadata(&rootless)), "manifest_path has no parent");
}

#[test]
fn incomplete_package_entries_are_skipped() {
    let json = Json::parse(
        r#"{"workspace_members":["x","y"],"packages":[{"id":"x","name":"x"},{"id":"y","name":"y","manifest_path":"ws/y/Cargo.toml"}]}"#,
    )
    .unwrap_or(Json::Null);
    let pkgs = packages_from_metadata(&json).unwrap_or_default();
    assert_eq!(pkgs.len(), 1);
    assert_eq!(pkgs[0].name, "y");
    assert_eq!(pkgs[0].root, "ws/y");
}

#[test]
fn metadata_text_is_read_by_serde_json() {
    let err = metadata_from_text("nope");
    let msg = match err {
        Err(Error::Metadata(m)) => m,
        _ => String::new(),
    };
    assert!(msg.contains("line 1 column"), "{msg}");
    let value = metadata_from_text(r#"{"n": 1.50, "b": [true, null]}"#).unwrap_or(Json::Null);
    match value.get("n") {
        Some(Json::Number(n)) => assert_eq!(n, "1.5"),
        _ => panic!("number missing"),
    }
}

#[test]
fn json_errors_follow_the_byte_reader() {
    assert_eq!(Json::parse("").err(), Some("unexpected end of JSON".to_owned()));
    assert_eq!(Json::parse("nul").err(), Some("unexpected end of JSON".to_owned()));
    assert_eq!(Json::parse("nulx").err(), Some("invalid JSON literal".to_owned()));
    assert_eq!(Json::parse("x").err(), Some("unexpected JSON byte 120".to_owned()));
    assert_eq!(Json::parse("[1 2]").err(), Some("expected , found 2".to_owned()));
    assert_eq!(Json::parse(r#"{"a" 1}"#).err(), Some("expected : found 1".to_owned()));
    assert_eq!(Json::parse("-").err(), Some("expected JSON digits".to_owned()));
    assert_eq!(Json::parse(r#""\q""#).err(), Some("unknown JSON escape q".to_owned()));
    assert_eq!(Json::parse(r#""\u12g4""#).err(), Some("invalid \\u escape".to_owned()));
    assert_eq!(Json::parse(r#""\ud800""#).err(), Some("invalid unicode escape".to_owned()));
    assert_eq!(Json::parse("\"a\u{1}\"").err(), Some("control in JSON string".to_owned()));
}

#[test]
fn escapes_numbers_and_repeated_keys() {
    let v = Json::parse(r#" {"s":"a\"b\\c\/\n\u00e9","n":-1.5e+3,"k":1,"k":2} "#).unwrap_or(Json::Null);
    assert_eq!(v.get("s").and_then(Json::as_str), Some("a\"b\\c/\né"));
    match v.get("n") {
        Some(Json::Number(n)) => assert_eq!(n, "-1.5e+3"),
        _ => panic!("number missing"),
    }
    match v.get("k") {
        Some(Json::Number(n)) => assert_eq!(n, "2"),
        _ => panic!("key missing"),
    }
    match &v {
        Json::Object(entries) => assert_eq!(entries.len(), 3),
        _ => panic!("not an object"),
    }
    assert!(v.get("missing").is_none());
    assert!(Json::Null.get("s").is_none());
    assert!(Json::Bool(true).as_array().is_none());
}

#[test]
fn metadata_strings_may_hold_the_delete_character() {
    let text = "{\"workspace_members\":[\"x\u{7f}\"],\"packages\":[{\"id\":\"x\u{7f}\",\"name\":\"de\u{7f}l\",\"manifest_path\":\"/tmp/d\u{7f}/Cargo.toml\"}]}";
    let pkgs = all_members(text).unwrap_or_default();
    assert_eq!(pkgs.len(), 1);
    assert_eq!(pkgs[0].name, "de\u{7f}l");
    assert_eq!(pkgs[0].root, "/tmp/d\u{7f}");
    assert!(Json::parse("\"a\u{7f}\"").is_err());
}
