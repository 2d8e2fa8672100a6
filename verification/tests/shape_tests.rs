//! Id grammar behavior pinned through the public `validate` contract.

use openakb_validate::{validate, Code, Json, Mode};
use serde_json::Value;

fn to_json(value: &Value) -> Json {
    match value {
        Value::Null => Json::Null,
        Value::Bool(b) => Json::Bool(*b),
        Value::Number(n) => Json::Number(n.to_string()),
        Value::String(s) => Json::Str(s.clone()),
        Value::Array(items) => Json::Array(items.iter().map(to_json).collect()),
        Value::Object(members) => Json::Object(members.iter().map(|(k, v)| (k.clone(), to_json(v))).collect()),
    }
}

fn parse(text: &str) -> Value {
    serde_json::from_str(text).unwrap()
}

fn text(s: &str) -> Value {
    Value::String(s.to_owned())
}

fn descriptor() -> Value {
    parse(
        r#"{
            "$schema": "https://schema.openakb.org/v1/openakb.schema.json",
            "id": "shape-fixture",
            "title": "Shape",
            "description": "Base for typed-id shape tests.",
            "sources": [{"id":"SRC-000001","type":"url","uri":"https://docs.example.com/a/"}],
            "sections": [{"id":"SEC-000001","title":"Root","description":"The only section.","content_uri":"root.md","source_ids":["SRC-000001"]}]
        }"#,
    )
}

fn codes(descriptor: &Value) -> Vec<Code> {
    validate(&to_json(descriptor), Mode::Lenient).codes()
}

#[test]
fn test_typed_ids_clean() {
    for (source_id, section_id) in [
        ("SRC-000001", "SEC-000001"),
        ("src-abc123", "sec-ABC123"),
        ("SRC-ZZZZZZ", "SEC-zzzzzz"),
    ] {
        let mut descriptor = descriptor();
        descriptor["sources"][0]["id"] = text(source_id);
        descriptor["sections"][0]["id"] = text(section_id);
        descriptor["sections"][0]["source_ids"] = Value::Array(vec![text(source_id)]);

        assert_eq!(codes(&descriptor), Vec::new());
    }
}

#[test]
fn test_typed_reference_case_insensitive() {
    let mut descriptor = descriptor();
    descriptor["sections"] = parse(
        r#"[
            {"id":"SEC-000001","title":"Root","description":"The only section.","content_uri":"root.md","source_ids":["SRC-000001"]},
            {"id":"SEC-000002","title":"Child","description":"A child section.","content_uri":"child.md","source_ids":["SRC-000001"],"parent_id":"sec-000001"}
        ]"#,
    );

    assert_eq!(codes(&descriptor), Vec::new());
}

#[test]
fn test_prefix_kind_wrong_reference() {
    for parent_id in ["SRC-000001", "src-000001"] {
        let mut descriptor = descriptor();
        descriptor["sections"][0]["parent_id"] = text(parent_id);

        assert_eq!(codes(&descriptor), vec![Code::Akb010]);
    }
}

#[test]
fn test_right_prefix_unresolved() {
    let mut descriptor = descriptor();
    descriptor["sections"][0]["parent_id"] = text("SEC-999999");

    assert_eq!(codes(&descriptor), vec![Code::Akb007]);
}

#[test]
fn test_malformed_typed_token_schema_only() {
    for malformed in ["SEC-", "SEC-0000", "SEC-0000000", "SEC-0000_1", "SRC-00000"] {
        let mut descriptor = descriptor();
        descriptor["sections"][0]["parent_id"] = text(malformed);

        assert_eq!(codes(&descriptor), vec![Code::Akb011]);
    }
}

#[test]
fn test_unicode_case_folds_rejected() {
    for foldable in ["SEC-00000\u{212a}", "SEC-00000\u{017f}"] {
        let mut descriptor = descriptor();
        descriptor["sections"][0]["parent_id"] = text(foldable);

        assert_eq!(codes(&descriptor), vec![Code::Akb011]);
    }
}

// A plain token such as `ghost` follows the local id grammar, which the
// specification resolves by lookup: undeclared, it is `AKB007`, not a
// malformed value reported by the schema alone.
#[test]
fn test_plain_token_resolved_by_lookup() {
    let mut descriptor = descriptor();
    descriptor["sections"][0]["parent_id"] = text("ghost");

    assert_eq!(codes(&descriptor), vec![Code::Akb007]);
}

#[test]
fn test_token_outside_both_grammars_schema_only() {
    for malformed in ["Ghost", "gh ost", ""] {
        let mut descriptor = descriptor();
        descriptor["sections"][0]["parent_id"] = text(malformed);

        assert_eq!(codes(&descriptor), vec![Code::Akb011]);
    }
}
