use openakb_validate::{validate, Code, Json, Mode};
use serde_json::Value;

fn to_json(value: &Value) -> Json {
    match value {
        Value::Null => Json::Null,
        Value::Bool(b) => Json::Bool(*b),
        Value::Number(n) => Json::Number(n.to_string()),
        Value::String(s) => Json::Str(s.clone()),
        Value::Array(items) => Json::Array(items.iter().map(to_json).collect()),
        Value::Object(members) => Json::Object(members.iter().map(|(k, v)| (k.clone(), to_json(v))).collect()),
    }
}

fn parse(text: &str) -> Value {
    serde_json::from_str(text).unwrap()
}

fn text(s: &str) -> Value {
    Value::String(s.to_owned())
}

fn descriptor() -> Value {
    parse(
        r#"{
            "$schema": "https://schema.openakb.org/v1/openakb.schema.json",
            "id": "valid-single",
            "title": "Valid single section",
            "description": "One root content section with a source; the floor of validity.",
            "tags": ["fixtures", "single_section"],
            "sources": [
                {
                    "id": "s1",
                    "type": "url",
                    "uri": "https://docs.example.com/a/"
                }
            ],
            "sections": [
                {
                    "id": "root",
                    "title": "Root",
                    "description": "The only section.",
                    "content_uri": "root.md",
                    "source_ids": ["s1"]
                }
            ]
        }"#,
    )
}

fn codes(descriptor: &Value) -> Vec<Code> {
    validate(&to_json(descriptor), Mode::Lenient).codes()
}

#[test]
fn test_minimal_descriptor_passes() {
    assert_eq!(codes(&descriptor()), Vec::new());
}

#[test]
fn test_trailing_newline_id_rejected() {
    let mut descriptor = descriptor();
    descriptor["sources"][0]["id"] = text("s1\n");
    descriptor["sections"][0]["source_ids"][0] = text("s1\n");

    assert!(codes(&descriptor).contains(&Code::Akb011));
}

#[test]
fn test_missing_required_field() {
    let mut descriptor = descriptor();
    descriptor.as_object_mut().unwrap().remove("title");

    assert_eq!(codes(&descriptor), vec![Code::Akb009]);
}

#[test]
fn test_oversized_title() {
    let mut descriptor = descriptor();
    descriptor["sections"][0]["title"] = text(&"x".repeat(201));

    assert_eq!(codes(&descriptor), vec![Code::Akb005]);
}

#[test]
fn test_unknown_rel() {
    let mut descriptor = descriptor();
    descriptor["sections"][0]["links"] = parse(r#"[{"rel": "totally made up", "section_id": "root"}]"#);

    assert!(codes(&descriptor).contains(&Code::Akb008));
}

#[test]
fn test_non_string_rel() {
    let mut descriptor = descriptor();
    descriptor["sections"][0]["links"] = parse(r#"[{"rel": 42, "section_id": "root"}]"#);

    let codes = codes(&descriptor);
    assert!(codes.contains(&Code::Akb011));
    assert!(!codes.contains(&Code::Akb008));
}

#[test]
fn test_link_without_target() {
    let mut descriptor = descriptor();
    descriptor["sections"][0]["links"] = parse(r#"[{"rel": "see-also"}]"#);

    assert!(codes(&descriptor).contains(&Code::Akb012));
}

#[test]
fn test_content_without_source() {
    let mut descriptor = descriptor();
    descriptor["sections"][0].as_object_mut().unwrap().remove("source_ids");

    assert!(codes(&descriptor).contains(&Code::Akb003));
}

#[test]
fn test_empty_source_ids() {
    let mut descriptor = descriptor();
    descriptor["sections"][0]["source_ids"] = parse("[]");

    assert!(codes(&descriptor).contains(&Code::Akb003));
}

#[test]
fn test_malformed_timestamp() {
    let mut descriptor = descriptor();
    descriptor["sources"][0]["captured_at"] = text("2026-06-28 00:00:00Z");

    assert!(codes(&descriptor).contains(&Code::Akb011));
}

#[test]
fn test_top_level_title_cap() {
    let mut descriptor = descriptor();
    descriptor["title"] = text(&"x".repeat(201));

    assert_eq!(codes(&descriptor), vec![Code::Akb005]);
}

#[test]
fn test_empty_description() {
    let mut descriptor = descriptor();
    descriptor["description"] = text("");

    assert_eq!(codes(&descriptor), vec![Code::Akb011]);
}

#[test]
fn test_empty_sources() {
    let mut descriptor = descriptor();
    descriptor["sources"] = parse("[]");

    assert_eq!(codes(&descriptor), vec![Code::Akb007, Code::Akb011]);
}

#[test]
fn test_negative_guide_length() {
    let mut descriptor = descriptor();
    descriptor["guide_length"] = parse("-1");

    assert_eq!(codes(&descriptor), vec![Code::Akb011]);
}

#[test]
fn test_invalid_schema_uri() {
    let mut descriptor = descriptor();
    descriptor["$schema"] = text("not a uri");

    assert!(codes(&descriptor).contains(&Code::Akb011));
}

#[test]
fn test_wrong_source_type() {
    let mut descriptor = descriptor();
    descriptor["sources"][0]["type"] = parse("42");

    assert_eq!(codes(&descriptor), vec![Code::Akb011]);
}

#[test]
fn test_too_many_tags() {
    let mut descriptor = descriptor();
    descriptor["tags"] = Value::Array((0..33).map(|index| text(&format!("tag{index}"))).collect());

    assert_eq!(codes(&descriptor), vec![Code::Akb005]);
}

#[test]
fn test_duplicate_tags() {
    let mut descriptor = descriptor();
    descriptor["tags"] = parse(r#"["same", "same"]"#);

    assert_eq!(codes(&descriptor), vec![Code::Akb011]);
}

#[test]
fn test_duplicate_source_ids() {
    let mut descriptor = descriptor();
    descriptor["sections"][0]["source_ids"] = parse(r#"["s1", "s1"]"#);

    assert_eq!(codes(&descriptor), vec![Code::Akb011]);
}

#[test]
fn test_unknown_extension_key() {
    let mut descriptor = descriptor();
    descriptor["x"] = parse(r#"{"not valid": true}"#);

    assert!(codes(&descriptor).contains(&Code::Akb011));
}

#[test]
fn test_extension_value_type() {
    let mut descriptor = descriptor();
    descriptor["x"] = parse(r#"{"docs.example": true}"#);

    assert_eq!(codes(&descriptor), vec![Code::Akb011]);
}

#[test]
fn test_scalar_input_reports() {
    assert_eq!(codes(&Value::Null), vec![Code::Akb011]);
}

#[test]
fn test_array_input_reports() {
    assert_eq!(codes(&parse("[]")), vec![Code::Akb011]);
}

#[test]
fn test_pinned_schema_uri_accepted() {
    let mut descriptor = descriptor();
    descriptor["$schema"] = text("https://schema.openakb.org/v1.0.1/openakb.schema.json");

    assert_eq!(codes(&descriptor), Vec::new());
}

#[test]
fn test_custom_rel_escape_accepted() {
    let mut descriptor = descriptor();
    descriptor["sections"][0]["links"] = parse(
        r#"[{"rel": "org.example:translation-of", "section_id": "root"}, {"rel": "part-of", "akb_uri": "https://kb.example.org/index/openakb.json"}]"#,
    );

    assert_eq!(codes(&descriptor), Vec::new());
}

#[test]
fn test_missing_rel_is_required() {
    let mut descriptor = descriptor();
    descriptor["sections"][0]["links"] = parse(r#"[{"section_id": "root"}]"#);

    assert_eq!(codes(&descriptor), vec![Code::Akb009]);
}
