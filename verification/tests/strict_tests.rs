use openakb_validate::strict::{known_keys, Profile};
use openakb_validate::schema::DESCRIPTOR_SCHEMA;
use openakb_validate::{validate, Code, Json, Mode};
use serde_json::Value;

fn to_json(value: &Value) -> Json {
    match value {
        Value::Null => Json::Null,
        Value::Bool(b) => Json::Bool(*b),
        Value::Number(n) => Json::Number(n.to_string()),
        Value::String(s) => Json::Str(s.clone()),
        Value::Array(items) => Json::Array(items.iter().map(to_json).collect()),
        Value::Object(members) => Json::Object(members.iter().map(|(k, v)| (k.clone(), to_json(v))).collect()),
    }
}

fn parse(text: &str) -> Value {
    serde_json::from_str(text).unwrap()
}

fn text(s: &str) -> Value {
    Value::String(s.to_owned())
}

fn descriptor() -> Value {
    parse(
        r#"{
            "$schema": "https://schema.openakb.org/v1/openakb.schema.json",
            "id": "strict-fixture",
            "title": "Strict",
            "description": "Base for strict-rule tests.",
            "sources": [{"id":"s1","type":"url","uri":"https://docs.example.com/a/"}],
            "sections": [{"id":"root","title":"Root","description":"The only section.","content_uri":"root.md","source_ids":["s1"]}]
        }"#,
    )
}

fn akb006_paths(descriptor: &Value) -> Vec<String> {
    let mut paths: Vec<_> = validate(&to_json(descriptor), Mode::Strict)
        .findings
        .into_iter()
        .filter(|finding| finding.code == Code::Akb006)
        .map(|finding| finding.path)
        .collect();
    paths.sort();
    paths
}

#[test]
fn test_unknown_top_key() {
    let mut descriptor = descriptor();
    descriptor["future_field"] = Value::Bool(true);

    assert!(validate(&to_json(&descriptor), Mode::Lenient).ok());
    assert_eq!(akb006_paths(&descriptor), vec!["/future_field"]);
}

#[test]
fn test_extension_keys_exempt() {
    let mut descriptor = descriptor();
    descriptor["x"] = parse(r#"{"com.example": {"future_field": true}}"#);
    descriptor["sections"][0]["x"] = parse(r#"{"org.example": {"nested": {"unknown": true}}}"#);

    assert!(validate(&to_json(&descriptor), Mode::Strict).ok());
}

#[test]
fn test_nested_unknown_key() {
    let mut descriptor = descriptor();
    descriptor["sources"][0]["wild"] = parse("1");
    descriptor["sections"][0]["links"] = parse(r#"[{"rel":"see-also","section_id":"root","why":"?"}]"#);

    assert_eq!(
        akb006_paths(&descriptor),
        vec!["/sections/0/links/0/why", "/sources/0/wild"]
    );
}

#[test]
fn test_known_keys_clean() {
    assert!(validate(&to_json(&descriptor()), Mode::Strict).ok());
}

#[test]
fn test_claim_locator_unknown() {
    let mut descriptor = descriptor();
    descriptor["sections"][0]["provenance"] = parse(
        r#"[{"text":"Inline claim.","source_ids":["s1"],"confidence":0.8,"locator":{"quote":"Inline","extra":true}}]"#,
    );

    assert_eq!(
        akb006_paths(&descriptor),
        vec![
            "/sections/0/provenance/0/confidence",
            "/sections/0/provenance/0/locator/extra"
        ]
    );
}

#[test]
fn test_non_object_ignored() {
    let descriptor = Value::Null;

    assert!(akb006_paths(&descriptor).is_empty());
}

#[test]
fn test_unknown_member_message_and_escaped_path() {
    let mut descriptor = descriptor();
    descriptor["odd/key"] = text("v");

    let findings: Vec<_> = validate(&to_json(&descriptor), Mode::Strict)
        .findings
        .into_iter()
        .filter(|finding| finding.code == Code::Akb006)
        .collect();

    assert_eq!(findings.len(), 1);
    assert_eq!(findings[0].path, "/odd~1key");
    assert_eq!(
        findings[0].message,
        "unknown core member \"odd/key\": forward-minor data is tolerated by the lenient default; vendor data belongs under 'x'"
    );
}

#[test]
fn test_every_documented_member_known() {
    let descriptor = parse(
        r#"{
            "$schema": "https://schema.openakb.org/v1/openakb.schema.json",
            "id": "full", "namespace": "acme", "title": "Full", "description": "Every member.",
            "subject_type": "product", "tags": ["a"], "language": "en", "guide_uri": "AKB.md",
            "guide_length": 1, "revision": "r1", "base_uri": "https://kb.example.org/full/",
            "created_at": "2026-01-01T00:00:00Z", "updated_at": "2026-01-02T00:00:00Z", "x": {},
            "sources": [{"id": "s1", "type": "url", "uri": "https://example.com/", "title": "T",
                "captured_at": "2026-01-01T00:00:00Z", "capture_uri": "cap.html", "content_length": 3,
                "refresh_class": "static", "cadence": "daily", "x": {}}],
            "sections": [{"id": "root", "title": "Root", "description": "D", "purpose": "P",
                "content_uri": "root.md", "content_type": "text/markdown", "content_length": 3,
                "language": "en", "source_ids": ["s1"], "provenance_uri": "p.json",
                "provenance_length": 2, "refreshed_at": "2026-01-01T00:00:00Z", "x": {},
                "provenance": [{"text": "t", "source_ids": ["s1"], "x": {},
                    "locator": {"quote": "q", "page": 1, "anchor": "a", "x": {}}}],
                "links": [{"rel": "related", "section_id": "root", "akb_uri": "../other/openakb.json",
                    "revision": "r0", "description": "d", "x": {}}]}]
        }"#,
    );

    assert_eq!(akb006_paths(&descriptor), Vec::<String>::new());
    assert!(validate(&to_json(&descriptor), Mode::Strict).ok());
}

fn property_names(properties: &Value) -> Vec<String> {
    let mut names: Vec<String> = properties.as_object().unwrap().keys().cloned().collect();
    names.sort();
    names
}

fn known(profile: Profile) -> Vec<String> {
    let mut names: Vec<String> = known_keys(profile)
        .into_iter()
        .map(str::to_owned)
        .collect();
    names.sort();
    names
}

#[test]
fn test_known_keys_match_schema() {
    let schema = parse(DESCRIPTOR_SCHEMA);
    let defs = &schema["$defs"];
    assert_eq!(known(Profile::Top), property_names(&schema["properties"]));
    assert_eq!(known(Profile::Source), property_names(&defs["source"]["properties"]));
    assert_eq!(known(Profile::Section), property_names(&defs["section"]["properties"]));
    assert_eq!(known(Profile::Claim), property_names(&defs["claim"]["properties"]));
    assert_eq!(
        known(Profile::Locator),
        property_names(&defs["claim"]["properties"]["locator"]["properties"])
    );
    assert_eq!(known(Profile::Link), property_names(&defs["link"]["properties"]));
}
