use openakb_validate::{validate, Advisory, Code, Finding, Json, Mode, ValidationResult};
use serde_json::Value;

fn to_json(value: &Value) -> Json {
    match value {
        Value::Null => Json::Null,
        Value::Bool(b) => Json::Bool(*b),
        Value::Number(n) => Json::Number(n.to_string()),
        Value::String(s) => Json::Str(s.clone()),
        Value::Array(items) => Json::Array(items.iter().map(to_json).collect()),
        Value::Object(members) => Json::Object(members.iter().map(|(k, v)| (k.clone(), to_json(v))).collect()),
    }
}

fn parse(text: &str) -> Value {
    serde_json::from_str(text).unwrap()
}

fn descriptor() -> Value {
    parse(
        r#"{
            "$schema": "https://schema.openakb.org/v1/openakb.schema.json",
            "id": "facade-fixture",
            "title": "Facade",
            "description": "Base for facade tests.",
            "sources": [{"id":"s1","type":"url","uri":"https://docs.example.com/a/"}],
            "sections": [{"id":"root","title":"Root","description":"The only section.","content_uri":"root.md","source_ids":["s1"]}]
        }"#,
    )
}

fn run(descriptor: &Value, mode: Mode) -> ValidationResult {
    validate(&to_json(descriptor), mode)
}

fn codes(result: &ValidationResult) -> Vec<Code> {
    result.codes()
}

#[test]
fn test_valid_descriptor_ok() {
    let descriptor = descriptor();

    let lenient = run(&descriptor, Mode::Lenient);
    let strict = run(&descriptor, Mode::Strict);

    assert!(lenient.ok());
    assert!(lenient.findings.is_empty());
    assert!(lenient.warnings.is_empty());
    assert!(strict.ok());
    assert!(strict.findings.is_empty());
    assert!(strict.warnings.is_empty());
}

#[test]
fn test_lenient_vs_strict() {
    let mut descriptor = descriptor();
    descriptor["future_field"] = Value::Bool(true);

    let lenient = run(&descriptor, Mode::Lenient);
    let strict = run(&descriptor, Mode::Strict);

    assert!(lenient.ok());
    assert_eq!(codes(&strict), vec![Code::Akb006]);
}

#[test]
fn test_findings_sorted_deduped() {
    let mut descriptor = descriptor();
    descriptor.as_object_mut().unwrap().remove("title");
    descriptor["sections"][0]["source_ids"] = parse(r#"["ghost"]"#);

    let result = run(&descriptor, Mode::Strict);
    let mut sorted_deduped = result.findings.clone();
    sorted_deduped.sort();
    sorted_deduped.dedup();

    assert!(!result.findings.is_empty());
    assert_eq!(result.findings, sorted_deduped);
}

#[test]
fn test_total_on_any_json() {
    for descriptor in [
        Value::Null,
        parse("42"),
        parse(r#""not a descriptor""#),
        parse("[]"),
        parse("{}"),
        parse(r#"{"sources":[null, 7], "sections":{"root": true}}"#),
    ] {
        let _ = run(&descriptor, Mode::Lenient);
        let _ = run(&descriptor, Mode::Strict);
    }
}

#[test]
fn test_warnings_never_block() {
    let mut descriptor = descriptor();
    descriptor["sources"] = parse(
        r#"[
            {"id":"s1","type":"url","uri":"https://docs.example.com/a/","discovered_via_id":"s2"},
            {"id":"s2","type":"url","uri":"https://docs.example.com/b/","discovered_via_id":"s1"}
        ]"#,
    );

    let result = run(&descriptor, Mode::Lenient);

    assert!(result.ok());
    assert_eq!(result.warnings.len(), 1);
    assert_eq!(codes(&result), Vec::<Code>::new());
}

#[test]
fn test_mode_default_lenient() {
    assert_eq!(Mode::default(), Mode::Lenient);
}

#[test]
fn test_public_exports_compile() {
    let _finding = Finding {
        code: Code::Akb001,
        path: String::new(),
        message: String::new(),
    };
    let _advisory = Advisory {
        path: String::new(),
        message: String::new(),
    };
    let _result = ValidationResult::default();
}

#[test]
fn test_discovery_cycle_advisory_text() {
    let mut descriptor = descriptor();
    descriptor["sources"] = parse(
        r#"[
            {"id":"SRC-000002","type":"url","uri":"https://docs.example.com/b/","discovered_via_id":"src-000001"},
            {"id":"SRC-000001","type":"url","uri":"https://docs.example.com/a/","discovered_via_id":"SRC-000002"}
        ]"#,
    );

    for mode in [Mode::Lenient, Mode::Strict] {
        let result = run(&descriptor, mode);
        assert_eq!(
            result.warnings,
            vec![Advisory {
                path: "/sources/1/discovered_via_id".to_owned(),
                message: "discovered_via_id cycle: SRC-000001 -> SRC-000002 -> SRC-000001".to_owned(),
            }]
        );
    }
}

#[test]
fn test_strict_keeps_lenient_findings() {
    let mut descriptor = descriptor();
    descriptor["sections"][0]["parent_id"] = Value::String("SEC-999999".to_owned());
    descriptor["sections"][0]["wild"] = Value::Bool(true);

    let lenient = run(&descriptor, Mode::Lenient);
    let strict = run(&descriptor, Mode::Strict);

    for finding in &lenient.findings {
        assert!(strict.findings.contains(finding));
        assert_ne!(finding.code, Code::Akb006);
    }
    for finding in &strict.findings {
        if !lenient.findings.contains(finding) {
            assert_eq!(finding.code, Code::Akb006);
        }
    }
    assert_eq!(codes(&lenient), vec![Code::Akb007]);
    assert_eq!(codes(&strict), vec![Code::Akb006, Code::Akb007]);
}

fn nested(depth: usize) -> Value {
    let mut value = Value::Null;
    for _ in 0..depth {
        value = Value::Array(vec![value]);
    }
    value
}

#[test]
fn test_deep_extension_still_walked() {
    let mut descriptor = descriptor();
    descriptor["x"] = parse(r#"{"org.example": {}}"#);
    descriptor["x"]["org.example"]["deep"] = nested(300);

    let result = run(&descriptor, Mode::Strict);
    assert!(result.ok());
}

#[test]
fn test_too_deep_declines_schema_walk() {
    let mut descriptor = descriptor();
    descriptor["x"] = parse(r#"{"org.example": {}}"#);
    descriptor["x"]["org.example"]["deep"] = nested(1100);

    let result = run(&descriptor, Mode::Lenient);
    assert_eq!(
        result.findings,
        vec![Finding {
            code: Code::Akb011,
            path: String::new(),
            message: "structural nesting depth exceeds the maximum of 1024".to_owned(),
        }]
    );
}

#[test]
fn test_lenient_findings_within_strict() {
    let mut descriptor = descriptor();
    descriptor["sections"][0]["parent_id"] = Value::String("ghost".to_owned());
    descriptor["sections"][0]["wild"] = Value::Bool(true);
    descriptor["extra"] = Value::Bool(true);
    descriptor.as_object_mut().unwrap().remove("title");

    let lenient = run(&descriptor, Mode::Lenient);
    let strict = run(&descriptor, Mode::Strict);
    let mut rest = strict.findings.iter();
    for finding in &lenient.findings {
        assert!(rest.any(|other| other == finding));
        assert_ne!(finding.code, Code::Akb006);
    }
    for finding in &strict.findings {
        if !lenient.findings.contains(finding) {
            assert_eq!(finding.code, Code::Akb006);
        }
    }
    assert_eq!(lenient.warnings, strict.warnings);
}
