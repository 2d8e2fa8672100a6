use openakb_validate::{validate, Code, Json, Mode};
use serde_json::Value;

fn to_json(value: &Value) -> Json {
    match value {
        Value::Null => Json::Null,
        Value::Bool(b) => Json::Bool(*b),
        Value::Number(n) => Json::Number(n.to_string()),
        Value::String(s) => Json::Str(s.clone()),
        Value::Array(items) => Json::Array(items.iter().map(to_json).collect()),
        Value::Object(members) => Json::Object(members.iter().map(|(k, v)| (k.clone(), to_json(v))).collect()),
    }
}

fn parse(text: &str) -> Value {
    serde_json::from_str(text).unwrap()
}

fn text(s: &str) -> Value {
    Value::String(s.to_owned())
}

fn descriptor() -> Value {
    parse(
        r#"{
            "$schema": "https://schema.openakb.org/v1/openakb.schema.json",
            "id": "semantic-fixture",
            "title": "Semantic",
            "description": "Base for semantic-rule tests.",
            "sources": [{"id":"s1","type":"url","uri":"https://docs.example.com/a/"}],
            "sections": [{"id":"root","title":"Root","description":"The only section.","content_uri":"root.md","source_ids":["s1"]}]
        }"#,
    )
}

fn typed_descriptor() -> Value {
    parse(
        r#"{
            "$schema": "https://schema.openakb.org/v1/openakb.schema.json",
            "id": "semantic-fixture",
            "title": "Semantic",
            "description": "Base for semantic-rule tests.",
            "sources": [{"id":"SRC-000001","type":"url","uri":"https://docs.example.com/a/"}],
            "sections": [{"id":"SEC-000001","title":"Root","description":"The only section.","content_uri":"root.md","source_ids":["SRC-000001"]}]
        }"#,
    )
}

fn codes(descriptor: &Value) -> Vec<Code> {
    validate(&to_json(descriptor), Mode::Lenient).codes()
}

fn paths_for(descriptor: &Value, code: Code) -> Vec<String> {
    validate(&to_json(descriptor), Mode::Lenient)
        .findings
        .into_iter()
        .filter(|finding| finding.code == code)
        .map(|finding| finding.path)
        .collect()
}

fn messages_for(descriptor: &Value, code: Code) -> Vec<String> {
    validate(&to_json(descriptor), Mode::Lenient)
        .findings
        .into_iter()
        .filter(|finding| finding.code == code)
        .map(|finding| finding.message)
        .collect()
}

#[test]
fn test_duplicate_ids() {
    let mut descriptor = descriptor();
    descriptor["sources"] = parse(
        r#"[
            {"id":"s1","type":"url","uri":"https://docs.example.com/a/"},
            {"id":"s1","type":"url","uri":"https://docs.example.com/b/"}
        ]"#,
    );

    let paths = paths_for(&descriptor, Code::Akb001);

    assert_eq!(paths, vec!["/sources/1/id"]);
}

#[test]
fn test_shared_namespace_duplicate() {
    let mut descriptor = descriptor();
    descriptor["sections"][0]["id"] = text("s1");

    assert!(codes(&descriptor).contains(&Code::Akb001));
}

#[test]
fn test_empty_section() {
    let mut descriptor = descriptor();
    descriptor["sections"]
        .as_array_mut()
        .unwrap()
        .push(parse(r#"{"id":"hollow","title":"Hollow","description":"No content or child."}"#));

    let paths = paths_for(&descriptor, Code::Akb002);

    assert_eq!(paths, vec!["/sections/1"]);
}

#[test]
fn test_unresolved_references() {
    let mut descriptor = descriptor();
    descriptor["sources"][0]["discovered_via_id"] = text("ghost-source");
    descriptor["sections"][0]["parent_id"] = text("ghost-parent");
    descriptor["sections"][0]["source_ids"] = parse(r#"["s1", "ghost-source"]"#);
    descriptor["sections"][0]["links"] = parse(r#"[{"rel":"see-also","section_id":"ghost-section"}]"#);
    descriptor["sections"][0]["provenance"] = parse(r#"[{"text":"Inline claim.","source_ids":["ghost-claim-source"]}]"#);

    let paths = paths_for(&descriptor, Code::Akb007);

    assert_eq!(
        paths,
        vec![
            "/sections/0/links/0/section_id",
            "/sections/0/parent_id",
            "/sections/0/provenance/0/source_ids/0",
            "/sections/0/source_ids/1",
            "/sources/0/discovered_via_id",
        ]
    );
}

#[test]
fn test_wrong_kind_references() {
    let mut descriptor = descriptor();
    descriptor["sections"][0]["parent_id"] = text("s1");
    descriptor["sections"][0]["source_ids"] = parse(r#"["s1", "root"]"#);

    let result = validate(&to_json(&descriptor), Mode::Lenient);
    let findings: Vec<_> = result
        .findings
        .iter()
        .filter(|finding| finding.code == Code::Akb010)
        .collect();

    assert_eq!(result.codes(), vec![Code::Akb010]);
    assert_eq!(findings.len(), 2);
}

#[test]
fn test_link_with_akb_uri_skipped() {
    let mut descriptor = descriptor();
    descriptor["sections"][0]["links"] = parse(
        r#"[{"rel":"see-also","akb_uri":"https://kb.example.org/other","section_id":"ghost-section"}]"#,
    );

    assert_eq!(codes(&descriptor), Vec::new());
}

#[test]
fn test_parent_cycle() {
    let mut descriptor = descriptor();
    descriptor["sections"] = parse(
        r#"[
            {"id":"a","title":"A","description":"A.","parent_id":"b","content_uri":"a.md","source_ids":["s1"]},
            {"id":"b","title":"B","description":"B.","parent_id":"a","content_uri":"b.md","source_ids":["s1"]}
        ]"#,
    );

    let result = validate(&to_json(&descriptor), Mode::Lenient);
    let findings: Vec<_> = result
        .findings
        .iter()
        .filter(|finding| finding.code == Code::Akb004)
        .collect();

    assert_eq!(findings.len(), 1);
    assert!(findings[0].message.contains("a -> b -> a"));
}

#[test]
fn test_parent_depth_cap() {
    let mut valid = descriptor();
    valid["sections"] = chain_sections(64);
    assert!(!codes(&valid).contains(&Code::Akb005));

    let mut invalid = descriptor();
    invalid["sections"] = chain_sections(65);
    assert!(codes(&invalid).contains(&Code::Akb005));
}

#[test]
fn test_discovery_cycle_warns() {
    let mut descriptor = descriptor();
    descriptor["sources"] = parse(
        r#"[
            {"id":"s1","type":"url","uri":"https://docs.example.com/a/","discovered_via_id":"s2"},
            {"id":"s2","type":"url","uri":"https://docs.example.com/b/","discovered_via_id":"s1"}
        ]"#,
    );

    let result = validate(&to_json(&descriptor), Mode::Lenient);

    assert!(result.ok());
    assert_eq!(result.warnings.len(), 1);
    assert!(result.warnings[0].message.contains("s1 -> s2 -> s1"));
}

#[test]
fn test_garbage_shapes_ignored() {
    for descriptor in [
        parse(r#"{"sources":42,"sections":{"a":1}}"#),
        parse("[]"),
        parse(r#""x""#),
    ] {
        let codes = codes(&descriptor);

        assert!(!codes.contains(&Code::Akb001));
        assert!(!codes.contains(&Code::Akb002));
        assert!(!codes.contains(&Code::Akb004));
        assert!(!codes.contains(&Code::Akb007));
        assert!(!codes.contains(&Code::Akb010));
    }
}

fn chain_sections(depth: usize) -> Value {
    let sections: Vec<Value> = (0..depth)
        .map(|index| {
            let mut section = parse(
                r#"{"description":"Depth fixture.","source_ids":["s1"]}"#,
            );
            section["id"] = text(&format!("n{index}"));
            section["title"] = text(&format!("Node {index}"));
            section["content_uri"] = text(&format!("n{index}.md"));
            if index > 0 {
                section["parent_id"] = text(&format!("n{}", index - 1));
            }
            section
        })
        .collect();

    Value::Array(sections)
}

fn typed_chain_sections(depth: usize) -> Value {
    let sections: Vec<Value> = (0..depth)
        .map(|index| {
            let mut section = parse(
                r#"{"title":"Node","description":"Depth fixture.","content_uri":"node.md","source_ids":["SRC-000001"]}"#,
            );
            section["id"] = text(&format!("SEC-{index:06}"));
            if index > 0 {
                section["parent_id"] = text(&format!("SEC-{:06}", index - 1));
            }
            section
        })
        .collect();

    Value::Array(sections)
}

#[test]
fn test_plain_reference_messages() {
    let mut descriptor = descriptor();
    descriptor["sections"][0]["parent_id"] = text("s1");
    descriptor["sections"][0]["source_ids"] = parse(r#"["s1", "root", "nowhere"]"#);

    assert_eq!(
        messages_for(&descriptor, Code::Akb010),
        vec![
            "reference \"s1\" is a source id where a section is required",
            "reference \"root\" is a section id where a source is required",
        ]
    );
    assert_eq!(
        messages_for(&descriptor, Code::Akb007),
        vec!["unresolved reference \"nowhere\"; no declared source has this id"]
    );
}

#[test]
fn test_plain_child_resolves() {
    let mut descriptor = descriptor();
    descriptor["sections"][0]["source_ids"] = parse(r#"["s1"]"#);
    descriptor["sources"][0]["id"] = text("s1");
    descriptor["sections"]
        .as_array_mut()
        .unwrap()
        .push(parse(r#"{"id":"child","title":"Child","description":"Child.","parent_id":"root","content_uri":"c.md","source_ids":["s1"]}"#));

    assert_eq!(codes(&descriptor), Vec::new());
}

#[test]
fn test_duplicate_id_message_names_first() {
    let mut descriptor = typed_descriptor();
    descriptor["sections"]
        .as_array_mut()
        .unwrap()
        .push(parse(r#"{"id":"sec-000001","title":"Again","description":"Same id, other case.","content_uri":"again.md","source_ids":["SRC-000001"]}"#));

    assert_eq!(
        messages_for(&descriptor, Code::Akb001),
        vec!["duplicate id \"sec-000001\" first declared at /sections/0/id"]
    );
    assert_eq!(paths_for(&descriptor, Code::Akb001), vec!["/sections/1/id"]);
}

#[test]
fn test_empty_section_message() {
    let mut descriptor = typed_descriptor();
    descriptor["sections"]
        .as_array_mut()
        .unwrap()
        .push(parse(r#"{"id":"SEC-000002","title":"Hollow","description":"No content or child."}"#));

    assert_eq!(
        messages_for(&descriptor, Code::Akb002),
        vec!["section \"SEC-000002\" has neither content_uri nor a child section"]
    );
}

#[test]
fn test_container_with_child_is_not_empty() {
    let mut descriptor = typed_descriptor();
    descriptor["sections"] = parse(
        r#"[
            {"id":"SEC-000001","title":"Root","description":"Container."},
            {"id":"SEC-000002","title":"Leaf","description":"Leaf.","parent_id":"sec-000001","content_uri":"leaf.md","source_ids":["SRC-000001"]}
        ]"#,
    );

    assert_eq!(codes(&descriptor), Vec::new());
}

#[test]
fn test_reference_messages() {
    let mut descriptor = typed_descriptor();
    descriptor["sections"][0]["parent_id"] = text("SRC-000001");
    descriptor["sections"][0]["source_ids"] = parse(r#"["SRC-000001", "SRC-999999"]"#);

    assert_eq!(
        messages_for(&descriptor, Code::Akb010),
        vec!["reference \"SRC-000001\" is a source id where a section is required"]
    );
    assert_eq!(
        messages_for(&descriptor, Code::Akb007),
        vec!["unresolved reference \"SRC-999999\"; no declared source has this id"]
    );
}

#[test]
fn test_casefolded_duplicate_source_ids() {
    let mut descriptor = typed_descriptor();
    descriptor["sections"][0]["source_ids"] = parse(r#"["SRC-000001", "src-000001"]"#);

    assert_eq!(paths_for(&descriptor, Code::Akb011), vec!["/sections/0/source_ids/1"]);
    assert_eq!(
        messages_for(&descriptor, Code::Akb011),
        vec!["duplicate source id \"src-000001\" (case-insensitive) within this array"]
    );
}

#[test]
fn test_cross_akb_link_source_prefix() {
    let mut descriptor = typed_descriptor();
    descriptor["sections"][0]["links"] = parse(
        r#"[{"rel":"see-also","akb_uri":"https://kb.example.org/other","section_id":"SRC-123456"}]"#,
    );

    assert_eq!(paths_for(&descriptor, Code::Akb010), vec!["/sections/0/links/0/section_id"]);
}

#[test]
fn test_parent_depth_message() {
    let mut descriptor = typed_descriptor();
    descriptor["sections"] = typed_chain_sections(65);

    assert_eq!(
        messages_for(&descriptor, Code::Akb005),
        vec!["parent_id chain depth 65 exceeds the maximum of 64"]
    );
    assert_eq!(paths_for(&descriptor, Code::Akb005), vec!["/sections/64/parent_id"]);
}

#[test]
fn test_parent_cycle_path_and_message() {
    let mut descriptor = typed_descriptor();
    descriptor["sections"] = parse(
        r#"[
            {"id":"SEC-00000C","title":"C","description":"C.","parent_id":"SEC-00000B","content_uri":"c.md","source_ids":["SRC-000001"]},
            {"id":"SEC-00000B","title":"B","description":"B.","parent_id":"sec-00000a","content_uri":"b.md","source_ids":["SRC-000001"]},
            {"id":"Sec-00000A","title":"A","description":"A.","parent_id":"SEC-00000C","content_uri":"a.md","source_ids":["SRC-000001"]}
        ]"#,
    );

    assert_eq!(
        messages_for(&descriptor, Code::Akb004),
        vec!["parent_id cycle: Sec-00000A -> SEC-00000C -> SEC-00000B -> Sec-00000A"]
    );
    assert_eq!(paths_for(&descriptor, Code::Akb004), vec!["/sections/2/parent_id"]);
}
