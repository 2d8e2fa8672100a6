use openakb_validate::citations::{
    comment_end, find_bytes, mask_comments, mask_range, normalize_source, span_action, split_ids, starts_with_at,
    trim_horizontal_space, SpanAction,
};
use openakb_validate::content::{
    has_uri_scheme, is_absolute_path, join_reference, rejects_local_reference, parse_sri, remove_dot_segments, split_query, strip_fragment, CheckKind,
};
use openakb_validate::graph::cycles;
use openakb_validate::schema::{code_for, findings_for, is_link_instance_path, schema_path_has_segment, SchemaError};
use openakb_validate::shape::{is_plain_id, is_well_formed_id, reference_code_id, EntityIndex, EntityKind};
use openakb_validate::Code;

fn chars(s: &str) -> Vec<char> {
    s.chars().collect()
}

fn text(v: &[char]) -> String {
    v.iter().collect()
}

fn error(instance: &str, schema: &str, keyword: &str) -> SchemaError {
    SchemaError {
        instance_path: instance.to_owned(),
        schema_path: schema.to_owned(),
        keyword: keyword.to_owned(),
        message: format!("{keyword} failed"),
    }
}

#[test]
fn test_code_for_mapping() {
    let cases = [
        (error("/sections/0/links/2", "/properties/sections/items/$ref/properties/links/items/$ref/anyOf", "anyOf"), Some(Code::Akb012)),
        (error("/sections/0", "/properties/sections/items/$ref/then/required", "required"), Some(Code::Akb003)),
        (error("/sections/0/source_ids", "/properties/sections/items/$ref/then/properties/source_ids/minItems", "minItems"), Some(Code::Akb003)),
        (error("/sections/0/links/0/rel", "/x/rel/type", "type"), Some(Code::Akb011)),
        (error("/sections/0/links/0/rel", "/x/rel/anyOf", "anyOf"), Some(Code::Akb008)),
        (error("/title", "/properties/title/maxLength", "maxLength"), Some(Code::Akb005)),
        (error("/tags", "/properties/tags/maxItems", "maxItems"), Some(Code::Akb005)),
        (error("", "/required", "required"), Some(Code::Akb009)),
        (error("/id", "/properties/id/pattern", "pattern"), Some(Code::Akb011)),
        (error("/x", "/properties/x/propertyNames", "propertyNames"), Some(Code::Akb011)),
        (error("", "/additionalProperties", "additionalProperties"), None),
        (error("/a", "/const", "const"), None),
    ];
    for (e, expected) in cases {
        assert_eq!(code_for(&e), expected, "{}", e.schema_path);
    }
}

#[test]
fn test_link_instance_paths() {
    assert!(is_link_instance_path("/sections/0/links/12"));
    assert!(is_link_instance_path("links/+3"));
    assert!(!is_link_instance_path("/sections/0/links/x"));
    assert!(!is_link_instance_path("/sections/0/mylinks/1"));
    assert!(!is_link_instance_path("/sections/0/links/"));
    assert!(!is_link_instance_path("/links/99999999999999999999999"));
    assert!(!is_link_instance_path("7"));
}

#[test]
fn test_schema_path_segments() {
    assert!(schema_path_has_segment("/a/then/b", "then"));
    assert!(schema_path_has_segment("then", "then"));
    assert!(!schema_path_has_segment("/a/thenx/b", "then"));
    assert!(!schema_path_has_segment("/a/xthen", "then"));
    assert!(schema_path_has_segment("/a//b", ""));
}

#[test]
fn test_findings_for_errors() {
    let errors = vec![
        error("/title", "/properties/title/maxLength", "maxLength"),
        error("", "/required", "required"),
        error("", "/required", "required"),
        error("/q", "/const", "const"),
    ];
    let findings = findings_for(&errors);
    let summary: Vec<(Code, String, String)> = findings
        .into_iter()
        .map(|f| (f.code, f.path, f.message))
        .collect();
    assert_eq!(
        summary,
        vec![
            (Code::Akb005, "/title".to_owned(), "maxLength failed".to_owned()),
            (Code::Akb009, "".to_owned(), "required failed".to_owned()),
        ]
    );
}

#[test]
fn test_sri_parsing() {
    let good = "sha256-47DEQpj8HBSa+/TImW+5JCeuQeRkm5NMpJWZG3hSuFU=";
    let decoded = parse_sri(CheckKind::Capture, "/p", good).ok().unwrap();
    assert_eq!(decoded.len(), 32);
    assert_eq!(decoded[0], 0xe3);
    let check = parse_sri(CheckKind::Capture, "/p", "sha256-47DEQpj8HBSa+/TImW+5JCeuQeRkm5NMpJWZG3hSuFU").err().unwrap();
    assert_eq!(check.detail, "malformed sha256 digest");
    assert_eq!(check.warnings.len(), 1);
}

#[test]
fn test_reference_helpers() {
    assert_eq!(text(&strip_fragment("a/b#c#d")), "a/b");
    let (path, query) = split_query(&chars("a?b?c"));
    assert_eq!(text(&path), "a");
    assert_eq!(query.map(|q| text(&q)), Some("b?c".to_owned()));
    assert_eq!(text(&remove_dot_segments(&chars("/a/b/../c/./d/.."))), "/a/c/");
    assert_eq!(text(&remove_dot_segments(&chars("../../x"))), "x");
    assert_eq!(text(&remove_dot_segments(&chars("/.."))), "/");
    assert_eq!(text(&remove_dot_segments(&chars("a//b/"))), "a/b/");
    assert!(has_uri_scheme(&chars("https://x")));
    assert!(has_uri_scheme(&chars("a+b.c-d:rest")));
    assert!(!has_uri_scheme(&chars("1a:b")));
    assert!(!has_uri_scheme(&chars("a/b:c")));
    assert!(!has_uri_scheme(&chars(":x")));
    assert_eq!(text(&join_reference("https://kb.example.org/a/b", "../c")), "https://kb.example.org/c");
    assert_eq!(text(&join_reference("dir/base.json#f", "x.md")), "dir/x.md");
    assert_eq!(text(&join_reference("dir/base.json", "%zz")), "%zz");
}

#[test]
fn test_byte_helpers() {
    let bytes = b"ab<!-- c -->d".to_vec();
    assert!(starts_with_at(&bytes, 2, bytes.len(), b"<!--"));
    assert!(!starts_with_at(&bytes, 2, 5, b"<!--"));
    assert_eq!(find_bytes(&bytes, 0, bytes.len(), b"-->"), Some(9));
    assert_eq!(find_bytes(&bytes, 0, bytes.len(), b""), None);
    assert_eq!(comment_end(&bytes, 2, bytes.len()), Some(12));
    assert_eq!(comment_end(b"<!-->x", 0, 6), Some(5));
    assert_eq!(comment_end(b"<!--->x", 0, 7), Some(6));
    assert_eq!(comment_end(b"<!-- open", 0, 9), None);

    let mut masked = bytes.clone();
    mask_comments(&bytes, &mut masked, 0, bytes.len());
    assert_eq!(masked, b"ab\0\0\0\0\0\0\0\0\0\0d".to_vec());

    let mut ranged = b"abcdef".to_vec();
    mask_range(&mut ranged, 1, 3);
    assert_eq!(ranged, b"a\0\0def".to_vec());
}

#[test]
fn test_text_helpers() {
    assert_eq!(normalize_source("a\r\nb\rc\0d"), "a\nb\nc\u{fffd}d");
    assert_eq!(trim_horizontal_space(b" \t ab c\t "), b"ab c".to_vec());
    assert_eq!(trim_horizontal_space(b" \t "), Vec::<u8>::new());
    assert_eq!(split_ids(b"a, b\t,c"), vec!["a", "b", "c"]);
    assert_eq!(split_ids(b""), vec![""]);
}

#[test]
fn test_cycles_canonical_once() {
    let pairs: Vec<(Vec<char>, Vec<char>)> = [("c", "a"), ("a", "b"), ("b", "c"), ("d", "d"), ("e", "a")]
        .iter()
        .map(|(k, v)| (chars(k), chars(v)))
        .collect();
    let mut found: Vec<Vec<String>> = cycles(&pairs)
        .iter()
        .map(|cycle| cycle.iter().map(|id| text(id)).collect())
        .collect();
    found.sort();
    assert_eq!(found, vec![vec!["a", "b", "c"], vec!["d"]]);
}

#[test]
fn test_absolute_and_rejected_paths() {
    assert!(is_absolute_path(&chars("/a.md")));
    assert!(!is_absolute_path(&chars("a.md")));
    assert!(!is_absolute_path(&chars("")));
    assert!(!rejects_local_reference(&chars("sub/a.md"), &chars("sub/a.md")));
    assert!(rejects_local_reference(&chars("/a.md"), &chars("/a.md")));
    assert!(rejects_local_reference(&chars("a/../b"), &chars("a/../b")));
}

#[test]
fn test_span_action_rules() {
    assert_eq!(span_action("Start(CodeBlock(Indented))"), SpanAction::Mask);
    assert_eq!(span_action("Start(CodeBlock(Fenced(Borrowed(\"rust\"))))"), SpanAction::Mask);
    assert_eq!(span_action("Start(HtmlBlock)"), SpanAction::Mask);
    assert_eq!(span_action("Code(Borrowed(\"x\"))"), SpanAction::Mask);
    assert_eq!(span_action("Start(Paragraph)"), SpanAction::Keep);
    assert_eq!(span_action("End(Paragraph)"), SpanAction::Keep);
    assert_eq!(span_action("End(CodeBlock)"), SpanAction::Keep);
    assert_eq!(span_action("Text(Borrowed(\"a\"))"), SpanAction::ScanComments);
    assert_eq!(span_action("InlineHtml(Borrowed(\"<!-- a -->\"))"), SpanAction::ScanComments);
    assert_eq!(span_action("SoftBreak"), SpanAction::ScanComments);
}

#[test]
fn test_id_grammars() {
    assert!(is_plain_id("s1"));
    assert!(is_plain_id("a_b-c"));
    assert!(is_plain_id(&"x".repeat(64)));
    assert!(!is_plain_id(&"x".repeat(65)));
    assert!(!is_plain_id(""));
    assert!(!is_plain_id("S1"));
    assert!(!is_plain_id("SRC-000001"));
    assert!(is_well_formed_id("SRC-000001"));
    assert!(is_well_formed_id("sec-abc123"));
    assert!(!is_well_formed_id("SEC-0000"));
}

#[test]
fn test_reference_code_by_lookup() {
    let index = EntityIndex {
        source_ids: vec!["s1".chars().collect()],
        section_ids: vec!["root".chars().collect()],
    };
    assert_eq!(reference_code_id("s1", EntityKind::Source, &index), None);
    assert_eq!(reference_code_id("root", EntityKind::Source, &index), Some(Code::Akb010));
    assert_eq!(reference_code_id("s1", EntityKind::Section, &index), Some(Code::Akb010));
    assert_eq!(reference_code_id("ghost", EntityKind::Section, &index), Some(Code::Akb007));
    assert_eq!(reference_code_id("Ghost", EntityKind::Section, &index), None);
    assert_eq!(reference_code_id("SRC-000001", EntityKind::Section, &index), Some(Code::Akb010));
    assert_eq!(reference_code_id("SEC-000009", EntityKind::Section, &index), Some(Code::Akb007));
}

#[test]
fn test_remove_dot_segments_idempotent_on_examples() {
    for path in ["/a/b/c/./../../g", "mid/content=5/../6", "a/..", "/..", "./a/./b/", "a//b/.", "/", "", "../../x/y/.."] {
        let once = remove_dot_segments(&chars(path));
        let twice = remove_dot_segments(&once);
        assert_eq!(twice, once, "{path}");
        let text: String = once.iter().collect();
        assert!(text.split('/').all(|part| part != "." && part != ".."), "{path}");
        if path.starts_with('/') {
            assert!(text.starts_with('/'), "{path}");
        }
    }
}

#[test]
fn test_parse_sri_accepts_canonical_digests() {
    for payload in [&b""[..], b"x", b"# Guide\n", &[0u8, 255, 7, 9][..]] {
        let digest = <sha2::Sha256 as sha2::Digest>::digest(payload).to_vec();
        let sri = format!("sha256-{}", base64::Engine::encode(&base64::engine::general_purpose::STANDARD, &digest));
        assert_eq!(parse_sri(CheckKind::ContentHash, "/p", &sri).ok(), Some(digest));
    }
}

#[test]
fn test_cited_ids_follow_the_grammar() {
    let citations = openakb_validate::extract_citations("A [cite: s1, SRC-00000a ,sec-ABC123] and [cite:x_y-z].");
    let ids: Vec<Vec<String>> = citations.into_iter().map(|citation| citation.ids).collect();
    assert_eq!(ids, vec![vec!["s1", "SRC-00000a", "sec-ABC123"], vec!["x_y-z"]]);
    for id in ids.iter().flatten() {
        assert!(is_well_formed_id(id));
    }
}
