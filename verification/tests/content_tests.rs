use base64::Engine;
use openakb_validate::{
    check_content_with, content_requests, CheckKind, ContentReport, Json, LocalFileResolver, Outcome, Unfetchable,
};
use serde_json::Value;
use sha2::Digest;

fn to_json(value: &Value) -> Json {
    match value {
        Value::Null => Json::Null,
        Value::Bool(b) => Json::Bool(*b),
        Value::Number(n) => Json::Number(n.to_string()),
        Value::String(s) => Json::Str(s.clone()),
        Value::Array(items) => Json::Array(items.iter().map(to_json).collect()),
        Value::Object(members) => Json::Object(members.iter().map(|(k, v)| (k.clone(), to_json(v))).collect()),
    }
}

fn parse(text: &str) -> Value {
    serde_json::from_str(text).unwrap()
}

fn text(s: &str) -> Value {
    Value::String(s.to_owned())
}

fn sri(payload: &[u8]) -> String {
    let digest = sha2::Sha256::digest(payload);
    format!("sha256-{}", base64::engine::general_purpose::STANDARD.encode(digest))
}

fn requests(descriptor: &Value) -> Vec<String> {
    content_requests(&to_json(descriptor))
}

fn report(descriptor: &Value, fetched: Vec<Result<Vec<u8>, Unfetchable>>) -> ContentReport {
    check_content_with(&to_json(descriptor), &fetched, &Vec::new()).unwrap()
}

type SidecarFetch = Result<(Vec<u8>, Option<Json>), Unfetchable>;

fn sidecar(text: &str) -> SidecarFetch {
    Ok((text.as_bytes().to_vec(), serde_json::from_str::<Value>(text).ok().map(|value| to_json(&value))))
}

fn sidecar_report(descriptor: &Value, fetched: Vec<Result<Vec<u8>, Unfetchable>>, sidecars: Vec<SidecarFetch>) -> ContentReport {
    check_content_with(&to_json(descriptor), &fetched, &sidecars).unwrap()
}

fn guide(hash: &str) -> Value {
    let mut descriptor = parse(r#"{"guide_uri": "AKB.md"}"#);
    descriptor["guide_hash"] = text(hash);
    descriptor
}

fn summary(report: &ContentReport) -> Vec<(CheckKind, String, Outcome, String)> {
    report
        .checks
        .iter()
        .map(|check| (check.kind, check.path.clone(), check.outcome, check.detail.clone()))
        .collect()
}

#[test]
fn test_guide_hash_verified() {
    let payload = b"# Guide\n".to_vec();
    let descriptor = guide(&sri(&payload));

    assert_eq!(requests(&descriptor), vec!["AKB.md"]);
    let report = report(&descriptor, vec![Ok(payload)]);
    assert_eq!(
        summary(&report),
        vec![(CheckKind::GuideHash, "/guide_hash".to_owned(), Outcome::Verified, "sha256 digest matches".to_owned())]
    );
    assert!(report.ok());
}

#[test]
fn test_guide_hash_mismatch_fails() {
    let descriptor = guide(&sri(b"expected"));

    let report = report(&descriptor, vec![Ok(b"actual".to_vec())]);
    assert_eq!(
        summary(&report),
        vec![(CheckKind::GuideHash, "/guide_hash".to_owned(), Outcome::Failed, "sha256 digest mismatch".to_owned())]
    );
    assert!(!report.ok());
    assert_eq!(report.with_outcome(Outcome::Failed).len(), 1);
    assert!(report.findings().is_empty());
}

#[test]
fn test_guide_unfetchable_is_unverifiable() {
    let descriptor = guide(&sri(b"x"));

    let report = report(&descriptor, vec![Err(Unfetchable::new("missing"))]);
    assert_eq!(
        summary(&report),
        vec![(CheckKind::GuideHash, "/guide_hash".to_owned(), Outcome::Unverifiable, "unfetchable: missing".to_owned())]
    );
    assert!(report.ok());
}

#[test]
fn test_guide_sri_problems_warn() {
    let wrong_length = format!("sha256-{}", base64::engine::general_purpose::STANDARD.encode([7u8; 16]));
    for (hash, detail) in [
        ("nodash", "malformed SRI: expected '<algorithm>-<base64>'"),
        ("sha512-AAAA", "unsupported hash algorithm: sha512"),
        ("sha256-!!!!", "malformed sha256 digest"),
        (wrong_length.as_str(), "sha256 digest has wrong length"),
    ] {
        let descriptor = guide(hash);
        assert!(requests(&descriptor).is_empty());
        let report = report(&descriptor, Vec::new());
        assert_eq!(
            summary(&report),
            vec![(CheckKind::GuideHash, "/guide_hash".to_owned(), Outcome::Unverifiable, detail.to_owned())]
        );
        let warnings = report.warnings();
        assert_eq!(warnings.len(), 1);
        assert_eq!(warnings[0].path, "/guide_hash");
        assert_eq!(warnings[0].message, detail);
        assert!(report.ok());
    }
}

#[test]
fn test_guide_without_uri() {
    let mut descriptor = guide(&sri(b"x"));
    descriptor.as_object_mut().unwrap().remove("guide_uri");

    assert!(requests(&descriptor).is_empty());
    assert_eq!(
        summary(&report(&descriptor, Vec::new())),
        vec![(CheckKind::GuideHash, "/guide_hash".to_owned(), Outcome::Unverifiable, "missing guide_uri".to_owned())]
    );
}

#[test]
fn test_no_checks_without_hashes() {
    let descriptor = parse(r#"{"guide_uri": "AKB.md", "sources": [{"id": "SRC-000001"}]}"#);
    assert!(requests(&descriptor).is_empty());
    assert!(report(&descriptor, Vec::new()).checks.is_empty());
    assert!(requests(&Value::Null).is_empty());
    assert!(report(&Value::Null, Vec::new()).checks.is_empty());
}

#[test]
fn test_base_uri_resolution() {
    let mut descriptor = guide(&sri(b"x"));
    descriptor["base_uri"] = text("https://kb.example.org/widget/openakb.json");
    descriptor["guide_uri"] = text("docs/../AKB.md#top");
    assert_eq!(requests(&descriptor), vec!["https://kb.example.org/widget/AKB.md"]);

    descriptor["base_uri"] = text("served/root/openakb.json?x=1");
    descriptor["guide_uri"] = text("../AKB.md");
    assert_eq!(requests(&descriptor), vec!["served/AKB.md"]);

    descriptor["guide_uri"] = text("?v=2");
    assert_eq!(requests(&descriptor), vec!["served/root/openakb.json?v=2"]);

    descriptor["guide_uri"] = text("/top/./a/../AKB.md");
    assert_eq!(requests(&descriptor), vec!["/top/AKB.md"]);

    descriptor["guide_uri"] = text("https://other.example.org/AKB.md#x");
    assert_eq!(requests(&descriptor), vec!["https://other.example.org/AKB.md"]);
}

#[test]
fn test_redacted_source_unverifiable() {
    let descriptor = parse(
        r#"{"sources": [{"id": "SRC-000001", "type": "redacted", "capture_uri": "cap.html"}, {"id": "SRC-000002", "type": "redacted"}]}"#,
    );

    assert!(requests(&descriptor).is_empty());
    assert_eq!(
        summary(&report(&descriptor, Vec::new())),
        vec![(CheckKind::Capture, "/sources/0".to_owned(), Outcome::Unverifiable, "redacted source".to_owned())]
    );
}

#[test]
fn test_capture_checks() {
    let payload = b"captured bytes".to_vec();
    let mut descriptor = parse(
        r#"{"sources": [
            {"id": "SRC-000001", "type": "url", "capture_uri": "a.html"},
            {"id": "SRC-000002", "type": "url"},
            {"id": "SRC-000003", "type": "url", "capture_uri": "c.html"},
            {"id": "SRC-000004", "type": "url", "capture_uri": "d.html", "content_hash": "md5-AAAA"},
            {"id": "SRC-000005", "type": "url", "capture_uri": "e.html"}
        ]}"#,
    );
    descriptor["sources"][0]["content_hash"] = text(&sri(&payload));
    descriptor["sources"][1]["content_hash"] = text(&sri(&payload));

    assert_eq!(requests(&descriptor), vec!["a.html", "c.html", "d.html", "e.html"]);
    let report = report(
        &descriptor,
        vec![
            Ok(payload.clone()),
            Err(Unfetchable::new("gone")),
            Err(Unfetchable::new("denied")),
            Ok(Vec::new()),
        ],
    );
    assert_eq!(
        summary(&report),
        vec![
            (CheckKind::Capture, "/sources/0/content_hash".to_owned(), Outcome::Verified, "sha256 digest matches".to_owned()),
            (CheckKind::Capture, "/sources/1/content_hash".to_owned(), Outcome::Unverifiable, "missing capture_uri".to_owned()),
            (CheckKind::Capture, "/sources/2/capture_uri".to_owned(), Outcome::Unverifiable, "unfetchable: gone".to_owned()),
            (CheckKind::Capture, "/sources/3/content_hash".to_owned(), Outcome::Unverifiable, "unsupported hash algorithm: md5".to_owned()),
            (CheckKind::Capture, "/sources/3/capture_uri".to_owned(), Outcome::Unverifiable, "unfetchable: denied".to_owned()),
        ]
    );
    assert!(report.ok());
    assert_eq!(report.with_outcome(Outcome::Unverifiable).len(), 4);
    assert_eq!(report.warnings().len(), 1);
}

#[test]
fn test_local_references() {
    let resolver = LocalFileResolver::new("/srv/akb");
    assert_eq!(resolver.base_dir, "/srv/akb");
    assert_eq!(resolver.local_reference("sections/a.md#part").ok(), Some("sections/a.md".to_owned()));
    assert_eq!(resolver.local_reference("./a.md").ok(), Some("./a.md".to_owned()));
    for rejected in ["../a.md", "a/../../b", "a.md?x=1", "/etc/passwd", "//host/a", "file:a.md", "a;b", "a\\b", "C:a.md"] {
        let error = resolver.local_reference(rejected).err().unwrap();
        assert_eq!(error.reason, format!("outside local base: {rejected}"));
    }
}

#[test]
fn test_unfetchable_messages() {
    assert_eq!(Unfetchable::new("no such file").message(), "unfetchable: no such file");
    assert_eq!(Unfetchable::outside_local_base("../x").reason, "outside local base: ../x");
}

#[test]
fn test_fetch_results_must_match_requests() {
    let descriptor = to_json(&guide(&sri(b"x")));
    assert!(check_content_with(&descriptor, &Vec::new(), &Vec::new()).is_none());
    assert!(check_content_with(&descriptor, &vec![Ok(Vec::new()), Ok(Vec::new())], &Vec::new()).is_none());
    assert!(check_content_with(&descriptor, &vec![Ok(b"x".to_vec())], &Vec::new()).is_some());
}

#[test]
fn test_all_unfetched_never_fails() {
    let mut descriptor = guide(&sri(b"guide"));
    descriptor["sources"] = parse(r#"[{"id": "SRC-000001", "type": "url", "capture_uri": "a.html"}]"#);
    descriptor["sources"][0]["content_hash"] = text(&sri(b"capture"));

    let fetched = requests(&descriptor).iter().map(|uri| Err(Unfetchable::new(uri))).collect();
    let report = report(&descriptor, fetched);
    assert_eq!(report.checks.len(), 2);
    assert!(report.with_outcome(Outcome::Failed).is_empty());
    assert!(report.ok());
}

fn quote_descriptor(sources: &str, source_ids: &str, quote: &str) -> Value {
    let mut descriptor = parse(&format!(
        r#"{{"sources": {sources}, "sections": [{{"id": "SEC-000001", "provenance": [{{"text": "Claim.", "source_ids": {source_ids}, "locator": {{}}}}]}}]}}"#
    ));
    descriptor["sections"][0]["provenance"][0]["locator"]["quote"] = text(quote);
    descriptor
}

#[test]
fn test_quote_verified() {
    let descriptor = quote_descriptor(r#"[{"id": "SRC-000001", "capture_uri": "capture.txt"}]"#, r#"["SRC-000001"]"#, "quoted text");

    assert_eq!(requests(&descriptor), vec!["capture.txt"]);
    let report = report(&descriptor, vec![Ok(b"prefix quoted text suffix".to_vec())]);
    assert!(report.ok());
    assert_eq!(
        summary(&report),
        vec![(
            CheckKind::Quote,
            "/sections/0/provenance/0/locator/quote".to_owned(),
            Outcome::Verified,
            "quote found in capture".to_owned()
        )]
    );
}

#[test]
fn test_quote_missing() {
    let descriptor = quote_descriptor(r#"[{"id": "SRC-000001", "capture_uri": "capture.txt"}]"#, r#"["SRC-000001"]"#, "quoted text");

    let report = report(&descriptor, vec![Ok(b"different text".to_vec())]);
    assert!(!report.ok());
    assert_eq!(report.checks.len(), 1);
    assert_eq!(report.checks[0].kind, CheckKind::Quote);
    assert_eq!(report.checks[0].outcome, Outcome::Failed);
    assert_eq!(report.checks[0].detail, "quote absent from fetched captures");
}

#[test]
fn test_empty_quote_no_check() {
    let descriptor = quote_descriptor(r#"[{"id": "SRC-000001", "capture_uri": "capture.txt"}]"#, r#"["SRC-000001"]"#, "");

    let report = report(&descriptor, vec![Ok(b"some capture text".to_vec())]);
    assert!(report.checks.iter().all(|check| check.kind != CheckKind::Quote));
}

#[test]
fn test_hash_failed_distrust() {
    let mut descriptor =
        quote_descriptor(r#"[{"id": "SRC-000001", "capture_uri": "capture.txt"}]"#, r#"["SRC-000001"]"#, "quoted text");
    descriptor["sources"][0]["content_hash"] = text(&sri(b"other"));

    let report = report(&descriptor, vec![Ok(b"quoted text".to_vec())]);
    assert!(!report.ok());
    assert_eq!(report.checks.len(), 2);
    assert_eq!(report.checks[0].kind, CheckKind::Capture);
    assert_eq!(report.checks[0].outcome, Outcome::Failed);
    assert_eq!(report.checks[1].kind, CheckKind::Quote);
    assert_eq!(report.checks[1].outcome, Outcome::Unverifiable);
    assert_eq!(report.checks[1].detail, "a cited source's capture failed its content_hash");
}

#[test]
fn test_quote_unfetched() {
    let descriptor = quote_descriptor(r#"[{"id": "SRC-000001", "capture_uri": "missing.txt"}]"#, r#"["SRC-000001"]"#, "quoted text");

    let report = report(&descriptor, vec![Err(Unfetchable::new("missing"))]);
    assert!(report.ok());
    assert_eq!(report.checks.len(), 2);
    assert_eq!(report.checks[0].kind, CheckKind::Capture);
    assert_eq!(report.checks[0].outcome, Outcome::Unverifiable);
    assert_eq!(report.checks[1].kind, CheckKind::Quote);
    assert_eq!(report.checks[1].outcome, Outcome::Unverifiable);
    assert_eq!(report.checks[1].detail, "no cited source capture fetched");
}

#[test]
fn test_confusable_claim_id_unverifiable() {
    let descriptor = quote_descriptor(
        r#"[{"id": "SRC-0000K1", "capture_uri": "capture.txt"}]"#,
        "[\"SRC-0000\u{212a}1\"]",
        "needle",
    );

    let report = report(&descriptor, vec![Ok(b"hay stack".to_vec())]);
    assert!(report.ok());
    assert_eq!(report.checks.len(), 1);
    assert_eq!(report.checks[0].kind, CheckKind::Quote);
    assert_eq!(report.checks[0].outcome, Outcome::Unverifiable);
    assert_eq!(report.checks[0].detail, "no cited source capture fetched");
}

#[test]
fn test_wrong_kind_source_id_unverifiable() {
    let descriptor = quote_descriptor(r#"[{"id": "SEC-000002", "capture_uri": "capture.txt"}]"#, r#"["SEC-000002"]"#, "needle");

    let report = report(&descriptor, vec![Ok(b"hay needle stack".to_vec())]);
    assert!(report.ok());
    assert_eq!(report.checks.len(), 1);
    assert_eq!(report.checks[0].kind, CheckKind::Quote);
    assert_eq!(report.checks[0].outcome, Outcome::Unverifiable);
    assert_eq!(report.checks[0].detail, "no cited source capture fetched");
}

#[test]
fn test_valid_source_id_still_verifies() {
    let descriptor = quote_descriptor(r#"[{"id": "SRC-000001", "capture_uri": "capture.txt"}]"#, r#"["SRC-000001"]"#, "needle");

    let report = report(&descriptor, vec![Ok(b"hay needle stack".to_vec())]);
    assert!(report.ok());
    assert_eq!(report.checks.len(), 1);
    assert_eq!(report.checks[0].kind, CheckKind::Quote);
    assert_eq!(report.checks[0].outcome, Outcome::Verified);
}

#[test]
fn test_quote_partial_gap() {
    let descriptor = quote_descriptor(
        r#"[{"id": "SRC-000001", "capture_uri": "capture.txt"}, {"id": "SRC-000002", "capture_uri": "missing.txt"}]"#,
        r#"["SRC-000001", "SRC-000002"]"#,
        "quoted text",
    );

    assert_eq!(requests(&descriptor), vec!["capture.txt", "missing.txt"]);
    let report = report(&descriptor, vec![Ok(b"different text".to_vec()), Err(Unfetchable::new("missing"))]);
    assert!(report.ok());
    assert_eq!(report.checks.len(), 2);
    assert_eq!(report.checks[0].kind, CheckKind::Capture);
    assert_eq!(report.checks[0].outcome, Outcome::Unverifiable);
    assert_eq!(report.checks[1].kind, CheckKind::Quote);
    assert_eq!(report.checks[1].outcome, Outcome::Unverifiable);
    assert_eq!(report.checks[1].detail, "some cited source captures were not fetched");
}

#[test]
fn test_redacted_warning() {
    let descriptor = quote_descriptor(
        r#"[{"id": "SRC-000001", "capture_uri": "capture.txt"}, {"id": "SRC-000002", "type": "redacted", "capture_uri": "redacted.txt"}]"#,
        r#"["SRC-000001", "SRC-000002"]"#,
        "quoted text",
    );

    assert_eq!(requests(&descriptor), vec!["capture.txt"]);
    let report = report(&descriptor, vec![Ok(b"different text".to_vec())]);
    assert!(report.ok());
    assert_eq!(report.checks.len(), 2);
    assert_eq!(report.checks[0].kind, CheckKind::Capture);
    assert_eq!(report.checks[0].outcome, Outcome::Unverifiable);
    assert_eq!(report.checks[1].kind, CheckKind::Quote);
    assert_eq!(report.checks[1].outcome, Outcome::Unverifiable);
    assert_eq!(report.checks[1].warnings.len(), 1);
    assert_eq!(report.checks[1].warnings[0].path, "/sections/0/provenance/0/locator/quote");
    assert_eq!(report.checks[1].warnings[0].message, "quote cites redacted source(s): SRC-000002");
}

#[test]
fn test_quote_non_string_source_ids() {
    let descriptor = quote_descriptor("[]", "[123]", "quoted text");

    let report = report(&descriptor, vec![]);
    assert!(report.ok());
    assert!(report.checks.iter().all(|check| check.kind != CheckKind::Quote));
}

#[test]
fn test_quote_usable_with_hash_failure() {
    let mut descriptor = quote_descriptor(
        r#"[{"id": "SRC-000001", "capture_uri": "clean.txt"}, {"id": "SRC-000002", "capture_uri": "tampered.txt"}]"#,
        r#"["SRC-000001", "SRC-000002"]"#,
        "quoted text",
    );
    descriptor["sources"][1]["content_hash"] = text(&sri(b"expected"));

    let report = report(&descriptor, vec![Ok(b"unrelated prose".to_vec()), Ok(b"tampered bytes".to_vec())]);
    assert!(!report.ok());
    assert_eq!(report.checks.len(), 2);
    assert_eq!(report.checks[0].kind, CheckKind::Capture);
    assert_eq!(report.checks[0].outcome, Outcome::Failed);
    assert_eq!(report.checks[1].kind, CheckKind::Quote);
    assert_eq!(report.checks[1].outcome, Outcome::Unverifiable);
    assert_eq!(report.checks[1].detail, "a cited source's capture failed its content_hash");
}

#[test]
fn test_quote_with_plain_ids() {
    let descriptor = quote_descriptor(r#"[{"id": "s1", "capture_uri": "capture.txt"}]"#, r#"["s1"]"#, "naïve text");

    let report = report(&descriptor, vec![Ok("a naïve text here".as_bytes().to_vec())]);
    assert_eq!(report.checks.len(), 1);
    assert_eq!(report.checks[0].outcome, Outcome::Verified);
}

#[test]
fn test_citation_findings() {
    let descriptor = parse(
        r#"{
            "sources": [{"id": "SRC-000001"}],
            "sections": [
                {"id": "SEC-000001", "content_uri": "section.md", "content_type": "text/Markdown; charset=utf-8"},
                {"id": "SEC-000002"}
            ]
        }"#,
    );

    assert_eq!(requests(&descriptor), vec!["section.md"]);
    let content = b"A [cite:SRC-000001, SRC-000009, SEC-000002] and again [cite:SRC-000001, SRC-000001].\n".to_vec();
    let report = report(&descriptor, vec![Ok(content)]);
    assert!(!report.ok());
    assert_eq!(report.checks.len(), 1);
    let check = &report.checks[0];
    assert_eq!(check.kind, CheckKind::Citations);
    assert_eq!(check.path, "/sections/0/content_uri");
    assert_eq!(check.outcome, Outcome::Failed);
    assert_eq!(check.detail, "citation markers checked");
    assert_eq!(check.findings.len(), 2);
    assert_eq!(check.findings[0].code, openakb_validate::Code::Akb007);
    assert_eq!(check.findings[0].path, "/sections/0/content_uri/citations/0/1");
    assert_eq!(check.findings[1].code, openakb_validate::Code::Akb010);
    assert_eq!(check.findings[1].path, "/sections/0/content_uri/citations/0/2");
    assert_eq!(check.warnings.len(), 1);
    assert_eq!(check.warnings[0].path, "/sections/0/content_uri");
    assert_eq!(check.warnings[0].message, "duplicate citation id in marker: SRC-000001");
}

#[test]
fn test_duplicate_ids_sorted_deduped() {
    let descriptor = parse(
        r#"{
            "sources": [{"id": "SRC-000001"}, {"id": "SRC-000002"}, {"id": "SRC-000003"}],
            "sections": [{"id": "SEC-000001", "content_uri": "section.md", "content_type": "text/markdown"}]
        }"#,
    );

    let content = b"A [cite:SRC-000002, SRC-000001, SRC-000002, SRC-000001, SRC-000003, SRC-000001].\n".to_vec();
    let report = report(&descriptor, vec![Ok(content)]);
    assert_eq!(report.checks.len(), 1);
    let check = &report.checks[0];
    assert_eq!(check.kind, CheckKind::Citations);
    assert_eq!(check.outcome, Outcome::Verified);
    assert_eq!(check.warnings.len(), 1);
    assert_eq!(check.warnings[0].message, "duplicate citation id in marker: SRC-000001, SRC-000002");
}

#[test]
fn test_markdown_parameters() {
    let descriptor = parse(
        r#"{
            "sources": [{"id": "SRC-000001"}],
            "sections": [{"id": "SEC-000001", "content_uri": "section.md", "content_type": "text/Markdown; charset=utf-8"}]
        }"#,
    );

    let report = report(&descriptor, vec![Ok(b"A [cite:SRC-000001].\n".to_vec())]);
    assert!(report.ok());
    assert_eq!(report.checks.len(), 1);
    assert_eq!(report.checks[0].kind, CheckKind::Citations);
    assert_eq!(report.checks[0].outcome, Outcome::Verified);
}

#[test]
fn test_non_markdown_skip() {
    let descriptor = parse(
        r#"{"sections": [{"id": "SEC-000001", "content_uri": "section.txt", "content_type": "text/plain"}]}"#,
    );

    assert!(requests(&descriptor).is_empty());
    let report = report(&descriptor, vec![]);
    assert!(report.ok());
    assert!(report.checks.is_empty());
}

#[test]
fn test_invalid_utf8() {
    let descriptor = parse(r#"{"sections": [{"id": "SEC-000001", "content_uri": "section.md"}]}"#);

    let report = report(&descriptor, vec![Ok(vec![0xff, 0xfe])]);
    assert!(!report.ok());
    assert_eq!(report.checks.len(), 1);
    assert_eq!(report.checks[0].kind, CheckKind::Citations);
    assert_eq!(report.checks[0].outcome, Outcome::Failed);
    assert!(report.checks[0].detail.contains("invalid utf-8"));
}

#[test]
fn test_local_prescreen() {
    let descriptor = parse(r#"{"sections": [{"id": "SEC-000001", "content_uri": "section.md?cache=1"}]}"#);
    let resolver = LocalFileResolver::new("/tmp");

    let uris = requests(&descriptor);
    assert_eq!(uris, vec!["section.md?cache=1"]);
    let fetched = uris.iter().map(|uri| resolver.local_reference(uri).map(|_| Vec::new())).collect();
    let report = report(&descriptor, fetched);
    assert!(report.ok());
    assert_eq!(report.checks.len(), 1);
    assert_eq!(report.checks[0].kind, CheckKind::Citations);
    assert_eq!(report.checks[0].outcome, Outcome::Unverifiable);
    assert_eq!(report.checks[0].detail, "unfetchable: outside local base: section.md?cache=1");
}

#[test]
fn test_relative_base_reference_join() {
    let descriptor = parse(
        r#"{
            "base_uri": "a/b/index.akb.json",
            "sources": [{"id": "SRC-000001"}],
            "sections": [
                {"id": "SEC-000001", "content_uri": "../c/section.md"},
                {"id": "SEC-000002", "content_uri": "?content"},
                {"id": "SEC-000003", "content_uri": "sub/"}
            ]
        }"#,
    );

    assert_eq!(requests(&descriptor), vec!["a/c/section.md", "a/b/index.akb.json?content", "a/b/sub/"]);
    let content = b"A [cite:SRC-000001].\n".to_vec();
    let report = report(&descriptor, vec![Ok(content.clone()), Ok(content.clone()), Ok(content)]);
    assert!(report.ok());
    assert!(report.checks.iter().all(|check| check.kind == CheckKind::Citations && check.outcome == Outcome::Verified));
}

#[test]
fn test_custom_query() {
    let descriptor = parse(
        r#"{
            "base_uri": "https://docs.example.com/akb/index.akb.json?old",
            "sources": [{"id": "SRC-000001"}],
            "sections": [{"id": "SEC-000001", "content_uri": "?content"}]
        }"#,
    );

    assert_eq!(requests(&descriptor), vec!["https://docs.example.com/akb/index.akb.json?content"]);
    let report = report(&descriptor, vec![Ok(b"A [cite:SRC-000001].\n".to_vec())]);
    assert!(report.ok());
    assert_eq!(report.checks.len(), 1);
    assert_eq!(report.checks[0].kind, CheckKind::Citations);
    assert_eq!(report.checks[0].outcome, Outcome::Verified);
}

#[test]
fn test_citations_with_plain_ids_and_code() {
    let descriptor = parse(
        r#"{
            "sources": [{"id": "s1"}],
            "sections": [{"id": "root", "content_uri": "root.md"}, {"id": "other"}]
        }"#,
    );

    let content = b"Fact [cite: s1].\n\n`[cite: ghost]`\n\nMore [cite: other, nowhere].\n".to_vec();
    let report = report(&descriptor, vec![Ok(content)]);
    assert_eq!(report.checks.len(), 1);
    let check = &report.checks[0];
    assert_eq!(check.outcome, Outcome::Failed);
    let found: Vec<(openakb_validate::Code, String)> =
        check.findings.iter().map(|finding| (finding.code, finding.path.clone())).collect();
    assert_eq!(
        found,
        vec![
            (openakb_validate::Code::Akb010, "/sections/0/content_uri/citations/1/0".to_owned()),
            (openakb_validate::Code::Akb007, "/sections/0/content_uri/citations/1/1".to_owned()),
        ]
    );
    assert!(check.warnings.is_empty());
}

fn sidecar_requests_of(descriptor: &Value) -> Vec<String> {
    openakb_validate::sidecar::sidecar_requests(&to_json(descriptor))
}

#[test]
fn test_sidecar_verified() {
    let text = r#"{"section_id": "sec", "claims": [{"text": "Claim text.", "source_ids": ["s1"]}]}"#;
    let mut descriptor = parse(r#"{"sources": [{"id": "s1"}], "sections": [{"id": "sec", "provenance_uri": "sec.prov.json"}]}"#);
    descriptor["sections"][0]["provenance_hash"] = text_value(&sri(text.as_bytes()));

    assert!(requests(&descriptor).is_empty());
    assert_eq!(sidecar_requests_of(&descriptor), vec!["sec.prov.json"]);
    let report = sidecar_report(&descriptor, vec![], vec![sidecar(text)]);
    assert!(report.ok());
    assert_eq!(
        summary(&report),
        vec![
            (CheckKind::Sidecar, "/sections/0/provenance_hash".to_owned(), Outcome::Verified, "sha256 digest matches".to_owned()),
            (CheckKind::Sidecar, "/sections/0/provenance_uri".to_owned(), Outcome::Verified, "provenance sidecar checked".to_owned()),
        ]
    );
}

fn text_value(s: &str) -> Value {
    text(s)
}

#[test]
fn test_binding_mismatch() {
    let descriptor = parse(
        r#"{"sources": [{"id": "s1"}], "sections": [{"id": "sec", "provenance_uri": "sec.prov.json"}, {"id": "other"}]}"#,
    );

    let report = sidecar_report(
        &descriptor,
        vec![],
        vec![sidecar(r#"{"section_id":"other","claims":[{"text":"Claim.","source_ids":["s1"]}]}"#)],
    );
    assert!(!report.ok());
    assert_eq!(report.checks.len(), 1);
    assert_eq!(report.checks[0].kind, CheckKind::Sidecar);
    assert_eq!(report.checks[0].outcome, Outcome::Failed);
    assert!(report.checks[0].detail.contains("names a different section"));
    assert!(report.checks[0].findings.is_empty());
}

#[test]
fn test_claim_source_unresolved() {
    let descriptor = parse(r#"{"sections": [{"id": "sec", "provenance_uri": "sec.prov.json"}, {"id": "other"}]}"#);

    let report = sidecar_report(
        &descriptor,
        vec![],
        vec![sidecar(r#"{"section_id":"sec","claims":[{"text":"Claim.","source_ids":["missing","other"]}]}"#)],
    );
    assert!(!report.ok());
    assert_eq!(report.checks.len(), 1);
    let check = &report.checks[0];
    assert_eq!(check.kind, CheckKind::Sidecar);
    assert_eq!(check.outcome, Outcome::Failed);
    assert_eq!(check.findings.len(), 2);
    assert_eq!(check.findings[0].code, openakb_validate::Code::Akb007);
    assert_eq!(check.findings[0].path, "/sections/0/provenance_uri/claims/0/source_ids/0");
    assert_eq!(check.findings[1].code, openakb_validate::Code::Akb010);
    assert_eq!(check.findings[1].path, "/sections/0/provenance_uri/claims/0/source_ids/1");
}

#[test]
fn test_section_id_unresolved() {
    let descriptor = parse(r#"{"sources": [{"id": "s1"}], "sections": [{"id": "sec", "provenance_uri": "sec.prov.json"}]}"#);

    let report = sidecar_report(
        &descriptor,
        vec![],
        vec![sidecar(r#"{"section_id":"s1","claims":[{"text":"Claim.","source_ids":["s1"]}]}"#)],
    );
    assert!(!report.ok());
    assert_eq!(report.checks.len(), 1);
    assert_eq!(report.checks[0].findings.len(), 1);
    assert_eq!(report.checks[0].findings[0].code, openakb_validate::Code::Akb010);
    assert_eq!(report.checks[0].findings[0].path, "/sections/0/provenance_uri/section_id");
}

#[test]
fn test_malformed_json() {
    let descriptor = parse(r#"{"sections": [{"id": "sec", "provenance_uri": "sec.prov.json"}]}"#);

    let report = sidecar_report(&descriptor, vec![], vec![sidecar("{")]);
    assert!(!report.ok());
    assert_eq!(report.checks.len(), 1);
    assert_eq!(report.checks[0].kind, CheckKind::Sidecar);
    assert_eq!(report.checks[0].path, "/sections/0/provenance_uri");
    assert_eq!(report.checks[0].outcome, Outcome::Failed);
}

#[test]
fn test_unfetchable() {
    let descriptor = parse(r#"{"sections": [{"id": "sec", "provenance_uri": "missing.prov.json"}]}"#);

    let report = sidecar_report(&descriptor, vec![], vec![Err(Unfetchable::new("missing"))]);
    assert!(report.ok());
    assert_eq!(report.checks.len(), 1);
    assert_eq!(report.checks[0].kind, CheckKind::Sidecar);
    assert_eq!(report.checks[0].path, "/sections/0/provenance_uri");
    assert_eq!(report.checks[0].outcome, Outcome::Unverifiable);
}

#[test]
fn test_malformed_provenance_hash() {
    let descriptor = parse(
        r#"{"sections": [{"id": "sec", "provenance_uri": "sec.prov.json", "provenance_hash": "sha256-@@@"}]}"#,
    );

    let report = sidecar_report(&descriptor, vec![], vec![sidecar(r#"{"section_id":"sec"}"#)]);
    let hash_check = report
        .checks
        .iter()
        .find(|check| check.path == "/sections/0/provenance_hash")
        .expect("provenance_hash check");
    assert_eq!(hash_check.kind, CheckKind::Sidecar);
    assert_eq!(hash_check.outcome, Outcome::Unverifiable);
    assert_eq!(hash_check.warnings.len(), 1);
}

#[test]
fn test_non_object_sidecar() {
    let descriptor = parse(r#"{"sections": [{"id": "sec", "provenance_uri": "sec.prov.json"}]}"#);

    let report = sidecar_report(&descriptor, vec![], vec![sidecar("[]")]);
    assert!(!report.ok());
    assert_eq!(report.checks.len(), 1);
    assert_eq!(report.checks[0].kind, CheckKind::Sidecar);
    assert_eq!(report.checks[0].outcome, Outcome::Failed);
    assert_eq!(report.checks[0].detail, "provenance sidecar is not a JSON object");
    assert!(!report.checks[0].findings.is_empty());
}

#[test]
fn test_sidecar_schema_prefix() {
    let descriptor = parse(r#"{"sections": [{"id": "sec", "provenance_uri": "sec.prov.json"}]}"#);

    let report = sidecar_report(&descriptor, vec![], vec![sidecar(r#"{"section_id":"sec"}"#)]);
    assert!(!report.ok());
    assert_eq!(report.checks.len(), 1);
    assert_eq!(report.checks[0].kind, CheckKind::Sidecar);
    assert_eq!(report.checks[0].outcome, Outcome::Failed);
    assert!(report.checks[0].findings.iter().any(|finding| finding.path.starts_with("/sections/0/provenance_uri")));
}

#[test]
fn test_sidecar_results_must_match_requests() {
    let descriptor = parse(r#"{"sections": [{"id": "sec", "provenance_uri": "sec.prov.json"}]}"#);

    assert!(check_content_with(&to_json(&descriptor), &Vec::new(), &Vec::new()).is_none());
    assert!(check_content_with(&to_json(&descriptor), &Vec::new(), &vec![sidecar("{}")]).is_some());
}

#[test]
fn test_sidecar_quote() {
    let descriptor = parse(
        r#"{"sources": [{"id": "SRC-000001", "capture_uri": "capture.txt"}], "sections": [{"id": "SEC-000001", "provenance_uri": "sec.prov.json"}]}"#,
    );
    let text = r#"{"section_id":"SEC-000001","claims":[{"text":"Claim.","source_ids":["SRC-000001"],"locator":{"quote":"source quote"}}]}"#;

    assert_eq!(requests(&descriptor), vec!["capture.txt"]);
    let report = sidecar_report(&descriptor, vec![Ok(b"source quote".to_vec())], vec![sidecar(text)]);
    assert!(report.ok());
    assert_eq!(report.checks.len(), 2);
    assert_eq!(report.checks[0].kind, CheckKind::Sidecar);
    assert_eq!(report.checks[0].outcome, Outcome::Verified);
    assert_eq!(report.checks[1].kind, CheckKind::Quote);
    assert_eq!(report.checks[1].path, "/sections/0/provenance_uri/claims/0/locator/quote");
    assert_eq!(report.checks[1].outcome, Outcome::Verified);
}

#[test]
fn test_non_markdown_hash() {
    let mut descriptor =
        parse(r#"{"sections": [{"id": "SEC-000001", "content_uri": "section.txt", "content_type": "text/plain"}]}"#);
    descriptor["sections"][0]["content_hash"] = text(&sri(b"A [cite:missing].\n"));

    assert_eq!(requests(&descriptor), vec!["section.txt"]);
    let report = report(&descriptor, vec![Ok(b"A [cite:missing].\n".to_vec())]);
    assert!(report.ok());
    assert_eq!(
        summary(&report),
        vec![(CheckKind::ContentHash, "/sections/0/content_hash".to_owned(), Outcome::Verified, "sha256 digest matches".to_owned())]
    );
}

#[test]
fn test_non_markdown_hash_warning() {
    let descriptor = parse(
        r#"{"sections": [{"id": "SEC-000001", "content_uri": "missing.txt", "content_type": "text/plain", "content_hash": "sha256-@@@"}]}"#,
    );

    assert!(requests(&descriptor).is_empty());
    let report = report(&descriptor, vec![]);
    assert!(report.ok());
    assert_eq!(report.checks.len(), 1);
    assert_eq!(report.checks[0].kind, CheckKind::ContentHash);
    assert_eq!(report.checks[0].path, "/sections/0/content_hash");
    assert_eq!(report.checks[0].outcome, Outcome::Unverifiable);
    assert_eq!(report.checks[0].warnings.len(), 1);
    assert_eq!(report.checks[0].warnings[0].path, "/sections/0/content_hash");
}

#[test]
fn test_content_hash_order() {
    let mut descriptor =
        parse(r#"{"sources": [{"id": "SRC-000001"}], "sections": [{"id": "SEC-000001", "content_uri": "section.md"}]}"#);
    descriptor["sections"][0]["content_hash"] = text(&sri(b"A [cite:SRC-000001].\n"));

    let report = report(&descriptor, vec![Ok(b"A [cite:SRC-000001].\n".to_vec())]);
    assert!(report.ok());
    assert_eq!(report.checks.len(), 2);
    assert_eq!(report.checks[0].kind, CheckKind::ContentHash);
    assert_eq!(report.checks[0].path, "/sections/0/content_hash");
    assert_eq!(report.checks[0].outcome, Outcome::Verified);
    assert_eq!(report.checks[1].kind, CheckKind::Citations);
    assert_eq!(report.checks[1].path, "/sections/0/content_uri");
    assert_eq!(report.checks[1].outcome, Outcome::Verified);
}

#[test]
fn test_markdown_malformed_hash() {
    let descriptor = parse(
        r#"{"sources": [{"id": "SRC-000001"}], "sections": [{"id": "SEC-000001", "content_uri": "section.md", "content_hash": "sha256-@@@"}]}"#,
    );

    let report = report(&descriptor, vec![Ok(b"A [cite:SRC-000001].\n".to_vec())]);
    assert!(report.ok());
    assert_eq!(report.checks.len(), 2);
    assert_eq!(report.checks[0].kind, CheckKind::ContentHash);
    assert_eq!(report.checks[0].path, "/sections/0/content_hash");
    assert_eq!(report.checks[0].outcome, Outcome::Unverifiable);
    assert_eq!(report.checks[0].warnings.len(), 1);
    assert_eq!(report.checks[1].kind, CheckKind::Citations);
    assert_eq!(report.checks[1].outcome, Outcome::Verified);
}

#[test]
fn test_content_hash_without_uri() {
    let mut descriptor = parse(r#"{"sections": [{"id": "SEC-000001"}]}"#);
    descriptor["sections"][0]["content_hash"] = text(&sri(b"x"));

    let report = report(&descriptor, vec![]);
    assert_eq!(
        summary(&report),
        vec![(CheckKind::ContentHash, "/sections/0/content_hash".to_owned(), Outcome::Unverifiable, "missing content_uri".to_owned())]
    );
}

#[test]
fn test_malformed_id_excluded() {
    let descriptor = parse(
        "{\"sources\": [{\"id\": \"SRC-0000\u{212a}1\"}], \"sections\": [{\"id\": \"SEC-000001\", \"content_uri\": \"section.md\"}]}",
    );

    let report = report(&descriptor, vec![Ok(b"A [cite:SRC-0000K1].\n".to_vec())]);
    assert!(!report.ok());
    assert_eq!(report.checks.len(), 1);
    assert_eq!(report.checks[0].kind, CheckKind::Citations);
    assert_eq!(report.checks[0].outcome, Outcome::Failed);
    assert_eq!(report.checks[0].findings.len(), 1);
    assert_eq!(report.checks[0].findings[0].code, openakb_validate::Code::Akb007);
}
