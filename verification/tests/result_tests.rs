use openakb_validate::{json_pointer, Advisory, Code, Finding, Segment, ValidationResult};

fn finding(code: Code, path: &str) -> Finding {
    Finding {
        code,
        path: path.to_owned(),
        message: "m".to_owned(),
    }
}

#[test]
fn test_pointer_escaping() {
    assert_eq!(
        json_pointer(&[Segment::Key("a/b"), Segment::Key("m~n"), Segment::Index(3)]),
        "/a~1b/m~0n/3",
    );
}

#[test]
fn test_pointer_root_empty() {
    assert_eq!(json_pointer(&[]), "");
}

#[test]
fn test_result_ok_and_codes() {
    let mut result = ValidationResult::default();
    assert!(result.ok());
    assert_eq!(result.codes(), Vec::<Code>::new());

    result.findings = vec![
        finding(Code::Akb003, "/b"),
        finding(Code::Akb001, "/a"),
        finding(Code::Akb003, "/c"),
    ];
    result.warnings = vec![Advisory {
        path: "/warnings/0".to_owned(),
        message: "w".to_owned(),
    }];

    assert!(!result.ok());
    assert_eq!(result.codes(), vec![Code::Akb001, Code::Akb003]);
}

#[test]
fn test_finding_name() {
    assert_eq!(
        finding(Code::Akb012, "/sections/0/links/0").name(),
        "link-missing-target"
    );
}

#[test]
fn test_finding_sort_order() {
    let mut findings = vec![
        Finding {
            code: Code::Akb002,
            path: "/a".to_owned(),
            message: "a".to_owned(),
        },
        Finding {
            code: Code::Akb001,
            path: "/b".to_owned(),
            message: "a".to_owned(),
        },
        Finding {
            code: Code::Akb001,
            path: "/a".to_owned(),
            message: "b".to_owned(),
        },
        Finding {
            code: Code::Akb001,
            path: "/a".to_owned(),
            message: "a".to_owned(),
        },
    ];

    findings.sort();

    assert_eq!(
        findings,
        vec![
            Finding {
                code: Code::Akb001,
                path: "/a".to_owned(),
                message: "a".to_owned(),
            },
            Finding {
                code: Code::Akb001,
                path: "/a".to_owned(),
                message: "b".to_owned(),
            },
            Finding {
                code: Code::Akb001,
                path: "/b".to_owned(),
                message: "a".to_owned(),
            },
            Finding {
                code: Code::Akb002,
                path: "/a".to_owned(),
                message: "a".to_owned(),
            },
        ],
    );
}

#[test]
fn test_pointer_index_and_nested_escapes() {
    assert_eq!(
        json_pointer(&[Segment::Key("~/"), Segment::Index(0), Segment::Index(120)]),
        "/~0~1/0/120"
    );
    assert_eq!(json_pointer(&[Segment::Key("")]), "/");
}

#[test]
fn test_codes_each_once_ascending() {
    let result = ValidationResult {
        findings: vec![
            finding(Code::Akb012, "/z"),
            finding(Code::Akb005, "/y"),
            finding(Code::Akb012, "/x"),
            finding(Code::Akb001, "/w"),
        ],
        warnings: Vec::new(),
    };
    assert_eq!(result.codes(), vec![Code::Akb001, Code::Akb005, Code::Akb012]);
}

#[test]
fn test_warnings_do_not_block_ok() {
    let result = ValidationResult {
        findings: Vec::new(),
        warnings: vec![Advisory {
            path: "/sources/0/discovered_via_id".to_owned(),
            message: "w".to_owned(),
        }],
    };
    assert!(result.ok());
    assert!(result.codes().is_empty());
}

#[test]
fn test_duplicate_keeps_values() {
    let original = finding(Code::Akb007, "/sections/0/parent_id");
    assert_eq!(original.duplicate(), original);
    let advisory = Advisory {
        path: "/p".to_owned(),
        message: "m".to_owned(),
    };
    assert_eq!(advisory.duplicate(), advisory);
}

#[test]
fn test_pointer_splits_back() {
    let pointer = json_pointer(&[Segment::Key("a/b~c"), Segment::Index(12), Segment::Key("")]);
    assert_eq!(pointer, "/a~1b~0c/12/");
    let parts: Vec<&str> = pointer.split('/').collect();
    assert_eq!(parts, vec!["", "a~1b~0c", "12", ""]);
    assert_eq!(parts[1].replace("~1", "/").replace("~0", "~"), "a/b~c");
}
