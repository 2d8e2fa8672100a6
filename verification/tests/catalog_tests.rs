use openakb_validate::{Code, LOCAL_ID_CHARSET, LOCAL_ID_MAX_LENGTH, PARENT_DEPTH_MAX, STRUCTURAL_DEPTH_MAX};

#[test]
fn test_crate_links() {
    assert_eq!(openakb_validate::Code::Akb001.as_str(), "AKB001");
}

#[test]
fn test_code_wire_strings() {
    assert_eq!(Code::Akb001.as_str(), "AKB001");
    assert_eq!(Code::Akb006.as_str(), "AKB006");
    assert_eq!(Code::Akb012.as_str(), "AKB012");
}

#[test]
fn test_code_names() {
    assert_eq!(Code::Akb001.name(), "id-not-unique");
    assert_eq!(Code::Akb002.name(), "empty-section");
    assert_eq!(Code::Akb003.name(), "missing-source-cite");
    assert_eq!(Code::Akb004.name(), "parent-cycle");
    assert_eq!(Code::Akb005.name(), "cap-exceeded");
    assert_eq!(Code::Akb006.name(), "unknown-core-property");
    assert_eq!(Code::Akb007.name(), "unresolved-reference");
    assert_eq!(Code::Akb008.name(), "unknown-rel");
    assert_eq!(Code::Akb009.name(), "missing-required-field");
    assert_eq!(Code::Akb010.name(), "invalid-reference-kind");
    assert_eq!(Code::Akb011.name(), "malformed-value");
    assert_eq!(Code::Akb012.name(), "link-missing-target");
}

#[test]
fn test_codes_order_by_number() {
    assert!(Code::Akb001 < Code::Akb002);
    assert!(Code::Akb011 < Code::Akb012);
}

#[test]
fn test_catalog_constants() {
    assert_eq!(PARENT_DEPTH_MAX, 64);
    assert_eq!(LOCAL_ID_MAX_LENGTH, 64);
    assert_eq!(STRUCTURAL_DEPTH_MAX, 1024);
    assert_eq!(LOCAL_ID_CHARSET, "abcdefghijklmnopqrstuvwxyz0123456789_-");
}

#[test]
fn test_all_codes_ascending() {
    assert_eq!(Code::ALL.len(), 12);
    for (index, code) in Code::ALL.iter().enumerate() {
        assert_eq!(code.number() as usize, index + 1);
    }
    for pair in Code::ALL.windows(2) {
        assert!(pair[0] < pair[1]);
    }
}
