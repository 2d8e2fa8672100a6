//! Stable code catalog.

use vstd::prelude::*;

verus! {

/// Maximum allowed depth for parent chains.
pub const PARENT_DEPTH_MAX: usize = 64;

/// Maximum structural nesting depth a descriptor may reach before
/// `validate` declines the schema walk and reports `AKB011` instead.
pub const STRUCTURAL_DEPTH_MAX: usize = 1024;

/// Maximum allowed length for local identifiers.
pub const LOCAL_ID_MAX_LENGTH: usize = 64;

/// Local identifier characters. The hyphen is last so this string can also
/// be used directly as a regex character-class body.
pub const LOCAL_ID_CHARSET: &'static str = "abcdefghijklmnopqrstuvwxyz0123456789_-";

/// Stable OpenAKB diagnostic code.
#[allow(missing_docs)]
#[derive(Debug, Clone, Copy, PartialEq, Eq, Hash, PartialOrd, Ord, Structural)]
pub enum Code {
    Akb001,
    Akb002,
    Akb003,
    Akb004,
    Akb005,
    Akb006,
    Akb007,
    Akb008,
    Akb009,
    Akb010,
    Akb011,
    Akb012,
}

/// The position of a code in the catalog, starting at 1; codes sort by it.
pub open spec fn code_number(code: Code) -> nat {
    match code {
        Code::Akb001 => 1,
        Code::Akb002 => 2,
        Code::Akb003 => 3,
        Code::Akb004 => 4,
        Code::Akb005 => 5,
        Code::Akb006 => 6,
        Code::Akb007 => 7,
        Code::Akb008 => 8,
        Code::Akb009 => 9,
        Code::Akb010 => 10,
        Code::Akb011 => 11,
        Code::Akb012 => 12,
    }
}

/// The wire spelling of a code: `AKB` followed by its three-digit number.
pub open spec fn code_wire(code: Code) -> Seq<char> {
    let n = code_number(code);
    seq!['A', 'K', 'B', '0', (if n >= 10 { '1' } else { '0' }), digit_char((n % 10) as nat)]
}

/// The decimal digit character for `d < 10`.
pub open spec fn digit_char(d: nat) -> char {
    if d == 0 { '0' }
    else if d == 1 { '1' }
    else if d == 2 { '2' }
    else if d == 3 { '3' }
    else if d == 4 { '4' }
    else if d == 5 { '5' }
    else if d == 6 { '6' }
    else if d == 7 { '7' }
    else if d == 8 { '8' }
    else { '9' }
}

/// The stable human-readable name of a code.
pub open spec fn code_name(code: Code) -> Seq<char> {
    match code {
        Code::Akb001 => "id-not-unique"@,
        Code::Akb002 => "empty-section"@,
        Code::Akb003 => "missing-source-cite"@,
        Code::Akb004 => "parent-cycle"@,
        Code::Akb005 => "cap-exceeded"@,
        Code::Akb006 => "unknown-core-property"@,
        Code::Akb007 => "unresolved-reference"@,
        Code::Akb008 => "unknown-rel"@,
        Code::Akb009 => "missing-required-field"@,
        Code::Akb010 => "invalid-reference-kind"@,
        Code::Akb011 => "malformed-value"@,
        Code::Akb012 => "link-missing-target"@,
    }
}

impl Code {
    /// All stable diagnostic codes in ascending order.
    pub const ALL: [Code; 12] = [
        Code::Akb001,
        Code::Akb002,
        Code::Akb003,
        Code::Akb004,
        Code::Akb005,
        Code::Akb006,
        Code::Akb007,
        Code::Akb008,
        Code::Akb009,
        Code::Akb010,
        Code::Akb011,
        Code::Akb012,
    ];

    /// Returns the stable human-readable name for this diagnostic code.
    pub fn name(self) -> (s: &'static str)
        ensures
            s@ == code_name(self),
    {
        match self {
            Code::Akb001 => "id-not-unique",
            Code::Akb002 => "empty-section",
            Code::Akb003 => "missing-source-cite",
            Code::Akb004 => "parent-cycle",
            Code::Akb005 => "cap-exceeded",
            Code::Akb006 => "unknown-core-property",
            Code::Akb007 => "unresolved-reference",
            Code::Akb008 => "unknown-rel",
            Code::Akb009 => "missing-required-field",
            Code::Akb010 => "invalid-reference-kind",
            Code::Akb011 => "malformed-value",
            Code::Akb012 => "link-missing-target",
        }
    }

    /// Returns the number of this code in the catalog (1 for `AKB001`).
    pub fn number(self) -> (n: u8)
        ensures
            n as nat == code_number(self),
            1 <= n <= 12,
    {
        match self {
            Code::Akb001 => 1,
            Code::Akb002 => 2,
            Code::Akb003 => 3,
            Code::Akb004 => 4,
            Code::Akb005 => 5,
            Code::Akb006 => 6,
            Code::Akb007 => 7,
            Code::Akb008 => 8,
            Code::Akb009 => 9,
            Code::Akb010 => 10,
            Code::Akb011 => 11,
            Code::Akb012 => 12,
        }
    }

    /// Returns the wire spelling of this diagnostic code.
    pub fn as_str(self) -> (s: &'static str)
        ensures
            s@ == code_wire(self),
    {
        let s = match self {
            Code::Akb001 => "AKB001",
            Code::Akb002 => "AKB002",
            Code::Akb003 => "AKB003",
            Code::Akb004 => "AKB004",
            Code::Akb005 => "AKB005",
            Code::Akb006 => "AKB006",
            Code::Akb007 => "AKB007",
            Code::Akb008 => "AKB008",
            Code::Akb009 => "AKB009",
            Code::Akb010 => "AKB010",
            Code::Akb011 => "AKB011",
            Code::Akb012 => "AKB012",
        };
        proof {
            reveal_strlit("AKB001");
            reveal_strlit("AKB002");
            reveal_strlit("AKB003");
            reveal_strlit("AKB004");
            reveal_strlit("AKB005");
            reveal_strlit("AKB006");
            reveal_strlit("AKB007");
            reveal_strlit("AKB008");
            reveal_strlit("AKB009");
            reveal_strlit("AKB010");
            reveal_strlit("AKB011");
            reveal_strlit("AKB012");
        }
        s
    }
}

} // verus!
