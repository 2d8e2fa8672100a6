//! Embedded JSON Schemas and the mapping of schema errors to codes.

use vstd::prelude::*;

use crate::catalog::{Code, STRUCTURAL_DEPTH_MAX};
use crate::json::{json_depth, render, Json};
use crate::result::{finding_views, Finding, FindingView};
use crate::text::{chars_eq, chars_of};

verus! {

broadcast use vstd::seq_lib::group_seq_properties;

/// The OpenAKB v1 descriptor JSON Schema.
pub const DESCRIPTOR_SCHEMA: &'static str = r##"{
  "$schema": "https://json-schema.org/draft/2020-12/schema",
  "$id": "https://schema.openakb.org/v1/openakb.schema.json",
  "title": "OpenAKB v1 descriptor",
  "type": "object",
  "required": ["$schema", "id", "title", "description", "sources", "sections"],
  "properties": {
    "$schema": {
      "type": "string",
      "format": "uri",
      "pattern": "^https://schema\\.openakb\\.org/v1(\\.[0-9]+\\.[0-9]+)?/openakb\\.schema\\.json$"
    },
    "id": { "$ref": "#/$defs/local_id" },
    "namespace": { "$ref": "#/$defs/local_id" },
    "title": { "type": "string", "minLength": 1, "maxLength": 200 },
    "description": { "type": "string", "minLength": 1, "maxLength": 2000 },
    "subject_type": { "type": "string", "minLength": 1 },
    "tags": {
      "type": "array",
      "maxItems": 32,
      "uniqueItems": true,
      "items": { "type": "string", "pattern": "^[a-z0-9_-]+$", "maxLength": 40 }
    },
    "language": { "$ref": "#/$defs/language" },
    "guide_uri": { "$ref": "#/$defs/uri_reference" },
    "guide_hash": { "$ref": "#/$defs/hash" },
    "guide_length": { "$ref": "#/$defs/length" },
    "revision": { "type": "string" },
    "base_uri": { "$ref": "#/$defs/uri_reference" },
    "created_at": { "$ref": "#/$defs/timestamp" },
    "updated_at": { "$ref": "#/$defs/timestamp" },
    "sources": {
      "type": "array",
      "minItems": 1,
      "maxItems": 100000,
      "items": { "$ref": "#/$defs/source" }
    },
    "sections": {
      "type": "array",
      "minItems": 1,
      "maxItems": 10000,
      "items": { "$ref": "#/$defs/section" }
    },
    "x": { "$ref": "#/$defs/extensions" }
  },
  "$defs": {
    "local_id": { "type": "string", "pattern": "^[a-z0-9_-]{1,64}$" },
    "source_id": { "type": "string", "pattern": "^([a-z0-9_-]{1,64}|[Ss][Rr][Cc]-[0-9A-Za-z]{6})$" },
    "section_id": { "type": "string", "pattern": "^([a-z0-9_-]{1,64}|[Ss][Ee][Cc]-[0-9A-Za-z]{6})$" },
    "id_reference": { "type": "string", "pattern": "^([a-z0-9_-]{1,64}|([Ss][Rr][Cc]|[Ss][Ee][Cc])-[0-9A-Za-z]{6})$" },
    "language": { "type": "string", "pattern": "^[A-Za-z0-9]+(-[A-Za-z0-9]+)*$" },
    "uri_reference": { "type": "string", "format": "uri-reference" },
    "hash": { "type": "string", "pattern": "^[A-Za-z0-9]+-[A-Za-z0-9+/]+={0,2}$" },
    "length": { "type": "integer", "minimum": 0 },
    "timestamp": {
      "type": "string",
      "format": "date-time",
      "pattern": "^[0-9]{4}-[0-9]{2}-[0-9]{2}T[0-9]{2}:[0-9]{2}:[0-9]{2}(\\.[0-9]+)?(Z|\\+00:00)$"
    },
    "extensions": {
      "type": "object",
      "propertyNames": { "pattern": "^[a-z0-9-]+(\\.[a-z0-9-]+)+$" },
      "additionalProperties": { "type": "object" }
    },
    "source_id_list": {
      "type": "array",
      "uniqueItems": true,
      "items": { "$ref": "#/$defs/id_reference" }
    },
    "source": {
      "type": "object",
      "required": ["id", "type", "uri"],
      "properties": {
        "id": { "$ref": "#/$defs/source_id" },
        "type": { "type": "string", "minLength": 1 },
        "uri": { "$ref": "#/$defs/uri_reference" },
        "title": { "type": "string", "maxLength": 200 },
        "captured_at": { "$ref": "#/$defs/timestamp" },
        "content_hash": { "$ref": "#/$defs/hash" },
        "capture_uri": { "$ref": "#/$defs/uri_reference" },
        "content_length": { "$ref": "#/$defs/length" },
        "refresh_class": { "type": "string", "minLength": 1 },
        "cadence": { "type": "string", "minLength": 1 },
        "discovered_via_id": { "$ref": "#/$defs/id_reference" },
        "x": { "$ref": "#/$defs/extensions" }
      }
    },
    "section": {
      "type": "object",
      "required": ["id", "title", "description"],
      "properties": {
        "id": { "$ref": "#/$defs/section_id" },
        "parent_id": { "$ref": "#/$defs/id_reference" },
        "title": { "type": "string", "minLength": 1, "maxLength": 200 },
        "description": { "type": "string", "minLength": 1, "maxLength": 2000 },
        "purpose": { "type": "string", "maxLength": 2000 },
        "content_uri": { "$ref": "#/$defs/uri_reference" },
        "content_type": { "type": "string", "minLength": 1 },
        "content_hash": { "$ref": "#/$defs/hash" },
        "content_length": { "$ref": "#/$defs/length" },
        "language": { "$ref": "#/$defs/language" },
        "source_ids": { "$ref": "#/$defs/source_id_list" },
        "provenance": {
          "type": "array",
          "minItems": 1,
          "maxItems": 256,
          "items": { "$ref": "#/$defs/claim" }
        },
        "provenance_uri": { "$ref": "#/$defs/uri_reference" },
        "provenance_hash": { "$ref": "#/$defs/hash" },
        "provenance_length": { "$ref": "#/$defs/length" },
        "links": {
          "type": "array",
          "maxItems": 256,
          "items": { "$ref": "#/$defs/link" }
        },
        "refreshed_at": { "$ref": "#/$defs/timestamp" },
        "x": { "$ref": "#/$defs/extensions" }
      },
      "if": { "required": ["content_uri"] },
      "then": {
        "required": ["source_ids"],
        "properties": { "source_ids": { "minItems": 1 } }
      }
    },
    "claim": {
      "type": "object",
      "required": ["text", "source_ids"],
      "properties": {
        "text": { "type": "string" },
        "source_ids": { "$ref": "#/$defs/source_id_list", "minItems": 1 },
        "locator": {
          "type": "object",
          "properties": {
            "quote": { "type": "string", "minLength": 1 },
            "page": { "type": "integer", "minimum": 0 },
            "anchor": { "type": "string" },
            "x": { "$ref": "#/$defs/extensions" }
          }
        },
        "x": { "$ref": "#/$defs/extensions" }
      }
    },
    "link": {
      "type": "object",
      "required": ["rel"],
      "properties": {
        "rel": {
          "type": "string",
          "anyOf": [
            { "enum": ["see-also", "related", "depends-on", "prerequisite", "extends", "part-of"] },
            { "pattern": "^[a-z0-9-]+(\\.[a-z0-9-]+)+:[a-z0-9-]+$" }
          ]
        },
        "section_id": { "$ref": "#/$defs/id_reference" },
        "akb_uri": { "$ref": "#/$defs/uri_reference" },
        "revision": { "type": "string" },
        "content_hash": { "$ref": "#/$defs/hash" },
        "description": { "type": "string", "maxLength": 500 },
        "x": { "$ref": "#/$defs/extensions" }
      },
      "anyOf": [{ "required": ["section_id"] }, { "required": ["akb_uri"] }]
    }
  }
}"##;

/// The OpenAKB v1 provenance sidecar JSON Schema.
pub const PROVENANCE_SCHEMA: &'static str = r##"{
  "$schema": "https://json-schema.org/draft/2020-12/schema",
  "$id": "https://schema.openakb.org/v1/provenance.schema.json",
  "title": "OpenAKB v1 provenance sidecar",
  "type": "object",
  "required": ["section_id", "claims"],
  "properties": {
    "$schema": {
      "type": "string",
      "format": "uri",
      "pattern": "^https://schema\\.openakb\\.org/v1(\\.[0-9]+\\.[0-9]+)?/provenance\\.schema\\.json$"
    },
    "section_id": { "$ref": "#/$defs/section_id" },
    "claims": {
      "type": "array",
      "minItems": 1,
      "items": { "$ref": "#/$defs/claim" }
    }
  },
  "$defs": {
    "section_id": { "type": "string", "pattern": "^([a-z0-9_-]{1,64}|[Ss][Ee][Cc]-[0-9A-Za-z]{6})$" },
    "id_reference": { "type": "string", "pattern": "^([a-z0-9_-]{1,64}|([Ss][Rr][Cc]|[Ss][Ee][Cc])-[0-9A-Za-z]{6})$" },
    "extensions": {
      "type": "object",
      "propertyNames": { "pattern": "^[a-z0-9-]+(\\.[a-z0-9-]+)+$" },
      "additionalProperties": { "type": "object" }
    },
    "claim": {
      "type": "object",
      "required": ["text", "source_ids"],
      "properties": {
        "text": { "type": "string" },
        "source_ids": {
          "type": "array",
          "minItems": 1,
          "uniqueItems": true,
          "items": { "$ref": "#/$defs/id_reference" }
        },
        "locator": {
          "type": "object",
          "properties": {
            "quote": { "type": "string", "minLength": 1 },
            "page": { "type": "integer", "minimum": 0 },
            "anchor": { "type": "string" },
            "x": { "$ref": "#/$defs/extensions" }
          }
        },
        "x": { "$ref": "#/$defs/extensions" }
      }
    }
  }
}"##;

/// One error of a schema walk: where in the instance, where in the schema,
/// the keyword that failed and the validator's message.
pub struct SchemaError {
    /// JSON Pointer of the failing instance value.
    pub instance_path: String,
    /// JSON Pointer of the failing keyword in the schema.
    pub schema_path: String,
    /// The schema keyword that failed.
    pub keyword: String,
    /// The validator's message.
    pub message: String,
}

/// A schema error as `(instance path, schema path, keyword, message)`.
pub open spec fn error_view(e: SchemaError) -> (Seq<char>, Seq<char>, Seq<char>, Seq<char>) {
    (e.instance_path@, e.schema_path@, e.keyword@, e.message@)
}

/// The set of errors of a list.
pub open spec fn error_set(errors: Seq<SchemaError>) -> Set<(Seq<char>, Seq<char>, Seq<char>, Seq<char>)> {
    Set::new(
        |e: (Seq<char>, Seq<char>, Seq<char>, Seq<char>)|
            exists|k: int| 0 <= k < errors.len() && error_view(#[trigger] errors[k]) == e,
    )
}

/// What a JSON Schema 2020-12 walk (formats asserted, patterns run by the
/// `regex` engine) reports for the instance text against the schema text:
/// the set of its errors, or `None` when either text is not JSON or the
/// schema does not compile.
pub uninterp spec fn schema_violations(schema: Seq<char>, instance: Seq<char>) -> Option<
    Set<(Seq<char>, Seq<char>, Seq<char>, Seq<char>)>,
>;

/// Runs `jsonschema` on JSON texts: parses both with `serde_json` (the
/// instance without a nesting limit), compiles the schema for draft 2020-12
/// with format assertion and the `regex` pattern engine, and collects every
/// error of `iter_errors` with its instance path, schema path, keyword and
/// message. The contract claims only that the errors are those the walk
/// reports; which errors those are is left to `jsonschema`. Both the parse
/// and the walk recurse once per nesting level, so the instance must render a
/// value nested at most `STRUCTURAL_DEPTH_MAX` deep.
#[verifier::external_body]
fn schema_errors(schema: &str, instance: &str) -> (r: Option<Vec<SchemaError>>)
    requires
        exists|v: Json| render(v) == instance@ && json_depth(v) <= STRUCTURAL_DEPTH_MAX,
    ensures
        match r {
            Some(errors) => schema_violations(schema@, instance@) == Some(error_set(errors@)),
            None => schema_violations(schema@, instance@) is None,
        },
{
    let schema: serde_json::Value = serde_json::from_str(schema).ok()?;
    let mut reader = serde_json::Deserializer::from_str(instance);
    reader.disable_recursion_limit();
    let instance = <serde_json::Value as serde::Deserialize>::deserialize(&mut reader).ok()?;
    reader.end().ok()?;
    let validator = jsonschema::options().with_draft(jsonschema::Draft::Draft202012)
        .should_validate_formats(true).with_pattern_options(jsonschema::PatternOptions::regex())
        .build(&schema).ok()?;
    Some(validator.iter_errors(&instance).map(|e| SchemaError {
        instance_path: e.instance_path().to_string(), schema_path: e.schema_path().to_string(),
        keyword: e.kind().keyword().to_string(), message: e.to_string(),
    }).collect())
}

// ---------------------------------------------------------------------------
// Paths

/// The `/`-separated segment of `path` that starts at `i` is `segment`.
pub open spec fn segment_at(path: Seq<char>, i: int, segment: Seq<char>) -> bool {
    &&& 0 <= i
    &&& i + segment.len() <= path.len()
    &&& path.subrange(i, i + segment.len()) == segment
    &&& (i == 0 || path[i - 1] == '/')
    &&& (i + segment.len() == path.len() || path[i + segment.len()] == '/')
}

/// `segment` is one of the `/`-separated segments of `path`.
pub open spec fn has_segment(path: Seq<char>, segment: Seq<char>) -> bool {
    exists|i: int| #[trigger] segment_at(path, i, segment)
}

/// Whether `path` holds `segment` from position `i` on.
fn chars_at(path: &Vec<char>, i: usize, segment: &Vec<char>) -> (r: bool)
    requires
        i + segment@.len() <= path@.len(),
    ensures
        r == (path@.subrange(i as int, i + segment@.len()) == segment@),
{
    let mut k: usize = 0;
    while k < segment.len()
        invariant
            0 <= k <= segment@.len(),
            i + segment.len() <= path.len(),
            forall|j: int| 0 <= j < k ==> path@[i + j] == segment@[j],
        decreases segment@.len() - k,
    {
        if path[i + k] != segment[k] {
            assert(path@.subrange(i as int, i + segment@.len())[k as int] != segment@[k as int]);
            return false;
        }
        k = k + 1;
    }
    assert(path@.subrange(i as int, i + segment@.len()) =~= segment@);
    true
}

/// Whether `segment` is one of the `/`-separated segments of `path`.
pub fn schema_path_has_segment(path: &str, segment: &str) -> (r: bool)
    ensures
        r == has_segment(path@, segment@),
{
    let p = chars_of(path);
    let s = chars_of(segment);
    if s.len() > p.len() {
        assert forall|i: int| !segment_at(path@, i, segment@) by {}
        return false;
    }
    let last = p.len() - s.len();
    let mut i: usize = 0;
    loop
        invariant
            0 <= i <= last,
            last + s.len() == p.len(),
            p@ == path@,
            s@ == segment@,
            forall|j: int| 0 <= j < i ==> !#[trigger] segment_at(path@, j, segment@),
        ensures
            forall|j: int| 0 <= j <= last ==> !#[trigger] segment_at(path@, j, segment@),
        decreases last - i,
    {
        let starts = i == 0 || p[i - 1] == '/';
        let ends = i + s.len() == p.len() || p[i + s.len()] == '/';
        if starts && ends && chars_at(&p, i, &s) {
            assert(segment_at(path@, i as int, segment@));
            return true;
        }
        if i == last {
            break;
        }
        i = i + 1;
    }
    assert forall|j: int| !#[trigger] segment_at(path@, j, segment@) by {
        if j > last {
            assert(!(j + segment@.len() <= path@.len()));
        }
    }
    false
}

/// Whether the schema path goes through a `then` branch.
pub fn is_then_schema_path(schema_path: &str) -> (r: bool)
    ensures
        r == has_segment(schema_path@, "then"@),
{
    schema_path_has_segment(schema_path, "then")
}

/// The value of a string of decimal digits.
pub open spec fn digits_value(s: Seq<char>) -> nat
    decreases s.len(),
{
    if s.len() == 0 {
        0
    } else {
        digits_value(s.drop_last()) * 10 + ((s.last() as int) - ('0' as int)) as nat
    }
}

/// Every character of `s` is an ASCII digit.
pub open spec fn all_digits(s: Seq<char>) -> bool {
    forall|i: int| 0 <= i < s.len() ==> '0' <= #[trigger] s[i] <= '9'
}

/// `s` is what `usize`'s `FromStr` accepts: an optional `+` and one or more
/// ASCII digits whose value fits in a `usize`.
pub open spec fn parses_as_usize(s: Seq<char>) -> bool {
    let t = if s.len() > 0 && s[0] == '+' {
        s.skip(1)
    } else {
        s
    };
    t.len() > 0 && all_digits(t) && digits_value(t) <= usize::MAX
}

proof fn lemma_digits_value_prefix(t: Seq<char>, k: int)
    requires
        all_digits(t),
        0 <= k <= t.len(),
    ensures
        digits_value(t.subrange(0, k)) <= digits_value(t),
    decreases t.len() - k,
{
    if k < t.len() {
        lemma_digits_value_prefix(t, k + 1);
        let next = t.subrange(0, k + 1);
        assert(next.drop_last() =~= t.subrange(0, k));
        assert('0' <= next.last() <= '9');
    }
}

/// Whether `s` parses as a `usize`.
fn parses_as_index(s: &Vec<char>) -> (r: bool)
    ensures
        r == parses_as_usize(s@),
{
    let start: usize = if s.len() > 0 && s[0] == '+' { 1 } else { 0 };
    let ghost t = if s@.len() > 0 && s@[0] == '+' { s@.skip(1) } else { s@ };
    if start >= s.len() {
        assert(t.len() == 0);
        return false;
    }
    let mut value: usize = 0;
    let mut i: usize = start;
    while i < s.len()
        invariant
            start <= i <= s@.len(),
            start == 0 || start == 1,
            t == s@.skip(start as int),
            t == (if s@.len() > 0 && s@[0] == '+' { s@.skip(1) } else { s@ }),
            all_digits(t.subrange(0, i - start)),
            value as nat == digits_value(t.subrange(0, i - start)),
        decreases s@.len() - i,
    {
        let c = s[i];
        assert(t[i - start] == c);
        if c < '0' || c > '9' {
            assert(!all_digits(t));
            return false;
        }
        let ghost next = t.subrange(0, i + 1 - start);
        assert(next.drop_last() =~= t.subrange(0, i - start));
        assert(next.last() == c);
        let d: usize = ((c as u32) - ('0' as u32)) as usize;
        assert(d as int == (c as int) - ('0' as int));
        if value > (usize::MAX - d) / 10 {
            proof {
                assert(value * 10 + d > usize::MAX) by (nonlinear_arith)
                    requires
                        value > (usize::MAX - d) / 10,
                        d <= 9,
                ;
                if all_digits(t) {
                    lemma_digits_value_prefix(t, i + 1 - start);
                }
            }
            return false;
        }
        assert(value * 10 + d <= usize::MAX) by (nonlinear_arith)
            requires
                value <= (usize::MAX - d) / 10,
                d <= 9,
        ;
        value = value * 10 + d;
        i = i + 1;
    }
    assert(t.subrange(0, i - start) =~= t);
    true
}

/// The last `/` of `path` is at `k`.
pub open spec fn last_slash_at(path: Seq<char>, k: int) -> bool {
    &&& 0 <= k < path.len()
    &&& path[k] == '/'
    &&& forall|j: int| k < j < path.len() ==> path[j] != '/'
}

/// `path` ends in the position of an item of a `links` array: its last
/// segment parses as an index and the segment before it is `links`.
pub open spec fn is_link_instance(path: Seq<char>) -> bool {
    exists|k: int|
        #[trigger] last_slash_at(path, k) && parses_as_usize(path.subrange(k + 1, path.len() as int))
            && k >= 5 && path.subrange(k - 5, k) == "links"@ && (k == 5 || path[k - 6] == '/')
}

/// Whether the instance path points at an item of a `links` array.
pub fn is_link_instance_path(instance_path: &str) -> (r: bool)
    ensures
        r == is_link_instance(instance_path@),
{
    let p = chars_of(instance_path);
    let mut k: usize = p.len();
    while k > 0 && p[k - 1] != '/'
        invariant
            0 <= k <= p@.len(),
            p@ == instance_path@,
            forall|j: int| k <= j < p@.len() ==> p@[j] != '/',
        decreases k,
    {
        k = k - 1;
    }
    if k == 0 {
        assert forall|j: int| !#[trigger] last_slash_at(instance_path@, j) by {}
        return false;
    }
    let slash = k - 1;
    assert(last_slash_at(instance_path@, slash as int));
    assert forall|j: int| #[trigger] last_slash_at(instance_path@, j) implies j == slash by {}
    let mut last: Vec<char> = Vec::new();
    let mut i: usize = slash + 1;
    while i < p.len()
        invariant
            slash + 1 <= i <= p@.len(),
            last@ == p@.subrange(slash + 1, i as int),
        decreases p@.len() - i,
    {
        last.push(p[i]);
        i = i + 1;
    }
    if !parses_as_index(&last) {
        return false;
    }
    if slash < 5 {
        return false;
    }
    proof {
        reveal_strlit("links");
    }
    let links = chars_of("links");
    let named = chars_at(&p, slash - 5, &links);
    let bounded = slash == 5 || p[slash - 6] == '/';
    named && bounded
}

/// Whether the error is a failed link-level `anyOf` (a link with no target).
pub fn is_link_level_any_of(instance_path: &str, schema_path: &str) -> (r: bool)
    ensures
        r == (has_segment(schema_path@, "anyOf"@) && is_link_instance(instance_path@)),
{
    schema_path_has_segment(schema_path, "anyOf") && is_link_instance_path(instance_path)
}

/// `path` ends with `suffix`.
pub open spec fn ends_with(path: Seq<char>, suffix: Seq<char>) -> bool {
    path.len() >= suffix.len() && path.subrange(path.len() - suffix.len(), path.len() as int) == suffix
}

/// The keywords whose failure is a malformed value.
pub open spec fn is_value_keyword(keyword: Seq<char>) -> bool {
    ||| keyword == "anyOf"@
    ||| keyword == "enum"@
    ||| keyword == "format"@
    ||| keyword == "minimum"@
    ||| keyword == "minItems"@
    ||| keyword == "minLength"@
    ||| keyword == "pattern"@
    ||| keyword == "propertyNames"@
    ||| keyword == "type"@
    ||| keyword == "uniqueItems"@
}

/// The code of a schema error: `AKB012` for a failed link-level `anyOf`,
/// `AKB003` inside the section content-cite `then`, `AKB011` for a wrong type
/// and `AKB008` otherwise at a `rel`, then by keyword: `AKB005` for
/// `maxItems` and `maxLength`, `AKB009` for `required`, `AKB011` for the value
/// keywords; none for any other error.
pub open spec fn code_for_error(instance_path: Seq<char>, schema_path: Seq<char>, keyword: Seq<char>) -> Option<Code> {
    if has_segment(schema_path, "anyOf"@) && is_link_instance(instance_path) {
        Some(Code::Akb012)
    } else if has_segment(schema_path, "then"@) {
        Some(Code::Akb003)
    } else if ends_with(instance_path, "/rel"@) {
        if keyword == "type"@ {
            Some(Code::Akb011)
        } else {
            Some(Code::Akb008)
        }
    } else if keyword == "maxItems"@ || keyword == "maxLength"@ {
        Some(Code::Akb005)
    } else if keyword == "required"@ {
        Some(Code::Akb009)
    } else if is_value_keyword(keyword) {
        Some(Code::Akb011)
    } else {
        None
    }
}

/// Whether `s` is the word `w`.
fn is_word(s: &Vec<char>, w: &'static str) -> (r: bool)
    ensures
        r == (s@ == w@),
{
    let w = chars_of(w);
    chars_eq(s.as_slice(), w.as_slice())
}

/// Whether `path` ends with `suffix`.
fn ends_with_chars(path: &Vec<char>, suffix: &'static str) -> (r: bool)
    ensures
        r == ends_with(path@, suffix@),
{
    let s = chars_of(suffix);
    if s.len() > path.len() {
        return false;
    }
    chars_at(path, path.len() - s.len(), &s)
}

/// The code of a schema error.
pub fn code_for(error: &SchemaError) -> (code: Option<Code>)
    ensures
        code == code_for_error(error.instance_path@, error.schema_path@, error.keyword@),
{
    if is_link_level_any_of(error.instance_path.as_str(), error.schema_path.as_str()) {
        return Some(Code::Akb012);
    }
    if is_then_schema_path(error.schema_path.as_str()) {
        return Some(Code::Akb003);
    }
    let instance = chars_of(error.instance_path.as_str());
    let keyword = chars_of(error.keyword.as_str());
    if ends_with_chars(&instance, "/rel") {
        return if is_word(&keyword, "type") {
            Some(Code::Akb011)
        } else {
            Some(Code::Akb008)
        };
    }
    if is_word(&keyword, "maxItems") || is_word(&keyword, "maxLength") {
        Some(Code::Akb005)
    } else if is_word(&keyword, "required") {
        Some(Code::Akb009)
    } else if is_word(&keyword, "anyOf") || is_word(&keyword, "enum") || is_word(&keyword, "format")
        || is_word(&keyword, "minimum") || is_word(&keyword, "minItems") || is_word(&keyword, "minLength")
        || is_word(&keyword, "pattern") || is_word(&keyword, "propertyNames") || is_word(&keyword, "type")
        || is_word(&keyword, "uniqueItems") {
        Some(Code::Akb011)
    } else {
        None
    }
}

// ---------------------------------------------------------------------------
// Findings

/// `x` is the finding of one of the errors: its code, the error's instance
/// path and the error's message.
pub open spec fn finding_of_error(
    errors: Set<(Seq<char>, Seq<char>, Seq<char>, Seq<char>)>,
    x: FindingView,
) -> bool {
    exists|e: (Seq<char>, Seq<char>, Seq<char>, Seq<char>)|
        #[trigger] errors.contains(e) && code_for_error(e.0, e.1, e.2) == Some(x.code) && x.path == e.0
            && x.message == e.3
}

/// The findings of a list of schema errors: one for each error with a code,
/// sorted, each once.
pub fn findings_for(errors: &Vec<SchemaError>) -> (findings: Vec<Finding>)
    ensures
        crate::result::findings_strictly_sorted(finding_views(findings@)),
        forall|x: FindingView|
            finding_views(findings@).contains(x) <==> finding_of_error(error_set(errors@), x),
{
    let mut all: Vec<Finding> = Vec::new();
    let mut i: usize = 0;
    while i < errors.len()
        invariant
            0 <= i <= errors@.len(),
            forall|x: FindingView|
                finding_views(all@).contains(x) <==> exists|k: int|
                    0 <= k < i && code_for_error(
                        errors@[k].instance_path@,
                        errors@[k].schema_path@,
                        errors@[k].keyword@,
                    ) == Some(x.code) && x.path == (#[trigger] errors@[k]).instance_path@ && x.message
                        == errors@[k].message@,
        decreases errors@.len() - i,
    {
        let e = &errors[i];
        let ghost before = finding_views(all@);
        match code_for(e) {
            Some(code) => {
                all.push(Finding { code, path: e.instance_path.clone(), message: e.message.clone() });
                proof {
                    let f = finding_views(all@);
                    assert(f =~= before.push(f.last()));
                }
            },
            None => {},
        }
        proof {
            let f = finding_views(all@);
            assert forall|x: FindingView| f.contains(x) <==> exists|k: int|
                0 <= k < i + 1 && code_for_error(
                    errors@[k].instance_path@,
                    errors@[k].schema_path@,
                    errors@[k].keyword@,
                ) == Some(x.code) && x.path == (#[trigger] errors@[k]).instance_path@ && x.message
                    == errors@[k].message@ by {
                if f.contains(x) && !before.contains(x) {
                    let j = choose|j: int| 0 <= j < f.len() && f[j] == x;
                    if j < before.len() {
                        assert(before[j] == x);
                    }
                    assert(errors@[i as int] == *e);
                }
                if before.contains(x) {
                    let j = choose|j: int| 0 <= j < before.len() && before[j] == x;
                    assert(f[j] == x);
                }
                if !before.contains(x) && exists|k: int|
                    0 <= k < i + 1 && code_for_error(
                        errors@[k].instance_path@,
                        errors@[k].schema_path@,
                        errors@[k].keyword@,
                    ) == Some(x.code) && x.path == (#[trigger] errors@[k]).instance_path@ && x.message
                        == errors@[k].message@ {
                    assert(errors@[i as int] == *e);
                    assert(f[f.len() - 1] == x);
                }
            }
        }
        i = i + 1;
    }
    proof {
        let f = finding_views(all@);
        assert forall|x: FindingView| f.contains(x) <==> finding_of_error(error_set(errors@), x) by {
            if f.contains(x) {
                let k = choose|k: int|
                    0 <= k < errors@.len() && code_for_error(
                        errors@[k].instance_path@,
                        errors@[k].schema_path@,
                        errors@[k].keyword@,
                    ) == Some(x.code) && x.path == (#[trigger] errors@[k]).instance_path@ && x.message
                        == errors@[k].message@;
                assert(error_set(errors@).contains(error_view(errors@[k])));
            }
            if finding_of_error(error_set(errors@), x) {
                let e = choose|e: (Seq<char>, Seq<char>, Seq<char>, Seq<char>)|
                    #[trigger] error_set(errors@).contains(e) && code_for_error(e.0, e.1, e.2) == Some(x.code)
                        && x.path == e.0 && x.message == e.3;
                let k = choose|k: int| 0 <= k < errors@.len() && error_view(#[trigger] errors@[k]) == e;
                assert(errors@[k].instance_path@ == e.0);
            }
        }
    }
    crate::result::sort_dedup_findings(all)
}

/// `x` is a schema finding of `instance` against the schema text `schema`.
pub open spec fn schema_finding(schema: Seq<char>, instance: Json, x: FindingView) -> bool {
    match schema_violations(schema, render(instance)) {
        Some(errors) => finding_of_error(errors, x),
        None => false,
    }
}

/// The findings of `instance` against the schema text `schema`, sorted, each
/// once; none when the walk cannot run.
fn findings_against(schema: &str, instance: &Json) -> (findings: Vec<Finding>)
    requires
        json_depth(*instance) <= STRUCTURAL_DEPTH_MAX,
    ensures
        crate::result::findings_strictly_sorted(finding_views(findings@)),
        forall|x: FindingView| finding_views(findings@).contains(x) <==> schema_finding(schema@, *instance, x),
{
    let text = crate::json::render_json(instance);
    assert(render(*instance) == text@ && json_depth(*instance) <= STRUCTURAL_DEPTH_MAX);
    match schema_errors(schema, text.as_str()) {
        Some(errors) => findings_for(&errors),
        None => Vec::new(),
    }
}

/// Returns the schema findings of a descriptor nested at most
/// `STRUCTURAL_DEPTH_MAX` deep.
pub fn schema_findings(descriptor: &Json) -> (findings: Vec<Finding>)
    requires
        json_depth(*descriptor) <= STRUCTURAL_DEPTH_MAX,
    ensures
        crate::result::findings_strictly_sorted(finding_views(findings@)),
        forall|x: FindingView|
            finding_views(findings@).contains(x) <==> schema_finding(DESCRIPTOR_SCHEMA@, *descriptor, x),
{
    findings_against(DESCRIPTOR_SCHEMA, descriptor)
}

/// Returns the schema findings of a provenance sidecar nested at most
/// `STRUCTURAL_DEPTH_MAX` deep.
pub fn provenance_schema_findings(sidecar: &Json) -> (findings: Vec<Finding>)
    requires
        json_depth(*sidecar) <= STRUCTURAL_DEPTH_MAX,
    ensures
        crate::result::findings_strictly_sorted(finding_views(findings@)),
        forall|x: FindingView|
            finding_views(findings@).contains(x) <==> schema_finding(PROVENANCE_SCHEMA@, *sidecar, x),
{
    findings_against(PROVENANCE_SCHEMA, sidecar)
}

/// The schema layer never reports the strict-profile `AKB006`: no schema
/// error maps to it.
pub proof fn lemma_schema_codes(schema: Seq<char>, instance: Json, x: FindingView)
    requires
        schema_finding(schema, instance, x),
    ensures
        x.code != Code::Akb006,
{
    let errors = schema_violations(schema, render(instance))->0;
    let e = choose|e: (Seq<char>, Seq<char>, Seq<char>, Seq<char>)|
        #[trigger] errors.contains(e) && code_for_error(e.0, e.1, e.2) == Some(x.code) && x.path == e.0
            && x.message == e.3;
}

} // verus!
