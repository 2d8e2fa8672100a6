//! Public validation entry points.

use vstd::prelude::*;

use crate::catalog::{Code, STRUCTURAL_DEPTH_MAX};
use crate::content::{all_findings, check_views, with_outcome_of, ContentReport, Outcome};
use crate::json::{deeper_than, json_depth, Json};
use crate::result::{
    advisories_strictly_sorted, advisory_views, finding_views, findings_strictly_sorted, AdvisoryView,
    Finding, FindingView, ValidationResult,
};
use crate::schema::{schema_finding, schema_findings, DESCRIPTOR_SCHEMA};
use crate::semantic::{semantic_finding, semantic_findings, semantic_warnings, source_cycle_warning};
use crate::strict::{strict_findings, strict_findings_of};

verus! {

broadcast use vstd::seq_lib::group_seq_properties;

/// Validation mode.
#[derive(Debug, Clone, Copy, PartialEq, Eq, Structural)]
pub enum Mode {
    /// Schema and semantic validation without strict-profile findings.
    Lenient,
    /// Schema and semantic validation plus the `AKB006` unknown-core-property
    /// lint.
    Strict,
}

impl Default for Mode {
    fn default() -> (mode: Self)
        ensures
            mode == Mode::Lenient,
    {
        Mode::Lenient
    }
}

/// The finding of a descriptor nested too deeply for the schema walk.
pub open spec fn too_deep_finding() -> FindingView {
    FindingView {
        code: Code::Akb011,
        path: seq![],
        message: "structural nesting depth exceeds the maximum of "@ + crate::text::decimal(
            STRUCTURAL_DEPTH_MAX as nat,
        ),
    }
}

/// `x` is a structural finding of `d`: a schema finding, or, for a
/// descriptor nested deeper than `STRUCTURAL_DEPTH_MAX`, whose schema walk is
/// declined, the one `AKB011` that says so.
pub open spec fn structural_finding(d: Json, x: FindingView) -> bool {
    if json_depth(d) > STRUCTURAL_DEPTH_MAX {
        x == too_deep_finding()
    } else {
        schema_finding(DESCRIPTOR_SCHEMA@, d, x)
    }
}

/// `x` is a finding of descriptor `d` in `mode`: a structural finding, a
/// semantic finding, or, in strict mode, an unknown core member.
pub open spec fn validation_finding(d: Json, mode: Mode, x: FindingView) -> bool {
    ||| structural_finding(d, x)
    ||| semantic_finding(d, x)
    ||| mode == Mode::Strict && strict_findings_of(d).contains(x)
}

/// `x` is a warning of descriptor `d` in `mode`: a discovery cycle among its
/// sources, whatever the mode.
pub open spec fn validation_warning(d: Json, mode: Mode, x: AdvisoryView) -> bool {
    source_cycle_warning(d, x)
}

/// Warnings do not depend on the mode: strict and lenient validation warn
/// alike.
pub proof fn lemma_warnings_mode_independent(d: Json, x: AdvisoryView)
    ensures
        validation_warning(d, Mode::Lenient, x) == validation_warning(d, Mode::Strict, x),
{
}

/// Appends `more` to `out`.
fn extend(out: &mut Vec<Finding>, more: Vec<Finding>)
    ensures
        finding_views(final(out)@) == finding_views(old(out)@) + finding_views(more@),
{
    let mut more = more;
    let ghost before = out@;
    let ghost added = more@;
    out.append(&mut more);
    assert(finding_views(out@) =~= finding_views(before) + finding_views(added));
}

/// Validates a descriptor against the embedded schema and the
/// descriptor-local semantic rules.
///
/// [`Mode::Strict`] adds `AKB006` findings for unknown core members outside
/// extension payloads. A descriptor nested deeper than
/// `STRUCTURAL_DEPTH_MAX` is not walked against the schema; one `AKB011` at
/// the root says so instead. Content behind URIs is never fetched here.
pub fn validate(descriptor: &Json, mode: Mode) -> (result: ValidationResult)
    ensures
        findings_strictly_sorted(finding_views(result.findings@)),
        forall|x: FindingView|
            finding_views(result.findings@).contains(x) <==> validation_finding(*descriptor, mode, x),
        advisories_strictly_sorted(advisory_views(result.warnings@)),
        forall|x: AdvisoryView|
            advisory_views(result.warnings@).contains(x) <==> validation_warning(*descriptor, mode, x),
{
    let mut all = if deeper_than(descriptor, STRUCTURAL_DEPTH_MAX) {
        let mut message: Vec<char> = Vec::new();
        crate::text::push_str(&mut message, "structural nesting depth exceeds the maximum of ");
        crate::text::push_decimal(&mut message, STRUCTURAL_DEPTH_MAX);
        let root: Vec<char> = Vec::new();
        let mut v: Vec<Finding> = Vec::new();
        v.push(crate::semantic::make_finding(Code::Akb011, &root, &message));
        proof {
            assert(finding_views(v@) =~= seq![v@[0]@]);
            assert forall|x: FindingView| finding_views(v@).contains(x) <==> structural_finding(*descriptor, x) by {
                if finding_views(v@).contains(x) {
                    let k = choose|k: int| 0 <= k < finding_views(v@).len() && finding_views(v@)[k] == x;
                }
                if structural_finding(*descriptor, x) {
                    assert(finding_views(v@)[0] == x);
                }
            }
        }
        v
    } else {
        schema_findings(descriptor)
    };
    let ghost schema_part = finding_views(all@);
    assert(forall|x: FindingView| schema_part.contains(x) <==> structural_finding(*descriptor, x));
    let semantic = semantic_findings(descriptor);
    let ghost semantic_part = finding_views(semantic@);
    extend(&mut all, semantic);
    let ghost strict_part: Seq<FindingView> = Seq::empty();
    if mode == Mode::Strict {
        let strict = strict_findings(descriptor);
        proof {
            strict_part = finding_views(strict@);
        }
        extend(&mut all, strict);
    }
    proof {
        let a = finding_views(all@);
        assert(a =~= schema_part + semantic_part + strict_part);
        assert forall|x: FindingView| a.contains(x) <==> validation_finding(*descriptor, mode, x) by {
            let n1 = schema_part.len() as int;
            let n2 = n1 + semantic_part.len();
            if a.contains(x) {
                let k = choose|k: int| 0 <= k < a.len() && a[k] == x;
                if k < n1 {
                    assert(schema_part[k] == x);
                } else if k < n2 {
                    assert(semantic_part[k - n1] == x);
                } else {
                    assert(strict_part[k - n2] == x);
                }
            }
            if validation_finding(*descriptor, mode, x) {
                if schema_part.contains(x) {
                    let k = choose|k: int| 0 <= k < schema_part.len() && schema_part[k] == x;
                    assert(a[k] == x);
                } else if semantic_part.contains(x) {
                    let k = choose|k: int| 0 <= k < semantic_part.len() && semantic_part[k] == x;
                    assert(a[n1 + k] == x);
                } else {
                    let k = choose|k: int| 0 <= k < strict_part.len() && strict_part[k] == x;
                    assert(a[n2 + k] == x);
                }
            }
        }
    }
    let findings = crate::result::sort_dedup_findings(all);
    ValidationResult { findings, warnings: semantic_warnings(descriptor) }
}

/// Strict and lenient validation differ only by unknown core members: the
/// lenient findings, as `validate` lists them, are a subsequence of the
/// strict ones, every strict finding missing from them is `AKB006`, no
/// lenient finding is; and both modes list the same warnings.
pub proof fn lemma_lenient_within_strict(
    d: Json,
    lenient: Seq<FindingView>,
    strict: Seq<FindingView>,
    lenient_warnings: Seq<AdvisoryView>,
    strict_warnings: Seq<AdvisoryView>,
)
    requires
        findings_strictly_sorted(lenient),
        forall|x: FindingView| lenient.contains(x) <==> validation_finding(d, Mode::Lenient, x),
        findings_strictly_sorted(strict),
        forall|x: FindingView| strict.contains(x) <==> validation_finding(d, Mode::Strict, x),
        advisories_strictly_sorted(lenient_warnings),
        forall|x: AdvisoryView| lenient_warnings.contains(x) <==> validation_warning(d, Mode::Lenient, x),
        advisories_strictly_sorted(strict_warnings),
        forall|x: AdvisoryView| strict_warnings.contains(x) <==> validation_warning(d, Mode::Strict, x),
    ensures
        crate::result::is_subsequence(lenient, strict),
        forall|k: int| 0 <= k < strict.len() && !lenient.contains(#[trigger] strict[k]) ==> strict[k].code == Code::Akb006,
        forall|k: int| 0 <= k < lenient.len() ==> (#[trigger] lenient[k]).code != Code::Akb006,
        lenient_warnings == strict_warnings,
{
    assert forall|x: FindingView| lenient.contains(x) implies strict.contains(x) by {
        lemma_strict_keeps_lenient(d, x);
    }
    crate::result::lemma_sorted_subset_subsequence(lenient, strict);
    assert forall|k: int| 0 <= k < strict.len() && !lenient.contains(#[trigger] strict[k]) implies strict[k].code
        == Code::Akb006 by {
        assert(strict.contains(strict[k]));
        lemma_strict_adds_only_unknown_members(d, strict[k]);
    }
    assert forall|k: int| 0 <= k < lenient.len() implies (#[trigger] lenient[k]).code != Code::Akb006 by {
        assert(lenient.contains(lenient[k]));
        lemma_lenient_never_unknown_member(d, lenient[k]);
    }
    crate::result::lemma_sorted_advisories_unique(lenient_warnings, strict_warnings);
}

/// Strict mode keeps every lenient finding: the lenient findings of a
/// descriptor are among its strict findings.
pub proof fn lemma_strict_keeps_lenient(d: Json, x: FindingView)
    requires
        validation_finding(d, Mode::Lenient, x),
    ensures
        validation_finding(d, Mode::Strict, x),
{
}

/// Strict mode adds nothing but unknown core members: a strict finding that
/// lenient mode does not report carries `AKB006`.
pub proof fn lemma_strict_adds_only_unknown_members(d: Json, x: FindingView)
    requires
        validation_finding(d, Mode::Strict, x),
        !validation_finding(d, Mode::Lenient, x),
    ensures
        x.code == Code::Akb006,
{
    crate::strict::lemma_strict_findings_unknown_members(d, x);
}

/// `AKB006` is strict-mode only: the lenient default never reports an unknown
/// core member.
pub proof fn lemma_lenient_never_unknown_member(d: Json, x: FindingView)
    requires
        validation_finding(d, Mode::Lenient, x),
    ensures
        x.code != Code::Akb006,
{
    if semantic_finding(d, x) {
        crate::semantic::lemma_semantic_codes(d, x);
    } else if json_depth(d) <= STRUCTURAL_DEPTH_MAX {
        crate::schema::lemma_schema_codes(DESCRIPTOR_SCHEMA@, d, x);
    }
}

/// Combined structural and opt-in content validation result.
#[derive(Debug, Clone)]
pub struct FullReport {
    /// Schema, semantic, and optional strict-profile validation result.
    pub validation: ValidationResult,
    /// Opt-in content validation result.
    pub content: ContentReport,
}

impl FullReport {
    /// Returns true when both structural validation and content checks pass.
    pub fn ok(&self) -> (ok: bool)
        ensures
            ok == (self.validation.findings@.len() == 0 && with_outcome_of(
                check_views(self.content.checks@),
                Outcome::Failed,
            ).len() == 0 && all_findings(check_views(self.content.checks@)).len() == 0),
    {
        self.validation.ok() && self.content.ok()
    }
}

} // verus!
