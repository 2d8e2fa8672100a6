//! Provenance sidecar checks: a section's `provenance_uri` names a JSON
//! sidecar that must be bound to that section and cite declared sources.

use vstd::prelude::*;

use crate::catalog::{Code, STRUCTURAL_DEPTH_MAX};
use crate::content::{
    digest_check, effective_reference, effective_reference_of, plain_check, sri_parse, unfetched_check,
    warning_view, CheckKind, CheckView, ContentCheck, Outcome, Unfetchable,
};
use crate::json::{get, json_depth, member, str_of, Json};
use crate::result::{findings_strictly_sorted, pointer_of, Finding, FindingView, Segment};
use crate::semantic::{graph_of, reference_code_in, reference_message, Graph};
use crate::shape::{listed, normalize, EntityKind};

verus! {

/// A section names a provenance sidecar: it has a `provenance_uri` string.
pub open spec fn names_sidecar(m: Seq<(String, Json)>) -> bool {
    str_of(member(m, "provenance_uri"@)) is Some
}

/// The sidecar fetches of the sections of `list`: each `provenance_uri` as
/// the descriptor means it, in order.
pub open spec fn sidecar_requests_of(d: Json, list: Seq<(int, Seq<(String, Json)>)>) -> Seq<Seq<char>>
    decreases list.len(),
{
    if list.len() == 0 {
        seq![]
    } else {
        let m = list.last().1;
        let rest = sidecar_requests_of(d, list.drop_last());
        if names_sidecar(m) {
            rest.push(effective_reference_of(d, str_of(member(m, "provenance_uri"@))->0))
        } else {
            rest
        }
    }
}

/// A fetched sidecar as its bytes and its JSON value (none when the bytes
/// are not JSON), or the failure's reason.
pub open spec fn sidecar_view(r: Result<(Vec<u8>, Option<Json>), Unfetchable>) -> Result<(Seq<u8>, Option<Json>), Seq<char>> {
    match r {
        Ok((bytes, value)) => Ok((bytes@, value)),
        Err(e) => Err(e.reason@),
    }
}

/// The views of a list of fetched sidecars.
pub open spec fn sidecar_views(results: Seq<Result<(Vec<u8>, Option<Json>), Unfetchable>>) -> Seq<
    Result<(Seq<u8>, Option<Json>), Seq<char>>,
> {
    results.map_values(|r: Result<(Vec<u8>, Option<Json>), Unfetchable>| sidecar_view(r))
}

/// The path of a member of section `section`.
pub open spec fn section_member_pointer(section: int, key: &'static str) -> Seq<char> {
    pointer_of(seq![Segment::Key("sections"), Segment::Index(section as usize), Segment::Key(key)])
}

/// The path of the `section_id` of section `section`'s sidecar.
pub open spec fn bound_section_pointer(section: int) -> Seq<char> {
    pointer_of(
        seq![
            Segment::Key("sections"),
            Segment::Index(section as usize),
            Segment::Key("provenance_uri"),
            Segment::Key("section_id"),
        ],
    )
}

/// The path of id `id` of claim `claim` of section `section`'s sidecar.
pub open spec fn sidecar_source_pointer(section: int, claim: int, id: int) -> Seq<char> {
    pointer_of(
        seq![
            Segment::Key("sections"),
            Segment::Index(section as usize),
            Segment::Key("provenance_uri"),
            Segment::Key("claims"),
            Segment::Index(claim as usize),
            Segment::Key("source_ids"),
            Segment::Index(id as usize),
        ],
    )
}

/// The findings of the string ids of `items`, the `source_ids` of claim
/// `claim` of section `section`'s sidecar: one for each that names no
/// declared source or names a section.
pub open spec fn claim_id_findings(d: Json, section: int, claim: int, items: Seq<Json>) -> Seq<FindingView>
    decreases items.len(),
{
    if items.len() == 0 {
        seq![]
    } else {
        let rest = claim_id_findings(d, section, claim, items.drop_last());
        match items.last() {
            Json::Str(id) => match reference_code_in(d, id@, EntityKind::Source) {
                Some(code) => rest.push(
                    FindingView {
                        code,
                        path: sidecar_source_pointer(section, claim, items.len() - 1),
                        message: reference_message(code, id@, EntityKind::Source),
                    },
                ),
                None => rest,
            },
            _ => rest,
        }
    }
}

/// The findings of the claims of section `section`'s sidecar, claim by claim.
pub open spec fn claims_findings(d: Json, section: int, claims: Seq<(int, Seq<(String, Json)>)>) -> Seq<FindingView>
    decreases claims.len(),
{
    if claims.len() == 0 {
        seq![]
    } else {
        let (j, c) = claims.last();
        claims_findings(d, section, claims.drop_last()) + match member(c, "source_ids"@) {
            Some(Json::Array(items)) => claim_id_findings(d, section, j, items@),
            _ => seq![],
        }
    }
}

/// The findings of the sidecar object `v` of section `section`: one for a
/// `section_id` that names no declared section or names a source, then those
/// of its claims.
pub open spec fn sidecar_findings_of(d: Json, section: int, v: Json) -> Seq<FindingView> {
    (match str_of(get(v, "section_id"@)) {
        Some(sid) => match reference_code_in(d, sid, EntityKind::Section) {
            Some(code) => seq![
                FindingView {
                    code,
                    path: bound_section_pointer(section),
                    message: reference_message(code, sid, EntityKind::Section),
                },
            ],
            None => seq![],
        },
        None => seq![],
    }) + claims_findings(d, section, listed(get(v, "claims"@)))
}

/// The sidecar object `v` is bound to the section with members `m`: its
/// `section_id` is the section's id, ASCII case aside.
pub open spec fn bound_to(v: Json, m: Seq<(String, Json)>) -> bool {
    match (str_of(get(v, "section_id"@)), str_of(member(m, "id"@))) {
        (Some(sid), Some(id)) => normalize(sid) == normalize(id),
        _ => false,
    }
}

/// The provenance schema findings of the sidecar value `v`, sorted, each
/// once.
pub open spec fn sidecar_schema_findings(v: Json) -> Seq<FindingView> {
    choose|s: Seq<FindingView>|
        findings_strictly_sorted(s) && forall|x: FindingView|
            s.contains(x) <==> crate::schema::schema_finding(crate::schema::PROVENANCE_SCHEMA@, v, x)
}

/// The findings `fs` with their paths placed under `prefix`.
pub open spec fn prefixed(prefix: Seq<char>, fs: Seq<FindingView>) -> Seq<FindingView> {
    fs.map_values(|x: FindingView| FindingView { code: x.code, path: prefix + x.path, message: x.message })
}

/// The check of the sidecar of section `section` with members `m`, given its
/// fetch: unverifiable when the fetch failed; failed when it is not JSON or
/// nests deeper than `STRUCTURAL_DEPTH_MAX`; otherwise its provenance schema
/// findings, under the `provenance_uri` path, come first, and it fails when
/// there are any, when it is not an object, when it names another section,
/// or when one of its ids names nothing declared or an entity of the wrong
/// kind.
pub open spec fn sidecar_check_of(
    d: Json,
    section: int,
    m: Seq<(String, Json)>,
    fetched: Result<(Seq<u8>, Option<Json>), Seq<char>>,
) -> CheckView {
    let path = section_member_pointer(section, "provenance_uri");
    match fetched {
        Err(reason) => unfetched_check(CheckKind::Sidecar, path, reason),
        Ok((_, None)) => plain_check(Outcome::Failed, CheckKind::Sidecar, path, "provenance sidecar is not JSON"@),
        Ok((_, Some(v))) => if json_depth(v) > STRUCTURAL_DEPTH_MAX {
            plain_check(Outcome::Failed, CheckKind::Sidecar, path, "provenance sidecar nests too deeply"@)
        } else {
            let schema = prefixed(path, sidecar_schema_findings(v));
            if !(v is Object) {
                CheckView {
                    kind: CheckKind::Sidecar,
                    path,
                    outcome: Outcome::Failed,
                    detail: "provenance sidecar is not a JSON object"@,
                    findings: schema,
                    warnings: seq![],
                }
            } else {
                let findings = schema + sidecar_findings_of(d, section, v);
                CheckView {
                    kind: CheckKind::Sidecar,
                    path,
                    outcome: if findings.len() > 0 || !bound_to(v, m) {
                        Outcome::Failed
                    } else {
                        Outcome::Verified
                    },
                    detail: if bound_to(v, m) {
                        "provenance sidecar checked"@
                    } else {
                        "provenance sidecar names a different section"@
                    },
                    findings,
                    warnings: seq![],
                }
            }
        },
    }
}

/// The check of the `provenance_hash` of section `section` with members
/// `m`, given its sidecar's fetch: none without a hash string; a warning for
/// one that cannot be checked; the digest comparison of the fetched bytes.
pub open spec fn sidecar_hash_checks_of(
    section: int,
    m: Seq<(String, Json)>,
    fetched: Result<(Seq<u8>, Option<Json>), Seq<char>>,
) -> Seq<CheckView> {
    let path = section_member_pointer(section, "provenance_hash");
    match str_of(member(m, "provenance_hash"@)) {
        None => seq![],
        Some(h) => match sri_parse(h) {
            Err(detail) => seq![warning_view(CheckKind::Sidecar, path, detail)],
            Ok(expected) => match fetched {
                Ok((bytes, _)) => seq![digest_check(CheckKind::Sidecar, path, bytes, expected)],
                Err(reason) => seq![unfetched_check(CheckKind::Sidecar, path, reason)],
            },
        },
    }
}

/// The sidecar checks of the sections of `list`, each section naming a
/// sidecar taking the next of `results` in order: its hash check, then its
/// sidecar check.
pub open spec fn sidecar_checks_of(
    d: Json,
    list: Seq<(int, Seq<(String, Json)>)>,
    results: Seq<Result<(Seq<u8>, Option<Json>), Seq<char>>>,
) -> Seq<CheckView>
    decreases list.len(),
{
    if list.len() == 0 {
        seq![]
    } else {
        let (i, m) = list.last();
        if names_sidecar(m) {
            sidecar_checks_of(d, list.drop_last(), results.drop_last()) + sidecar_hash_checks_of(i, m, results.last())
                + seq![sidecar_check_of(d, i, m, results.last())]
        } else {
            sidecar_checks_of(d, list.drop_last(), results)
        }
    }
}

/// A string id of a claim's `source_ids` that does not resolve to a declared
/// source gets its finding among the claim's findings.
proof fn lemma_claim_id_findings_has(d: Json, section: int, claim: int, items: Seq<Json>, k: int, id: String, code: Code)
    requires
        0 <= k < items.len(),
        items[k] == Json::Str(id),
        reference_code_in(d, id@, EntityKind::Source) == Some(code),
    ensures
        claim_id_findings(d, section, claim, items).contains(
            FindingView {
                code,
                path: sidecar_source_pointer(section, claim, k),
                message: reference_message(code, id@, EntityKind::Source),
            },
        ),
    decreases items.len(),
{
    let r = claim_id_findings(d, section, claim, items);
    let x = FindingView {
        code,
        path: sidecar_source_pointer(section, claim, k),
        message: reference_message(code, id@, EntityKind::Source),
    };
    if k == items.len() - 1 {
        assert(r[r.len() - 1] == x);
    } else {
        let rest = claim_id_findings(d, section, claim, items.drop_last());
        lemma_claim_id_findings_has(d, section, claim, items.drop_last(), k, id, code);
        let t = choose|t: int| 0 <= t < rest.len() && rest[t] == x;
        assert(r[t] == x);
    }
}

/// The findings of every listed claim are among those of all the claims.
proof fn lemma_claims_findings_has(
    d: Json,
    section: int,
    claims: Seq<(int, Seq<(String, Json)>)>,
    n: int,
    items: Vec<Json>,
    x: FindingView,
)
    requires
        0 <= n < claims.len(),
        member(claims[n].1, "source_ids"@) == Some(Json::Array(items)),
        claim_id_findings(d, section, claims[n].0, items@).contains(x),
    ensures
        claims_findings(d, section, claims).contains(x),
    decreases claims.len(),
{
    let r = claims_findings(d, section, claims);
    let prev = claims_findings(d, section, claims.drop_last());
    if n == claims.len() - 1 {
        let own = claim_id_findings(d, section, claims[n].0, items@);
        assert(r == prev + own);
        let t = choose|t: int| 0 <= t < own.len() && own[t] == x;
        assert(r[prev.len() + t] == x);
    } else {
        lemma_claims_findings_has(d, section, claims.drop_last(), n, items, x);
        let t = choose|t: int| 0 <= t < prev.len() && prev[t] == x;
        assert(r[t] == x);
    }
}

/// Every claim of a fetched sidecar object is checked, whatever its position:
/// each string item `k` of the `source_ids` of claim `j` that names no
/// declared source, or names a section, gets its reference finding at
/// `/sections/<i>/provenance_uri/claims/<j>/source_ids/<k>`, and the sidecar
/// check fails.
pub proof fn lemma_sidecar_unresolved_claim_source(
    d: Json,
    section: int,
    m: Seq<(String, Json)>,
    bytes: Seq<u8>,
    v: Json,
    claims: Vec<Json>,
    j: int,
    c: Vec<(String, Json)>,
    items: Vec<Json>,
    k: int,
    id: String,
    code: Code,
)
    requires
        v is Object,
        json_depth(v) <= STRUCTURAL_DEPTH_MAX,
        get(v, "claims"@) == Some(Json::Array(claims)),
        0 <= j < claims@.len(),
        claims@[j] == Json::Object(c),
        member(c@, "source_ids"@) == Some(Json::Array(items)),
        0 <= k < items@.len(),
        items@[k] == Json::Str(id),
        reference_code_in(d, id@, EntityKind::Source) == Some(code),
    ensures
        sidecar_check_of(d, section, m, Ok((bytes, Some(v)))).outcome == Outcome::Failed,
        sidecar_check_of(d, section, m, Ok((bytes, Some(v)))).findings.contains(
            FindingView {
                code,
                path: sidecar_source_pointer(section, j, k),
                message: reference_message(code, id@, EntityKind::Source),
            },
        ),
{
    let x = FindingView {
        code,
        path: sidecar_source_pointer(section, j, k),
        message: reference_message(code, id@, EntityKind::Source),
    };
    let l = listed(get(v, "claims"@));
    crate::shape::lemma_listed_objects(claims);
    let n = choose|n: int| 0 <= n < l.len() && #[trigger] l[n] == (j, c@);
    lemma_claim_id_findings_has(d, section, j, items@, k, id, code);
    lemma_claims_findings_has(d, section, l, n, items, x);
    let cf = claims_findings(d, section, l);
    let path = section_member_pointer(section, "provenance_uri");
    let schema = prefixed(path, sidecar_schema_findings(v));
    let own = sidecar_findings_of(d, section, v);
    let head = own.len() - cf.len();
    let t = choose|t: int| 0 <= t < cf.len() && cf[t] == x;
    assert(own[head + t] == x);
    assert((schema + own)[schema.len() + head + t] == x);
}

// ---------------------------------------------------------------------------
// Running the sidecar checks

proof fn lemma_sidecar_requests_prefix(d: Json, list: Seq<(int, Seq<(String, Json)>)>, k: int)
    requires
        0 <= k <= list.len(),
    ensures
        sidecar_requests_of(d, list.take(k)).len() <= sidecar_requests_of(d, list).len(),
    decreases list.len() - k,
{
    if k < list.len() {
        lemma_sidecar_requests_prefix(d, list, k + 1);
        assert(list.take(k + 1).drop_last() =~= list.take(k));
    } else {
        assert(list.take(k) =~= list);
    }
}

/// Each section of `list` that names a sidecar is checked against its own
/// fetch: the result at its position among the sidecar requests.
pub proof fn lemma_sidecar_check_aligned(
    d: Json,
    list: Seq<(int, Seq<(String, Json)>)>,
    results: Seq<Result<(Seq<u8>, Option<Json>), Seq<char>>>,
    n: int,
)
    requires
        results.len() == sidecar_requests_of(d, list).len(),
        0 <= n < list.len(),
        names_sidecar(list[n].1),
    ensures
        sidecar_requests_of(d, list.take(n)).len() < results.len(),
        sidecar_checks_of(d, list, results).contains(
            sidecar_check_of(d, list[n].0, list[n].1, results[sidecar_requests_of(d, list.take(n)).len() as int]),
        ),
    decreases list.len(),
{
    let last = list.len() - 1;
    let k = sidecar_requests_of(d, list.take(n)).len() as int;
    let r = sidecar_checks_of(d, list, results);
    assert(list.take(last) =~= list.drop_last());
    if n == last {
        let (i, m) = list.last();
        let prev = sidecar_checks_of(d, list.drop_last(), results.drop_last());
        let h = sidecar_hash_checks_of(i, m, results.last());
        assert(r == prev + h + seq![sidecar_check_of(d, i, m, results.last())]);
        assert(r[r.len() - 1] == sidecar_check_of(d, i, m, results.last()));
    } else {
        assert(list.drop_last().take(n) =~= list.take(n));
        assert(list.drop_last()[n] == list[n]);
        let x = sidecar_check_of(d, list[n].0, list[n].1, results[k]);
        if names_sidecar(list.last().1) {
            lemma_sidecar_check_aligned(d, list.drop_last(), results.drop_last(), n);
            assert(results.drop_last()[k] == results[k]);
            let prev = sidecar_checks_of(d, list.drop_last(), results.drop_last());
            let t = choose|t: int| 0 <= t < prev.len() && prev[t] == x;
            assert(r[t] == x);
        } else {
            lemma_sidecar_check_aligned(d, list.drop_last(), results, n);
            let prev = sidecar_checks_of(d, list.drop_last(), results);
            let t = choose|t: int| 0 <= t < prev.len() && prev[t] == x;
            assert(r[t] == x);
        }
    }
}

/// The sidecars that the content checks of a descriptor fetch, in order.
pub fn sidecar_requests(descriptor: &Json) -> (r: Vec<String>)
    ensures
        r@.map_values(|u: String| u@) == sidecar_requests_of(*descriptor, listed(get(*descriptor, "sections"@))),
{
    let mut r: Vec<String> = Vec::new();
    let sections = crate::shape::indexed_objects(descriptor.get("sections"));
    let ghost l = crate::shape::listing(sections@);
    let mut i: usize = 0;
    assert(r@.map_values(|u: String| u@) =~= sidecar_requests_of(*descriptor, l.take(0)));
    while i < sections.len()
        invariant
            0 <= i <= sections@.len(),
            l == crate::shape::listing(sections@),
            r@.map_values(|u: String| u@) == sidecar_requests_of(*descriptor, l.take(i as int)),
        decreases sections@.len() - i,
    {
        assert(l.take(i + 1).drop_last() =~= l.take(i as int));
        assert(l.take(i + 1).last() == l[i as int]);
        let section = sections[i].1;
        let ghost before = r@.map_values(|u: String| u@);
        match crate::json::str_in(crate::json::member_of(section, "provenance_uri")) {
            Some(uri) => {
                r.push(effective_reference(descriptor, uri));
                assert(r@.map_values(|u: String| u@) =~= before.push(r@.last()@));
            },
            None => {},
        }
        i = i + 1;
    }
    assert(l.take(sections@.len() as int) =~= l);
    r
}

/// The path of member `key` of section `section`.
fn section_member_path(section: usize, key: &'static str) -> (p: String)
    ensures
        p@ == section_member_pointer(section as int, key),
{
    let segments = [Segment::Key("sections"), Segment::Index(section), Segment::Key(key)];
    let p = crate::result::json_pointer(&segments);
    assert(segments@ =~= seq![Segment::Key("sections"), Segment::Index(section), Segment::Key(key)]);
    p
}

/// The path of the `section_id` of section `section`'s sidecar.
fn bound_section_path(section: usize) -> (p: Vec<char>)
    ensures
        p@ == bound_section_pointer(section as int),
{
    let segments = [
        Segment::Key("sections"),
        Segment::Index(section),
        Segment::Key("provenance_uri"),
        Segment::Key("section_id"),
    ];
    let mut p: Vec<char> = Vec::new();
    crate::result::push_pointer(&mut p, &segments);
    assert(segments@ =~= seq![
        Segment::Key("sections"),
        Segment::Index(section),
        Segment::Key("provenance_uri"),
        Segment::Key("section_id"),
    ]);
    p
}

/// The path of id `id` of claim `claim` of section `section`'s sidecar.
fn sidecar_source_path(section: usize, claim: usize, id: usize) -> (p: Vec<char>)
    ensures
        p@ == sidecar_source_pointer(section as int, claim as int, id as int),
{
    let segments = [
        Segment::Key("sections"),
        Segment::Index(section),
        Segment::Key("provenance_uri"),
        Segment::Key("claims"),
        Segment::Index(claim),
        Segment::Key("source_ids"),
        Segment::Index(id),
    ];
    let mut p: Vec<char> = Vec::new();
    crate::result::push_pointer(&mut p, &segments);
    assert(segments@ =~= seq![
        Segment::Key("sections"),
        Segment::Index(section),
        Segment::Key("provenance_uri"),
        Segment::Key("claims"),
        Segment::Index(claim),
        Segment::Key("source_ids"),
        Segment::Index(id),
    ]);
    p
}

/// Appends the finding, if any, of reference `id` of kind `expected` at `path`.
fn push_reference_finding(
    findings: &mut Vec<Finding>,
    graph: &Graph,
    Ghost(d): Ghost<Json>,
    id: &str,
    expected: EntityKind,
    path: &Vec<char>,
)
    requires
        graph_of(*graph, d),
    ensures
        crate::result::finding_views(final(findings)@) == crate::result::finding_views(old(findings)@) + match reference_code_in(
            d,
            id@,
            expected,
        ) {
            Some(code) => seq![FindingView { code, path: path@, message: reference_message(code, id@, expected) }],
            None => seq![],
        },
{
    let ghost before = crate::result::finding_views(findings@);
    let code = crate::shape::reference_code_id(id, expected, &graph.entities);
    proof {
        crate::semantic::lemma_reference_code(*graph, d, id@, expected);
    }
    match code {
        Some(code) => {
            let mut message: Vec<char> = Vec::new();
            crate::semantic::push_reference_message(&mut message, code, id, expected);
            findings.push(crate::semantic::make_finding(code, path, &message));
            assert(crate::result::finding_views(findings@) =~= before.push(findings@.last()@));
        },
        None => {
            assert(crate::result::finding_views(findings@) =~= before);
        },
    }
}

/// Appends the findings of the `source_ids` items of a sidecar claim.
fn append_claim_id_findings(
    findings: &mut Vec<Finding>,
    graph: &Graph,
    Ghost(d): Ghost<Json>,
    section: usize,
    claim: usize,
    items: &Vec<Json>,
)
    requires
        graph_of(*graph, d),
    ensures
        crate::result::finding_views(final(findings)@) == crate::result::finding_views(old(findings)@)
            + claim_id_findings(d, section as int, claim as int, items@),
{
    let ghost start = crate::result::finding_views(findings@);
    let mut k: usize = 0;
    assert(items@.take(0) =~= Seq::<Json>::empty());
    while k < items.len()
        invariant
            0 <= k <= items@.len(),
            graph_of(*graph, d),
            crate::result::finding_views(findings@) == start + claim_id_findings(
                d,
                section as int,
                claim as int,
                items@.take(k as int),
            ),
        decreases items@.len() - k,
    {
        assert(items@.take(k + 1).drop_last() =~= items@.take(k as int));
        assert(items@.take(k + 1).last() == items@[k as int]);
        let ghost before = crate::result::finding_views(findings@);
        match &items[k] {
            Json::Str(id) => {
                let path = sidecar_source_path(section, claim, k);
                push_reference_finding(findings, graph, Ghost(d), id.as_str(), EntityKind::Source, &path);
                assert(crate::result::finding_views(findings@) =~= start + claim_id_findings(
                    d,
                    section as int,
                    claim as int,
                    items@.take(k + 1),
                ));
            },
            _ => {},
        }
        k = k + 1;
    }
    assert(items@.take(items@.len() as int) =~= items@);
}

/// The findings of section `section`'s sidecar object; see
/// [`sidecar_findings_of`].
fn sidecar_findings(graph: &Graph, Ghost(d): Ghost<Json>, section: usize, v: &Json) -> (r: Vec<Finding>)
    requires
        graph_of(*graph, d),
    ensures
        crate::result::finding_views(r@) == sidecar_findings_of(d, section as int, *v),
{
    let mut r: Vec<Finding> = Vec::new();
    assert(crate::result::finding_views(r@) =~= Seq::<FindingView>::empty());
    match crate::json::str_in(v.get("section_id")) {
        Some(sid) => {
            let path = bound_section_path(section);
            push_reference_finding(&mut r, graph, Ghost(d), sid, EntityKind::Section, &path);
        },
        None => {},
    }
    let ghost head = crate::result::finding_views(r@);
    let claims = crate::shape::indexed_objects(v.get("claims"));
    let ghost l = crate::shape::listing(claims@);
    let mut j: usize = 0;
    assert(head + claims_findings(d, section as int, l.take(0)) =~= head);
    while j < claims.len()
        invariant
            0 <= j <= claims@.len(),
            graph_of(*graph, d),
            l == crate::shape::listing(claims@),
            crate::result::finding_views(r@) == head + claims_findings(d, section as int, l.take(j as int)),
        decreases claims@.len() - j,
    {
        assert(l.take(j + 1).drop_last() =~= l.take(j as int));
        assert(l.take(j + 1).last() == l[j as int]);
        let (index, claim) = claims[j];
        match crate::json::member_of(claim, "source_ids") {
            Some(Json::Array(items)) => {
                append_claim_id_findings(&mut r, graph, Ghost(d), section, index, items);
            },
            _ => {},
        }
        assert(crate::result::finding_views(r@) =~= head + claims_findings(d, section as int, l.take(j + 1)));
        j = j + 1;
    }
    assert(l.take(claims@.len() as int) =~= l);
    r
}

/// The provenance schema findings of a sidecar value nested at most
/// `STRUCTURAL_DEPTH_MAX` deep, under `prefix`.
fn prefixed_schema_findings(prefix: &str, v: &Json) -> (r: Vec<Finding>)
    requires
        json_depth(*v) <= STRUCTURAL_DEPTH_MAX,
    ensures
        crate::result::finding_views(r@) == prefixed(prefix@, sidecar_schema_findings(*v)),
{
    let fs = crate::schema::provenance_schema_findings(v);
    proof {
        let w = crate::result::finding_views(fs@);
        let c = sidecar_schema_findings(*v);
        assert(findings_strictly_sorted(c) && forall|x: FindingView|
            c.contains(x) <==> crate::schema::schema_finding(crate::schema::PROVENANCE_SCHEMA@, *v, x));
        crate::result::lemma_sorted_findings_unique(w, c);
    }
    let ghost fv = crate::result::finding_views(fs@);
    let mut r: Vec<Finding> = Vec::new();
    let mut i: usize = 0;
    assert(crate::result::finding_views(r@) =~= prefixed(prefix@, fv.take(0)));
    while i < fs.len()
        invariant
            0 <= i <= fs@.len(),
            fv == crate::result::finding_views(fs@),
            crate::result::finding_views(r@) == prefixed(prefix@, fv.take(i as int)),
        decreases fs@.len() - i,
    {
        let mut path: Vec<char> = Vec::new();
        crate::text::push_str(&mut path, prefix);
        crate::text::push_str(&mut path, fs[i].path.as_str());
        let mut message: Vec<char> = Vec::new();
        crate::text::push_str(&mut message, fs[i].message.as_str());
        let ghost before = crate::result::finding_views(r@);
        r.push(crate::semantic::make_finding(fs[i].code, &path, &message));
        assert(crate::result::finding_views(r@) =~= before.push(r@.last()@));
        assert(fv.take(i + 1) =~= fv.take(i as int).push(fv[i as int]));
        assert(crate::result::finding_views(r@) =~= prefixed(prefix@, fv.take(i + 1)));
        i = i + 1;
    }
    assert(fv.take(fs@.len() as int) =~= fv);
    r
}

/// Whether a sidecar object is bound to a section; see [`bound_to`].
fn is_bound(v: &Json, section: &Vec<(String, Json)>) -> (r: bool)
    ensures
        r == bound_to(*v, section@),
{
    match (crate::json::str_in(v.get("section_id")), crate::json::str_in(crate::json::member_of(section, "id"))) {
        (Some(sid), Some(id)) => {
            let a = crate::shape::normalize_id(sid);
            let b = crate::shape::normalize_id(id);
            crate::text::chars_eq(a.as_slice(), b.as_slice())
        },
        _ => false,
    }
}

/// The check of a section's sidecar; see [`sidecar_check_of`].
fn sidecar_check(
    graph: &Graph,
    Ghost(d): Ghost<Json>,
    section: usize,
    m: &Vec<(String, Json)>,
    fetched: &Result<(Vec<u8>, Option<Json>), Unfetchable>,
) -> (c: ContentCheck)
    requires
        graph_of(*graph, d),
    ensures
        c@ == sidecar_check_of(d, section as int, m@, sidecar_view(*fetched)),
{
    let path = section_member_path(section, "provenance_uri");
    match fetched {
        Err(error) => crate::content::unfetched(CheckKind::Sidecar, path.as_str(), error),
        Ok((_, None)) => crate::content::check(
            Outcome::Failed,
            CheckKind::Sidecar,
            path.as_str(),
            "provenance sidecar is not JSON",
        ),
        Ok((_, Some(v))) => if crate::json::deeper_than(v, STRUCTURAL_DEPTH_MAX) {
            crate::content::check(Outcome::Failed, CheckKind::Sidecar, path.as_str(), "provenance sidecar nests too deeply")
        } else {
            let mut findings = prefixed_schema_findings(path.as_str(), v);
            match v {
            Json::Object(_) => {
                let ghost schema_part = crate::result::finding_views(findings@);
                let mut refs = sidecar_findings(graph, Ghost(d), section, v);
                let ghost ref_part = crate::result::finding_views(refs@);
                findings.append(&mut refs);
                assert(crate::result::finding_views(findings@) =~= schema_part + ref_part);
                let bound = is_bound(v, m);
                let outcome = if findings.len() > 0 || !bound {
                    Outcome::Failed
                } else {
                    Outcome::Verified
                };
                let detail = if bound {
                    "provenance sidecar checked"
                } else {
                    "provenance sidecar names a different section"
                };
                let c = ContentCheck {
                    kind: CheckKind::Sidecar,
                    path,
                    outcome,
                    detail: detail.to_string(),
                    findings,
                    warnings: Vec::new(),
                };
                assert(c@.warnings =~= seq![]);
                c
            },
            _ => {
                let c = ContentCheck {
                    kind: CheckKind::Sidecar,
                    path,
                    outcome: Outcome::Failed,
                    detail: "provenance sidecar is not a JSON object".to_string(),
                    findings,
                    warnings: Vec::new(),
                };
                assert(c@.warnings =~= seq![]);
                c
            },
            }
        },
    }
}

/// The `provenance_hash` checks of a section; see [`sidecar_hash_checks_of`].
fn sidecar_hash_checks(
    section: usize,
    m: &Vec<(String, Json)>,
    fetched: &Result<(Vec<u8>, Option<Json>), Unfetchable>,
) -> (r: Vec<ContentCheck>)
    ensures
        crate::content::check_views(r@) == sidecar_hash_checks_of(section as int, m@, sidecar_view(*fetched)),
{
    let mut r: Vec<ContentCheck> = Vec::new();
    match crate::json::str_in(crate::json::member_of(m, "provenance_hash")) {
        None => {},
        Some(h) => {
            let path = section_member_path(section, "provenance_hash");
            match crate::content::parse_sri(CheckKind::Sidecar, path.as_str(), h) {
                Err(c) => {
                    r.push(c);
                },
                Ok(expected) => match fetched {
                    Ok((bytes, _)) => {
                        r.push(
                            crate::content::compare_sri(
                                CheckKind::Sidecar,
                                path.as_str(),
                                bytes.as_slice(),
                                expected.as_slice(),
                            ),
                        );
                    },
                    Err(error) => {
                        r.push(crate::content::unfetched(CheckKind::Sidecar, path.as_str(), error));
                    },
                },
            }
        },
    }
    assert(crate::content::check_views(r@) =~= sidecar_hash_checks_of(section as int, m@, sidecar_view(*fetched)));
    r
}

/// The sidecar checks of a descriptor's sections, given their fetched
/// sidecars in the order of [`sidecar_requests`].
pub fn sidecar_checks(descriptor: &Json, sidecars: &Vec<Result<(Vec<u8>, Option<Json>), Unfetchable>>) -> (r: Vec<
    ContentCheck,
>)
    requires
        sidecars@.len() == sidecar_requests_of(*descriptor, listed(get(*descriptor, "sections"@))).len(),
    ensures
        crate::content::check_views(r@) == sidecar_checks_of(
            *descriptor,
            listed(get(*descriptor, "sections"@)),
            sidecar_views(sidecars@),
        ),
{
    let graph = Graph::from_descriptor(descriptor);
    let ghost results = sidecar_views(sidecars@);
    let sections = crate::shape::indexed_objects(descriptor.get("sections"));
    let ghost l = crate::shape::listing(sections@);
    let mut r: Vec<ContentCheck> = Vec::new();
    let mut cursor: usize = 0;
    let mut i: usize = 0;
    proof {
        lemma_sidecar_requests_prefix(*descriptor, l, 0);
    }
    assert(results.take(0) =~= Seq::<Result<(Seq<u8>, Option<Json>), Seq<char>>>::empty());
    while i < sections.len()
        invariant
            0 <= i <= sections@.len(),
            graph_of(graph, *descriptor),
            l == crate::shape::listing(sections@),
            results == sidecar_views(sidecars@),
            sidecars@.len() == sidecar_requests_of(*descriptor, l).len(),
            cursor == sidecar_requests_of(*descriptor, l.take(i as int)).len(),
            crate::content::check_views(r@) == sidecar_checks_of(*descriptor, l.take(i as int), results.take(cursor as int)),
        decreases sections@.len() - i,
    {
        assert(l.take(i + 1).drop_last() =~= l.take(i as int));
        assert(l.take(i + 1).last() == l[i as int]);
        let (index, section) = sections[i];
        proof {
            lemma_sidecar_requests_prefix(*descriptor, l, i + 1);
        }
        if crate::json::str_in(crate::json::member_of(section, "provenance_uri")).is_some() {
            assert(cursor < sidecars.len());
            let ghost before = crate::content::check_views(r@);
            let mut hashes = sidecar_hash_checks(index, section, &sidecars[cursor]);
            let ghost hash_part = crate::content::check_views(hashes@);
            r.append(&mut hashes);
            let c = sidecar_check(&graph, Ghost(*descriptor), index, section, &sidecars[cursor]);
            r.push(c);
            assert(results.take(cursor + 1).drop_last() =~= results.take(cursor as int));
            assert(results.take(cursor + 1).last() == sidecar_view(sidecars@[cursor as int]));
            assert(crate::content::check_views(r@) =~= before + hash_part + seq![c@]);
            cursor = cursor + 1;
        }
        i = i + 1;
    }
    assert(l.take(sections@.len() as int) =~= l);
    assert(results.take(cursor as int) =~= results);
    r
}

// ---------------------------------------------------------------------------
// Laws of the sidecar checks

/// When every sidecar fetch failed, no sidecar check fails.
pub proof fn lemma_sidecars_unfetched(
    d: Json,
    list: Seq<(int, Seq<(String, Json)>)>,
    results: Seq<Result<(Seq<u8>, Option<Json>), Seq<char>>>,
)
    requires
        forall|k: int| 0 <= k < results.len() ==> (#[trigger] results[k]) is Err,
        results.len() == sidecar_requests_of(d, list).len(),
    ensures
        crate::content::none_failed(sidecar_checks_of(d, list, results)),
    decreases list.len(),
{
    if list.len() > 0 {
        let m = list.last().1;
        if names_sidecar(m) {
            assert forall|k: int| 0 <= k < results.drop_last().len() implies (
            #[trigger] results.drop_last()[k]) is Err by {
                assert(results.drop_last()[k] == results[k]);
            }
            assert(results.last() == results[results.len() - 1]);
            lemma_sidecars_unfetched(d, list.drop_last(), results.drop_last());
            let a = sidecar_checks_of(d, list.drop_last(), results.drop_last());
            let b = sidecar_hash_checks_of(list.last().0, m, results.last()) + seq![
                sidecar_check_of(d, list.last().0, m, results.last()),
            ];
            assert forall|k: int| 0 <= k < (a + b).len() implies (#[trigger] (a + b)[k]).outcome != Outcome::Failed by {
                if k >= a.len() {
                    assert((a + b)[k] == b[k - a.len()]);
                } else {
                    assert((a + b)[k] == a[k]);
                }
            }
        } else {
            lemma_sidecars_unfetched(d, list.drop_last(), results);
        }
    }
}

/// Every check of a list of sidecar checks is a sidecar check.
pub proof fn lemma_sidecar_checks_kind(
    d: Json,
    list: Seq<(int, Seq<(String, Json)>)>,
    results: Seq<Result<(Seq<u8>, Option<Json>), Seq<char>>>,
)
    ensures
        forall|k: int|
            0 <= k < sidecar_checks_of(d, list, results).len() ==> (#[trigger] sidecar_checks_of(
                d,
                list,
                results,
            )[k]).kind == CheckKind::Sidecar,
    decreases list.len(),
{
    if list.len() > 0 {
        let (i, m) = list.last();
        if names_sidecar(m) {
            lemma_sidecar_checks_kind(d, list.drop_last(), results.drop_last());
            let a = sidecar_checks_of(d, list.drop_last(), results.drop_last());
            let b = sidecar_hash_checks_of(i, m, results.last()) + seq![sidecar_check_of(d, i, m, results.last())];
            assert forall|k: int| 0 <= k < (a + b).len() implies (#[trigger] (a + b)[k]).kind == CheckKind::Sidecar by {
                if k >= a.len() {
                    assert((a + b)[k] == b[k - a.len()]);
                } else {
                    assert((a + b)[k] == a[k]);
                }
            }
        } else {
            lemma_sidecar_checks_kind(d, list.drop_last(), results);
        }
    }
}

} // verus!
