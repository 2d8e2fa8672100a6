//! Section content checks: a section's fetched content must match its
//! `content_hash`, and the `[cite:]` markers of Markdown content must name
//! declared sources.

use vstd::prelude::*;

use crate::citations::{citation_ids, citations_of, extract_citations, Citation};
use crate::content::{
    digest_check, effective_reference, effective_reference_of, plain_check, sri_parse, unfetched_check, warning_view,
    CheckKind, CheckView, ContentCheck, Outcome, Unfetchable,
};
use crate::json::{member, str_of, Json};
use crate::order::{chars_lt, compare_chars};
use crate::result::{pointer_of, Advisory, AdvisoryView, Finding, FindingView, Segment};
use crate::semantic::{graph_of, reference_code_in, reference_message, Graph};
use crate::shape::{normalize, EntityKind};
use crate::text::{chars_of, push_str, string_of};

verus! {

/// A content type names Markdown: ASCII case aside, it is `text/markdown`,
/// alone or followed by a space or a `;` and parameters.
pub open spec fn markdown_type(content_type: Seq<char>) -> bool {
    let l = normalize(content_type);
    &&& l.len() >= 13
    &&& l.take(13) == "text/markdown"@
    &&& (l.len() == 13 || l[13] == ';' || l[13] == ' ')
}

/// A section with members `m` holds Markdown: it has no `content_type`
/// string, or one that names Markdown.
pub open spec fn markdown_section(m: Seq<(String, Json)>) -> bool {
    match str_of(member(m, "content_type"@)) {
        Some(ct) => markdown_type(ct),
        None => true,
    }
}

/// A section's `content_hash` is a checkable SRI string.
pub open spec fn hash_checkable(m: Seq<(String, Json)>) -> bool {
    match str_of(member(m, "content_hash"@)) {
        Some(h) => sri_parse(h) is Ok,
        None => false,
    }
}

/// A section's content is fetched: it has a `content_uri`, and it is
/// Markdown, whose citations are checked, or has a checkable `content_hash`.
pub open spec fn cites_checked(m: Seq<(String, Json)>) -> bool {
    str_of(member(m, "content_uri"@)) is Some && (markdown_section(m) || hash_checkable(m))
}

/// The content fetches of the sections of `list` whose content is fetched:
/// each `content_uri` as the descriptor means it, in order.
pub open spec fn section_requests_of(d: Json, list: Seq<(int, Seq<(String, Json)>)>) -> Seq<Seq<char>>
    decreases list.len(),
{
    if list.len() == 0 {
        seq![]
    } else {
        let m = list.last().1;
        let rest = section_requests_of(d, list.drop_last());
        if cites_checked(m) {
            rest.push(effective_reference_of(d, str_of(member(m, "content_uri"@))->0))
        } else {
            rest
        }
    }
}

/// The path of section `section`'s `content_uri`.
pub open spec fn content_uri_pointer(section: int) -> Seq<char> {
    pointer_of(seq![Segment::Key("sections"), Segment::Index(section as usize), Segment::Key("content_uri")])
}

/// The path of id `id` of marker `marker` in the content of section `section`.
pub open spec fn cited_id_pointer(section: int, marker: int, id: int) -> Seq<char> {
    pointer_of(
        seq![
            Segment::Key("sections"),
            Segment::Index(section as usize),
            Segment::Key("content_uri"),
            Segment::Key("citations"),
            Segment::Index(marker as usize),
            Segment::Index(id as usize),
        ],
    )
}

/// The findings of the ids `ids` of marker `marker` of section `section`:
/// one for each that names no declared source or names a section.
pub open spec fn id_findings(d: Json, section: int, marker: int, ids: Seq<Seq<char>>) -> Seq<FindingView>
    decreases ids.len(),
{
    if ids.len() == 0 {
        seq![]
    } else {
        let k = ids.len() - 1;
        let rest = id_findings(d, section, marker, ids.drop_last());
        match reference_code_in(d, ids.last(), EntityKind::Source) {
            Some(code) => rest.push(
                FindingView {
                    code,
                    path: cited_id_pointer(section, marker, k),
                    message: reference_message(code, ids.last(), EntityKind::Source),
                },
            ),
            None => rest,
        }
    }
}

/// The findings of the markers `markers` of section `section`, marker by
/// marker.
pub open spec fn marker_findings(d: Json, section: int, markers: Seq<Seq<Seq<char>>>) -> Seq<FindingView>
    decreases markers.len(),
{
    if markers.len() == 0 {
        seq![]
    } else {
        marker_findings(d, section, markers.drop_last()) + id_findings(
            d,
            section,
            markers.len() - 1,
            markers.last(),
        )
    }
}

/// `v` with `x` inserted in order, unless it is there already.
pub open spec fn insert_sorted(v: Seq<Seq<char>>, x: Seq<char>) -> Seq<Seq<char>>
    decreases v.len(),
{
    if v.len() == 0 {
        seq![x]
    } else if v[0] == x {
        v
    } else if chars_lt(x, v[0]) {
        seq![x] + v
    } else {
        seq![v[0]] + insert_sorted(v.skip(1), x)
    }
}

/// The ids that occur more than once in `ids`, each once, sorted.
pub open spec fn sorted_duplicates(ids: Seq<Seq<char>>) -> Seq<Seq<char>>
    decreases ids.len(),
{
    if ids.len() == 0 {
        seq![]
    } else {
        let rest = sorted_duplicates(ids.drop_last());
        if ids.drop_last().contains(ids.last()) {
            insert_sorted(rest, ids.last())
        } else {
            rest
        }
    }
}

/// The warnings of the markers `markers` at `path`: one for each marker that
/// repeats an id, naming its repeated ids.
pub open spec fn marker_warnings(path: Seq<char>, markers: Seq<Seq<Seq<char>>>) -> Seq<AdvisoryView>
    decreases markers.len(),
{
    if markers.len() == 0 {
        seq![]
    } else {
        let rest = marker_warnings(path, markers.drop_last());
        let dups = sorted_duplicates(markers.last());
        if dups.len() == 0 {
            rest
        } else {
            rest.push(
                AdvisoryView {
                    path,
                    message: "duplicate citation id in marker: "@ + crate::quote::join_comma(dups),
                },
            )
        }
    }
}

/// The citation check of section `section`, given the result of its content
/// fetch: unverifiable when the fetch failed; failed when the content is not
/// UTF-8; otherwise its markers are read and it fails exactly when one of
/// their ids names no declared source or names a section.
pub open spec fn citation_check_of(d: Json, section: int, fetched: Result<Seq<u8>, Seq<char>>) -> CheckView {
    let path = content_uri_pointer(section);
    match fetched {
        Err(reason) => unfetched_check(CheckKind::Citations, path, reason),
        Ok(bytes) => if !vstd::utf8::valid_utf8(bytes) {
            crate::content::plain_check(Outcome::Failed, CheckKind::Citations, path, "invalid utf-8 in section content"@)
        } else {
            let markers = citations_of(vstd::utf8::decode_utf8(bytes));
            let findings = marker_findings(d, section, markers);
            CheckView {
                kind: CheckKind::Citations,
                path,
                outcome: if findings.len() > 0 {
                    Outcome::Failed
                } else {
                    Outcome::Verified
                },
                detail: "citation markers checked"@,
                findings,
                warnings: marker_warnings(path, markers),
            }
        },
    }
}

/// The check of the `content_hash` of section `section` with members `m`,
/// given the result of its content fetch (when it made one): none without a
/// hash string; a warning for one that cannot be checked; unverifiable
/// without a `content_uri` or when the fetch failed; the digest comparison
/// otherwise.
pub open spec fn section_hash_checks_of(
    section: int,
    m: Seq<(String, Json)>,
    fetched: Option<Result<Seq<u8>, Seq<char>>>,
) -> Seq<CheckView> {
    let path = crate::sidecar::section_member_pointer(section, "content_hash");
    match str_of(member(m, "content_hash"@)) {
        None => seq![],
        Some(h) => match sri_parse(h) {
            Err(detail) => seq![warning_view(CheckKind::ContentHash, path, detail)],
            Ok(expected) => match fetched {
                Some(Ok(payload)) => seq![digest_check(CheckKind::ContentHash, path, payload, expected)],
                Some(Err(reason)) => seq![unfetched_check(CheckKind::ContentHash, path, reason)],
                None => seq![plain_check(Outcome::Unverifiable, CheckKind::ContentHash, path, "missing content_uri"@)],
            },
        },
    }
}

/// A checkable `content_hash` (one that parses as the SRI of a SHA-256
/// digest) gets exactly one `ContentHash` check, at
/// `/sections/<i>/content_hash`, with no findings. It is unverifiable exactly
/// when the content was not fetched (no fetch was made, or it failed);
/// fetched content is verified when its SHA-256 digest is the one the hash
/// names and fails when it differs.
pub proof fn lemma_section_hash_outcome(
    section: int,
    m: Seq<(String, Json)>,
    h: Seq<char>,
    fetched: Option<Result<Seq<u8>, Seq<char>>>,
)
    requires
        str_of(member(m, "content_hash"@)) == Some(h),
        sri_parse(h) is Ok,
    ensures
        section_hash_checks_of(section, m, fetched).len() == 1,
        section_hash_checks_of(section, m, fetched)[0].kind == CheckKind::ContentHash,
        section_hash_checks_of(section, m, fetched)[0].path == crate::sidecar::section_member_pointer(
            section,
            "content_hash",
        ),
        section_hash_checks_of(section, m, fetched)[0].findings.len() == 0,
        (section_hash_checks_of(section, m, fetched)[0].outcome == Outcome::Unverifiable) <==> !(fetched is Some
            && fetched->Some_0 is Ok),
        fetched is Some && fetched->Some_0 is Ok ==> {
            &&& (section_hash_checks_of(section, m, fetched)[0].outcome == Outcome::Verified) <==> crate::content::sha256_digest(
                fetched->Some_0->Ok_0,
            ) == sri_parse(h)->Ok_0
            &&& (section_hash_checks_of(section, m, fetched)[0].outcome == Outcome::Failed) <==> crate::content::sha256_digest(
                fetched->Some_0->Ok_0,
            ) != sri_parse(h)->Ok_0
        },
{
}

/// The content checks of the sections of `list`, each section whose content
/// is fetched taking the next of `results` in order: its `content_hash`
/// check, then, for Markdown, its citation check.
pub open spec fn citation_checks_of(
    d: Json,
    list: Seq<(int, Seq<(String, Json)>)>,
    results: Seq<Result<Seq<u8>, Seq<char>>>,
) -> Seq<CheckView>
    decreases list.len(),
{
    if list.len() == 0 {
        seq![]
    } else {
        let (i, m) = list.last();
        if cites_checked(m) {
            citation_checks_of(d, list.drop_last(), results.drop_last()) + section_hash_checks_of(
                i,
                m,
                Some(results.last()),
            ) + if markdown_section(m) {
                seq![citation_check_of(d, i, results.last())]
            } else {
                seq![]
            }
        } else {
            citation_checks_of(d, list.drop_last(), results) + section_hash_checks_of(i, m, None)
        }
    }
}

/// Each section of `list` is checked against its own content: a section
/// whose content is fetched takes the result at its position among the
/// section requests, for its `content_hash` check and, for Markdown, its
/// citation check; any other gets its `content_hash` check without a fetch.
pub proof fn lemma_citation_checks_aligned(
    d: Json,
    list: Seq<(int, Seq<(String, Json)>)>,
    results: Seq<Result<Seq<u8>, Seq<char>>>,
    n: int,
)
    requires
        results.len() == section_requests_of(d, list).len(),
        0 <= n < list.len(),
    ensures
        cites_checked(list[n].1) ==> section_requests_of(d, list.take(n)).len() < results.len(),
        cites_checked(list[n].1) ==> forall|t: int|
            0 <= t < section_hash_checks_of(
                list[n].0,
                list[n].1,
                Some(results[section_requests_of(d, list.take(n)).len() as int]),
            ).len() ==> citation_checks_of(d, list, results).contains(
                #[trigger] section_hash_checks_of(
                    list[n].0,
                    list[n].1,
                    Some(results[section_requests_of(d, list.take(n)).len() as int]),
                )[t],
            ),
        !cites_checked(list[n].1) ==> forall|t: int|
            0 <= t < section_hash_checks_of(list[n].0, list[n].1, None).len() ==> citation_checks_of(
                d,
                list,
                results,
            ).contains(#[trigger] section_hash_checks_of(list[n].0, list[n].1, None)[t]),
        cites_checked(list[n].1) && markdown_section(list[n].1) ==> citation_checks_of(d, list, results).contains(
            citation_check_of(d, list[n].0, results[section_requests_of(d, list.take(n)).len() as int]),
        ),
    decreases list.len(),
{
    let last = list.len() - 1;
    let k = section_requests_of(d, list.take(n)).len() as int;
    let (i, m) = list[n];
    let fetched = if cites_checked(m) {
        Some(results[k])
    } else {
        None
    };
    let h = section_hash_checks_of(i, m, fetched);
    let r = citation_checks_of(d, list, results);
    assert(list.take(last) =~= list.drop_last());
    if n == last {
        if cites_checked(m) {
            let prev = citation_checks_of(d, list.drop_last(), results.drop_last());
            let c = if markdown_section(m) {
                seq![citation_check_of(d, i, results.last())]
            } else {
                seq![]
            };
            assert(r == prev + h + c);
            assert forall|t: int| 0 <= t < h.len() implies r.contains(#[trigger] h[t]) by {
                assert(r[prev.len() + t] == h[t]);
            }
            if markdown_section(m) {
                assert(r[(prev.len() + h.len()) as int] == citation_check_of(d, i, results.last()));
            }
        } else {
            let prev = citation_checks_of(d, list.drop_last(), results);
            assert(r == prev + h);
            assert forall|t: int| 0 <= t < h.len() implies r.contains(#[trigger] h[t]) by {
                assert(r[prev.len() + t] == h[t]);
            }
        }
    } else {
        assert(list.drop_last().take(n) =~= list.take(n));
        assert(list.drop_last()[n] == list[n]);
        let rs = if cites_checked(list.last().1) {
            results.drop_last()
        } else {
            results
        };
        lemma_citation_checks_aligned(d, list.drop_last(), rs, n);
        let prev = citation_checks_of(d, list.drop_last(), rs);
        if cites_checked(m) {
            assert(rs[k] == results[k]);
        }
        assert forall|t: int| 0 <= t < h.len() implies r.contains(#[trigger] h[t]) by {
            assert(prev.contains(h[t]));
            let u = choose|u: int| 0 <= u < prev.len() && prev[u] == h[t];
            assert(r[u] == h[t]);
        }
        if cites_checked(m) && markdown_section(m) {
            let x = citation_check_of(d, i, results[k]);
            let u = choose|u: int| 0 <= u < prev.len() && prev[u] == x;
            assert(r[u] == x);
        }
    }
}

// ---------------------------------------------------------------------------
// Running the citation checks

/// Reads `bytes` as UTF-8 text with `std::str::from_utf8`, which the standard
/// library documents as succeeding exactly on valid UTF-8; the text's
/// characters are then the bytes' decoding.
#[verifier::external_body]
fn utf8_text(bytes: &[u8]) -> (r: Option<&str>)
    ensures
        r is Some <==> vstd::utf8::valid_utf8(bytes@),
        r matches Some(s) ==> s@ == vstd::utf8::decode_utf8(bytes@),
{
    std::str::from_utf8(bytes).ok()
}

/// Whether a section holds Markdown; see [`markdown_section`].
fn is_markdown(section: &Vec<(String, Json)>) -> (r: bool)
    ensures
        r == markdown_section(section@),
{
    match crate::json::str_in(crate::json::member_of(section, "content_type")) {
        None => true,
        Some(ct) => {
            let l = crate::shape::normalize_id(ct);
            let word = chars_of("text/markdown");
            proof {
                reveal_strlit("text/markdown");
            }
            assert(str_of(member(section@, "content_type"@)) == Some(ct@));
            if l.len() < 13 {
                return false;
            }
            let mut k: usize = 0;
            while k < 13
                invariant
                    0 <= k <= 13,
                    13 <= l@.len(),
                    l@ == normalize(ct@),
                    str_of(member(section@, "content_type"@)) == Some(ct@),
                    word@ == "text/markdown"@,
                    word@.len() == 13,
                    forall|j: int| 0 <= j < k ==> l@[j] == word@[j],
                decreases 13 - k,
            {
                if l[k] != word[k] {
                    assert(l@.take(13)[k as int] != word@[k as int]);
                    assert(l@.take(13) != "text/markdown"@);
                    assert(!markdown_type(ct@));
                    return false;
                }
                k = k + 1;
            }
            assert(l@.take(13) =~= word@);
            l.len() == 13 || l[13] == ';' || l[13] == ' '
        },
    }
}

/// Whether a section's citations are checked; see [`cites_checked`].
pub fn cites_checked_exec(section: &Vec<(String, Json)>) -> (r: bool)
    ensures
        r == cites_checked(section@),
{
    let checkable = match crate::json::str_in(crate::json::member_of(section, "content_hash")) {
        Some(h) => crate::content::parse_sri(CheckKind::ContentHash, "", h).is_ok(),
        None => false,
    };
    crate::json::str_in(crate::json::member_of(section, "content_uri")).is_some() && (is_markdown(section)
        || checkable)
}

/// The `content_hash` checks of a section; see [`section_hash_checks_of`].
fn section_hash_checks(
    section: usize,
    m: &Vec<(String, Json)>,
    fetched: Option<&Result<Vec<u8>, Unfetchable>>,
) -> (r: Vec<ContentCheck>)
    ensures
        crate::content::check_views(r@) == section_hash_checks_of(section as int, m@, crate::content::opt_fetch(fetched)),
{
    let mut r: Vec<ContentCheck> = Vec::new();
    match crate::json::str_in(crate::json::member_of(m, "content_hash")) {
        None => {},
        Some(h) => {
            let segments = [Segment::Key("sections"), Segment::Index(section), Segment::Key("content_hash")];
            let path = crate::result::json_pointer(&segments);
            assert(segments@ =~= seq![Segment::Key("sections"), Segment::Index(section), Segment::Key("content_hash")]);
            match crate::content::parse_sri(CheckKind::ContentHash, path.as_str(), h) {
                Err(c) => {
                    r.push(c);
                },
                Ok(expected) => match fetched {
                    Some(Ok(payload)) => {
                        r.push(
                            crate::content::compare_sri(
                                CheckKind::ContentHash,
                                path.as_str(),
                                payload.as_slice(),
                                expected.as_slice(),
                            ),
                        );
                    },
                    Some(Err(error)) => {
                        r.push(crate::content::unfetched(CheckKind::ContentHash, path.as_str(), error));
                    },
                    None => {
                        r.push(
                            crate::content::check(
                                Outcome::Unverifiable,
                                CheckKind::ContentHash,
                                path.as_str(),
                                "missing content_uri",
                            ),
                        );
                    },
                },
            }
        },
    }
    assert(crate::content::check_views(r@) =~= section_hash_checks_of(
        section as int,
        m@,
        crate::content::opt_fetch(fetched),
    ));
    r
}

/// The path of section `section`'s `content_uri`.
fn content_uri_path(section: usize) -> (p: String)
    ensures
        p@ == content_uri_pointer(section as int),
{
    let segments = [Segment::Key("sections"), Segment::Index(section), Segment::Key("content_uri")];
    let p = crate::result::json_pointer(&segments);
    assert(segments@ =~= seq![Segment::Key("sections"), Segment::Index(section), Segment::Key("content_uri")]);
    p
}

/// The path of id `id` of marker `marker` in section `section`'s content.
fn cited_id_path(section: usize, marker: usize, id: usize) -> (p: Vec<char>)
    ensures
        p@ == cited_id_pointer(section as int, marker as int, id as int),
{
    let segments = [
        Segment::Key("sections"),
        Segment::Index(section),
        Segment::Key("content_uri"),
        Segment::Key("citations"),
        Segment::Index(marker),
        Segment::Index(id),
    ];
    let mut p: Vec<char> = Vec::new();
    crate::result::push_pointer(&mut p, &segments);
    assert(segments@ =~= seq![
        Segment::Key("sections"),
        Segment::Index(section),
        Segment::Key("content_uri"),
        Segment::Key("citations"),
        Segment::Index(marker),
        Segment::Index(id),
    ]);
    p
}

/// The values of a list of strings.
pub open spec fn strings_view(v: Seq<String>) -> Seq<Seq<char>> {
    v.map_values(|s: String| s@)
}

/// Appends the findings of the ids of marker `marker` of section `section`.
fn append_id_findings(
    findings: &mut Vec<Finding>,
    graph: &Graph,
    Ghost(d): Ghost<Json>,
    section: usize,
    marker: usize,
    ids: &Vec<String>,
)
    requires
        graph_of(*graph, d),
    ensures
        crate::result::finding_views(final(findings)@) == crate::result::finding_views(old(findings)@) + id_findings(
            d,
            section as int,
            marker as int,
            strings_view(ids@),
        ),
{
    let ghost start = crate::result::finding_views(findings@);
    let ghost iv = strings_view(ids@);
    let mut k: usize = 0;
    assert(iv.take(0) =~= Seq::<Seq<char>>::empty());
    while k < ids.len()
        invariant
            0 <= k <= ids@.len(),
            graph_of(*graph, d),
            iv == strings_view(ids@),
            crate::result::finding_views(findings@) == start + id_findings(d, section as int, marker as int, iv.take(k as int)),
        decreases ids@.len() - k,
    {
        assert(iv.take(k + 1).drop_last() =~= iv.take(k as int));
        assert(iv.take(k + 1).last() == ids@[k as int]@);
        let id = ids[k].as_str();
        let code = crate::shape::reference_code_id(id, EntityKind::Source, &graph.entities);
        proof {
            crate::semantic::lemma_reference_code(*graph, d, id@, EntityKind::Source);
        }
        let ghost before = crate::result::finding_views(findings@);
        match code {
            Some(code) => {
                let path = cited_id_path(section, marker, k);
                let mut message: Vec<char> = Vec::new();
                crate::semantic::push_reference_message(&mut message, code, id, EntityKind::Source);
                findings.push(crate::semantic::make_finding(code, &path, &message));
                assert(crate::result::finding_views(findings@) =~= before.push(findings@.last()@));
            },
            None => {},
        }
        k = k + 1;
    }
    assert(iv.take(ids@.len() as int) =~= iv);
}

/// `v` with `x` inserted in order; see [`insert_sorted`].
fn insert_in_order<'a>(v: &Vec<&'a str>, x: &'a str) -> (r: Vec<&'a str>)
    ensures
        crate::quote::cited_view(r@) == insert_sorted(crate::quote::cited_view(v@), x@),
{
    let ghost vv = crate::quote::cited_view(v@);
    let xc = chars_of(x);
    let mut r: Vec<&'a str> = Vec::new();
    let mut i: usize = 0;
    assert(vv.skip(0) =~= vv);
    assert(vv.take(0) =~= Seq::<Seq<char>>::empty());
    let mut stop = false;
    while i < v.len() && !stop
        invariant
            0 <= i <= v@.len(),
            vv == crate::quote::cited_view(v@),
            xc@ == x@,
            crate::quote::cited_view(r@) == vv.take(i as int),
            insert_sorted(vv, x@) == vv.take(i as int) + insert_sorted(vv.skip(i as int), x@),
            stop ==> i < v@.len() && !chars_lt(vv[i as int], x@),
        decreases v@.len() - i + (if stop { 0int } else { 1int }),
    {
        let c = compare_chars(chars_of(v[i]).as_slice(), xc.as_slice());
        if c < 0 {
            let ghost tail = vv.skip(i as int);
            assert(tail[0] == vv[i as int]);
            assert(tail.skip(1) =~= vv.skip(i + 1));
            assert(vv.take(i + 1) =~= vv.take(i as int) + seq![vv[i as int]]);
            proof {
                crate::order::lemma_chars_lt_irreflexive(x@);
            }
            r.push(v[i]);
            assert(crate::quote::cited_view(r@) =~= vv.take(i + 1));
            i = i + 1;
        } else {
            stop = true;
        }
    }
    let ghost tail = vv.skip(i as int);
    if i == v.len() {
        assert(tail =~= Seq::<Seq<char>>::empty());
        r.push(x);
        assert(crate::quote::cited_view(r@) =~= vv.take(i as int) + seq![x@]);
        assert(vv.take(i as int) =~= vv);
    } else {
        assert(tail[0] == vv[i as int]);
        let c = compare_chars(chars_of(v[i]).as_slice(), xc.as_slice());
        if c != 0 {
            r.push(x);
        }
        let ghost mid = crate::quote::cited_view(r@);
        let mut j: usize = i;
        while j < v.len()
            invariant
                i <= j <= v@.len(),
                vv == crate::quote::cited_view(v@),
                crate::quote::cited_view(r@) == mid + vv.subrange(i as int, j as int),
            decreases v@.len() - j,
        {
            let ghost before = crate::quote::cited_view(r@);
            r.push(v[j]);
            assert(crate::quote::cited_view(r@) =~= before.push(v@[j as int]@));
            assert(vv.subrange(i as int, j + 1) =~= vv.subrange(i as int, j as int).push(vv[j as int]));
            assert(crate::quote::cited_view(r@) =~= mid + vv.subrange(i as int, j + 1));
            j = j + 1;
        }
        assert(vv.subrange(i as int, v@.len() as int) =~= tail);
        if c == 0 {
            assert(crate::quote::cited_view(r@) =~= vv.take(i as int) + tail);
        } else {
            assert(crate::quote::cited_view(r@) =~= vv.take(i as int) + (seq![x@] + tail));
        }
    }
    r
}

/// Whether `ids[k]` occurs among the ids before it.
fn repeats_earlier(ids: &Vec<String>, k: usize) -> (r: bool)
    requires
        k < ids@.len(),
    ensures
        r == strings_view(ids@).take(k as int).contains(ids@[k as int]@),
{
    let ghost iv = strings_view(ids@);
    let target = chars_of(ids[k].as_str());
    let mut j: usize = 0;
    while j < k
        invariant
            0 <= j <= k < ids@.len(),
            iv == strings_view(ids@),
            target@ == ids@[k as int]@,
            forall|q: int| 0 <= q < j ==> iv[q] != target@,
        decreases k - j,
    {
        if crate::text::chars_eq(chars_of(ids[j].as_str()).as_slice(), target.as_slice()) {
            assert(iv.take(k as int)[j as int] == target@);
            return true;
        }
        j = j + 1;
    }
    proof {
        if iv.take(k as int).contains(target@) {
            let q = choose|q: int| 0 <= q < iv.take(k as int).len() && iv.take(k as int)[q] == target@;
            assert(iv[q] == target@);
        }
    }
    false
}

/// The repeated ids of a marker; see [`sorted_duplicates`].
fn duplicates_in<'a>(ids: &'a Vec<String>) -> (r: Vec<&'a str>)
    ensures
        crate::quote::cited_view(r@) == sorted_duplicates(strings_view(ids@)),
{
    let ghost iv = strings_view(ids@);
    let mut r: Vec<&'a str> = Vec::new();
    let mut k: usize = 0;
    assert(iv.take(0) =~= Seq::<Seq<char>>::empty());
    while k < ids.len()
        invariant
            0 <= k <= ids@.len(),
            iv == strings_view(ids@),
            crate::quote::cited_view(r@) == sorted_duplicates(iv.take(k as int)),
        decreases ids@.len() - k,
    {
        let ghost next = iv.take(k + 1);
        assert(next.drop_last() =~= iv.take(k as int));
        assert(next.last() == ids@[k as int]@);
        if repeats_earlier(ids, k) {
            r = insert_in_order(&r, ids[k].as_str());
        }
        k = k + 1;
    }
    assert(iv.take(ids@.len() as int) =~= iv);
    r
}

/// Appends `parts` joined by `, ` to `out`.
fn push_joined(out: &mut Vec<char>, parts: &Vec<&str>)
    ensures
        final(out)@ == old(out)@ + crate::quote::join_comma(crate::quote::cited_view(parts@)),
{
    let ghost start = out@;
    let ghost pv = crate::quote::cited_view(parts@);
    let mut i: usize = 0;
    assert(pv.take(0) =~= Seq::<Seq<char>>::empty());
    assert(start + crate::quote::join_comma(pv.take(0)) =~= start);
    while i < parts.len()
        invariant
            0 <= i <= parts@.len(),
            pv == crate::quote::cited_view(parts@),
            out@ == start + crate::quote::join_comma(pv.take(i as int)),
        decreases parts@.len() - i,
    {
        let ghost prev = pv.take(i as int);
        assert(pv.take(i + 1).drop_last() =~= prev);
        assert(pv.take(i + 1).last() == parts@[i as int]@);
        if i > 0 {
            push_str(out, ", ");
        }
        push_str(out, parts[i]);
        proof {
            if i == 0 {
                assert(pv.take(1).len() == 1);
                assert(crate::quote::join_comma(pv.take(1)) == pv.take(1)[0]);
            }
        }
        assert(out@ =~= start + crate::quote::join_comma(pv.take(i + 1)));
        i = i + 1;
    }
    assert(pv.take(parts@.len() as int) =~= pv);
}

/// The citation check of section `section`; see [`citation_check_of`].
fn citation_check(
    graph: &Graph,
    Ghost(d): Ghost<Json>,
    section: usize,
    fetched: &Result<Vec<u8>, Unfetchable>,
) -> (c: ContentCheck)
    requires
        graph_of(*graph, d),
    ensures
        c@ == citation_check_of(d, section as int, crate::content::fetch_view(*fetched)),
{
    let path = content_uri_path(section);
    match fetched {
        Err(error) => crate::content::unfetched(CheckKind::Citations, path.as_str(), error),
        Ok(bytes) => match utf8_text(bytes.as_slice()) {
            None => crate::content::check(
                Outcome::Failed,
                CheckKind::Citations,
                path.as_str(),
                "invalid utf-8 in section content",
            ),
            Some(text) => {
                let citations = extract_citations(text);
                let ghost markers = citations_of(text@);
                assert(citations@.map_values(|c: Citation| citation_ids(c)) == markers);
                let mut findings: Vec<Finding> = Vec::new();
                let mut warnings: Vec<Advisory> = Vec::new();
                let mut m: usize = 0;
                assert(markers.take(0) =~= Seq::<Seq<Seq<char>>>::empty());
                assert(crate::result::finding_views(findings@) =~= Seq::<FindingView>::empty());
                assert(crate::result::advisory_views(warnings@) =~= Seq::<AdvisoryView>::empty());
                while m < citations.len()
                    invariant
                        0 <= m <= citations@.len(),
                        graph_of(*graph, d),
                        markers == citations@.map_values(|c: Citation| citation_ids(c)),
                        crate::result::finding_views(findings@) == marker_findings(d, section as int, markers.take(m as int)),
                        crate::result::advisory_views(warnings@) == marker_warnings(path@, markers.take(m as int)),
                    decreases citations@.len() - m,
                {
                    let ghost next = markers.take(m + 1);
                    assert(next.drop_last() =~= markers.take(m as int));
                    assert(next.last() == citation_ids(citations@[m as int]));
                    assert(citation_ids(citations@[m as int]) == strings_view(citations@[m as int].ids@));
                    append_id_findings(&mut findings, graph, Ghost(d), section, m, &citations[m].ids);
                    let dups = duplicates_in(&citations[m].ids);
                    if dups.len() > 0 {
                        let mut message: Vec<char> = Vec::new();
                        push_str(&mut message, "duplicate citation id in marker: ");
                        push_joined(&mut message, &dups);
                        let ghost before = crate::result::advisory_views(warnings@);
                        warnings.push(Advisory { path: path.as_str().to_string(), message: string_of(&message) });
                        assert(crate::result::advisory_views(warnings@) =~= before.push(warnings@.last()@));
                    }
                    m = m + 1;
                }
                assert(markers.take(citations@.len() as int) =~= markers);
                let outcome = if findings.len() > 0 {
                    Outcome::Failed
                } else {
                    Outcome::Verified
                };
                ContentCheck {
                    kind: CheckKind::Citations,
                    path,
                    outcome,
                    detail: "citation markers checked".to_string(),
                    findings,
                    warnings,
                }
            },
        },
    }
}

proof fn lemma_section_requests_prefix(d: Json, list: Seq<(int, Seq<(String, Json)>)>, k: int)
    requires
        0 <= k <= list.len(),
    ensures
        section_requests_of(d, list.take(k)).len() <= section_requests_of(d, list).len(),
    decreases list.len() - k,
{
    if k < list.len() {
        lemma_section_requests_prefix(d, list, k + 1);
        assert(list.take(k + 1).drop_last() =~= list.take(k));
    } else {
        assert(list.take(k) =~= list);
    }
}

/// Appends the content fetches of a descriptor's checked sections to `r`.
pub fn push_section_requests(descriptor: &Json, r: &mut Vec<String>)
    ensures
        final(r)@.map_values(|u: String| u@) == old(r)@.map_values(|u: String| u@) + section_requests_of(
            *descriptor,
            crate::shape::listed(crate::json::get(*descriptor, "sections"@)),
        ),
{
    let ghost start = r@.map_values(|u: String| u@);
    let sections = crate::shape::indexed_objects(descriptor.get("sections"));
    let ghost l = crate::shape::listing(sections@);
    let mut i: usize = 0;
    assert(start + section_requests_of(*descriptor, l.take(0)) =~= start);
    while i < sections.len()
        invariant
            0 <= i <= sections@.len(),
            l == crate::shape::listing(sections@),
            r@.map_values(|u: String| u@) == start + section_requests_of(*descriptor, l.take(i as int)),
        decreases sections@.len() - i,
    {
        assert(l.take(i + 1).drop_last() =~= l.take(i as int));
        assert(l.take(i + 1).last() == l[i as int]);
        let section = sections[i].1;
        let ghost before = r@.map_values(|u: String| u@);
        if cites_checked_exec(section) {
            match crate::json::str_in(crate::json::member_of(section, "content_uri")) {
                Some(uri) => {
                    r.push(effective_reference(descriptor, uri));
                    assert(r@.map_values(|u: String| u@) =~= before.push(r@.last()@));
                },
                None => {},
            }
        }
        i = i + 1;
    }
    assert(l.take(sections@.len() as int) =~= l);
}

/// The citation checks of a descriptor's sections, given the results of
/// their content fetches from position `start` of `fetched` on.
pub fn citation_checks(descriptor: &Json, fetched: &Vec<Result<Vec<u8>, Unfetchable>>, start: usize) -> (r: Vec<
    ContentCheck,
>)
    requires
        start <= fetched@.len(),
        fetched@.len() - start == section_requests_of(
            *descriptor,
            crate::shape::listed(crate::json::get(*descriptor, "sections"@)),
        ).len(),
    ensures
        crate::content::check_views(r@) == citation_checks_of(
            *descriptor,
            crate::shape::listed(crate::json::get(*descriptor, "sections"@)),
            crate::content::fetch_views(fetched@).skip(start as int),
        ),
{
    let graph = Graph::from_descriptor(descriptor);
    let ghost results = crate::content::fetch_views(fetched@);
    let ghost rest = results.skip(start as int);
    let sections = crate::shape::indexed_objects(descriptor.get("sections"));
    let ghost l = crate::shape::listing(sections@);
    let mut r: Vec<ContentCheck> = Vec::new();
    let mut cursor: usize = start;
    let mut i: usize = 0;
    proof {
        lemma_section_requests_prefix(*descriptor, l, 0);
    }
    assert(section_requests_of(*descriptor, l.take(0)).len() == 0);
    assert(rest.take(0) =~= Seq::<Result<Seq<u8>, Seq<char>>>::empty());
    while i < sections.len()
        invariant
            0 <= i <= sections@.len(),
            graph_of(graph, *descriptor),
            l == crate::shape::listing(sections@),
            start <= cursor,
            results == crate::content::fetch_views(fetched@),
            rest == results.skip(start as int),
            fetched@.len() == start + section_requests_of(*descriptor, l).len(),
            cursor == start + section_requests_of(*descriptor, l.take(i as int)).len(),
            crate::content::check_views(r@) == citation_checks_of(*descriptor, l.take(i as int), rest.take(cursor - start)),
        decreases sections@.len() - i,
    {
        assert(l.take(i + 1).drop_last() =~= l.take(i as int));
        assert(l.take(i + 1).last() == l[i as int]);
        let (index, section) = sections[i];
        proof {
            lemma_section_requests_prefix(*descriptor, l, i + 1);
        }
        let ghost before = crate::content::check_views(r@);
        if cites_checked_exec(section) {
            assert(cursor < fetched.len());
            let mut hashes = section_hash_checks(index, section, Some(&fetched[cursor]));
            let ghost hash_part = crate::content::check_views(hashes@);
            r.append(&mut hashes);
            let ghost mid = crate::content::check_views(r@);
            assert(mid =~= before + hash_part);
            if is_markdown(section) {
                let c = citation_check(&graph, Ghost(*descriptor), index, &fetched[cursor]);
                r.push(c);
                assert(crate::content::check_views(r@) =~= before + hash_part + seq![c@]);
            } else {
                assert(crate::content::check_views(r@) =~= before + hash_part + Seq::<CheckView>::empty());
            }
            assert(rest.take(cursor + 1 - start).drop_last() =~= rest.take(cursor - start));
            assert(rest.take(cursor + 1 - start).last() == crate::content::fetch_view(fetched@[cursor as int]));
            cursor = cursor + 1;
        } else {
            let mut hashes = section_hash_checks(index, section, None);
            let ghost hash_part = crate::content::check_views(hashes@);
            r.append(&mut hashes);
            assert(crate::content::check_views(r@) =~= before + hash_part);
        }
        i = i + 1;
    }
    assert(l.take(sections@.len() as int) =~= l);
    assert(rest.take(cursor - start) =~= rest);
    r
}

// ---------------------------------------------------------------------------
// Laws of the citation checks

/// When every content fetch failed, no citation check fails.
pub proof fn lemma_citations_unfetched(
    d: Json,
    list: Seq<(int, Seq<(String, Json)>)>,
    results: Seq<Result<Seq<u8>, Seq<char>>>,
)
    requires
        crate::content::all_unfetched(results),
        results.len() == section_requests_of(d, list).len(),
    ensures
        crate::content::none_failed(citation_checks_of(d, list, results)),
    decreases list.len(),
{
    if list.len() > 0 {
        let m = list.last().1;
        let i = list.last().0;
        if cites_checked(m) {
            assert(crate::content::all_unfetched(results.drop_last())) by {
                assert forall|k: int| 0 <= k < results.drop_last().len() implies (
                #[trigger] results.drop_last()[k]) is Err by {
                    assert(results.drop_last()[k] == results[k]);
                }
            }
            assert(results.last() == results[results.len() - 1]);
            lemma_citations_unfetched(d, list.drop_last(), results.drop_last());
            let a = citation_checks_of(d, list.drop_last(), results.drop_last());
            let b = section_hash_checks_of(i, m, Some(results.last())) + if markdown_section(m) {
                seq![citation_check_of(d, i, results.last())]
            } else {
                seq![]
            };
            assert forall|k: int| 0 <= k < (a + b).len() implies (#[trigger] (a + b)[k]).outcome != Outcome::Failed by {
                if k >= a.len() {
                    assert((a + b)[k] == b[k - a.len()]);
                } else {
                    assert((a + b)[k] == a[k]);
                }
            }
            assert(citation_checks_of(d, list, results) =~= a + b);
        } else {
            lemma_citations_unfetched(d, list.drop_last(), results);
            let a = citation_checks_of(d, list.drop_last(), results);
            let b = section_hash_checks_of(i, m, None);
            assert forall|k: int| 0 <= k < (a + b).len() implies (#[trigger] (a + b)[k]).outcome != Outcome::Failed by {
                if k >= a.len() {
                    assert((a + b)[k] == b[k - a.len()]);
                } else {
                    assert((a + b)[k] == a[k]);
                }
            }
        }
    }
}

/// Among the section content checks only citation checks raise findings.
pub proof fn lemma_citation_checks_kind(
    d: Json,
    list: Seq<(int, Seq<(String, Json)>)>,
    results: Seq<Result<Seq<u8>, Seq<char>>>,
)
    ensures
        forall|k: int|
            0 <= k < citation_checks_of(d, list, results).len() && (#[trigger] citation_checks_of(
                d,
                list,
                results,
            )[k]).findings.len() > 0 ==> citation_checks_of(d, list, results)[k].kind == CheckKind::Citations,
    decreases list.len(),
{
    if list.len() > 0 {
        let (i, m) = list.last();
        if cites_checked(m) {
            lemma_citation_checks_kind(d, list.drop_last(), results.drop_last());
            let a = citation_checks_of(d, list.drop_last(), results.drop_last());
            let b = section_hash_checks_of(i, m, Some(results.last())) + if markdown_section(m) {
                seq![citation_check_of(d, i, results.last())]
            } else {
                seq![]
            };
            assert forall|k: int| 0 <= k < (a + b).len() && (#[trigger] (a + b)[k]).findings.len() > 0 implies (a
                + b)[k].kind == CheckKind::Citations by {
                if k >= a.len() {
                    assert((a + b)[k] == b[k - a.len()]);
                } else {
                    assert((a + b)[k] == a[k]);
                }
            }
        } else {
            lemma_citation_checks_kind(d, list.drop_last(), results);
            let a = citation_checks_of(d, list.drop_last(), results);
            let b = section_hash_checks_of(i, m, None);
            assert forall|k: int| 0 <= k < (a + b).len() && (#[trigger] (a + b)[k]).findings.len() > 0 implies (a
                + b)[k].kind == CheckKind::Citations by {
                if k >= a.len() {
                    assert((a + b)[k] == b[k - a.len()]);
                } else {
                    assert((a + b)[k] == a[k]);
                }
            }
        }
    }
}

} // verus!
