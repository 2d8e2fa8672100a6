//! Strict-profile lint for unknown core members.

use vstd::prelude::*;

use crate::catalog::Code;
use crate::json::{member, Json};
use crate::result::{escape_key, finding_views, push_segment, Finding, FindingView, Segment};
use crate::shape::{indexed_objects, listed, listing};
use crate::text::{chars_eq, chars_of, push_chars, push_str, string_of};

verus! {

broadcast use vstd::seq_lib::group_seq_properties;

/// The core objects whose members the lint knows.
#[derive(Debug, Clone, Copy, PartialEq, Eq, Structural)]
pub enum Profile {
    /// The descriptor itself.
    Top,
    /// A `sources` item.
    Source,
    /// A `sections` item.
    Section,
    /// A `provenance` claim of a section.
    Claim,
    /// The `locator` of a claim.
    Locator,
    /// A `links` item of a section.
    Link,
}

/// The core member names of each object, as the descriptor schema declares
/// them in `properties`.
pub open spec fn known_key_list(profile: Profile) -> Seq<&'static str> {
    match profile {
        Profile::Top => seq![
            "$schema", "id", "namespace", "title", "description", "subject_type", "tags",
            "language", "guide_uri", "guide_hash", "guide_length", "revision", "base_uri",
            "created_at", "updated_at", "sources", "sections", "x",
        ],
        Profile::Source => seq![
            "id", "type", "uri", "title", "captured_at", "content_hash", "capture_uri",
            "content_length", "refresh_class", "cadence", "discovered_via_id", "x",
        ],
        Profile::Section => seq![
            "id", "parent_id", "title", "description", "purpose", "content_uri", "content_type",
            "content_hash", "content_length", "language", "source_ids", "provenance",
            "provenance_uri", "provenance_hash", "provenance_length", "links", "refreshed_at",
            "x",
        ],
        Profile::Claim => seq!["text", "source_ids", "locator", "x"],
        Profile::Locator => seq!["quote", "page", "anchor", "x"],
        Profile::Link => seq![
            "rel", "section_id", "akb_uri", "revision", "content_hash", "description", "x",
        ],
    }
}

/// `key` is a core member of `profile`.
pub open spec fn is_known(profile: Profile, key: Seq<char>) -> bool {
    exists|i: int| 0 <= i < known_key_list(profile).len() && (#[trigger] known_key_list(profile)[i])@ == key
}

/// Every core object admits the extension member `x`: the lint never flags
/// it, whatever it holds.
pub proof fn lemma_extension_member_known(profile: Profile)
    ensures
        is_known(profile, "x"@),
{
    let list = known_key_list(profile);
    assert(list[list.len() - 1]@ == "x"@);
}

/// The core member names of `profile`.
pub fn known_keys(profile: Profile) -> (keys: Vec<&'static str>)
    ensures
        keys@ == known_key_list(profile),
{
    match profile {
        Profile::Top => vec![
            "$schema", "id", "namespace", "title", "description", "subject_type", "tags",
            "language", "guide_uri", "guide_hash", "guide_length", "revision", "base_uri",
            "created_at", "updated_at", "sources", "sections", "x",
        ],
        Profile::Source => vec![
            "id", "type", "uri", "title", "captured_at", "content_hash", "capture_uri",
            "content_length", "refresh_class", "cadence", "discovered_via_id", "x",
        ],
        Profile::Section => vec![
            "id", "parent_id", "title", "description", "purpose", "content_uri", "content_type",
            "content_hash", "content_length", "language", "source_ids", "provenance",
            "provenance_uri", "provenance_hash", "provenance_length", "links", "refreshed_at",
            "x",
        ],
        Profile::Claim => vec!["text", "source_ids", "locator", "x"],
        Profile::Locator => vec!["quote", "page", "anchor", "x"],
        Profile::Link => vec![
            "rel", "section_id", "akb_uri", "revision", "content_hash", "description", "x",
        ],
    }
}

/// Whether `key` is a core member of `profile`.
fn known(profile: Profile, key: &str) -> (r: bool)
    ensures
        r == is_known(profile, key@),
{
    let keys = known_keys(profile);
    let wanted = chars_of(key);
    let mut i: usize = 0;
    while i < keys.len()
        invariant
            0 <= i <= keys@.len(),
            keys@ == known_key_list(profile),
            wanted@ == key@,
            forall|j: int| 0 <= j < i ==> (#[trigger] keys@[j])@ != key@,
        decreases keys@.len() - i,
    {
        let candidate = chars_of(keys[i]);
        if chars_eq(candidate.as_slice(), wanted.as_slice()) {
            return true;
        }
        i = i + 1;
    }
    false
}

/// What Rust's `Debug` formatting of a string gives: the string quoted, with
/// quotes, backslashes and control characters escaped.
pub uninterp spec fn debug_quoted(s: Seq<char>) -> Seq<char>;

/// The `Debug` rendering of `s`, as `format!("{s:?}")` gives it.
#[verifier::external_body]
fn debug_quote(s: &str) -> (r: String)
    ensures
        r@ == debug_quoted(s@),
{
    format!("{s:?}")
}

/// The message of an unknown core member.
pub open spec fn unknown_message(key: Seq<char>) -> Seq<char> {
    "unknown core member "@ + debug_quoted(key)
        + ": forward-minor data is tolerated by the lenient default; vendor data belongs under 'x'"@
}

/// One `AKB006` finding for each member of `members` that `profile` does not
/// know, at the member's path under `prefix`.
pub open spec fn lint_of(members: Seq<(String, Json)>, profile: Profile, prefix: Seq<char>) -> Seq<FindingView>
    decreases members.len(),
{
    if members.len() == 0 {
        seq![]
    } else {
        let rest = lint_of(members.drop_last(), profile, prefix);
        let key = members.last().0@;
        if is_known(profile, key) {
            rest
        } else {
            rest.push(
                FindingView {
                    code: Code::Akb006,
                    path: prefix + seq!['/'] + escape_key(key),
                    message: unknown_message(key),
                },
            )
        }
    }
}

/// Appends the `AKB006` findings of one object.
fn lint(
    findings: &mut Vec<Finding>,
    members: &Vec<(String, Json)>,
    profile: Profile,
    prefix: &Vec<char>,
)
    ensures
        finding_views(final(findings)@) == finding_views(old(findings)@) + lint_of(members@, profile, prefix@),
{
    let ghost start = finding_views(findings@);
    let mut i: usize = 0;
    while i < members.len()
        invariant
            0 <= i <= members@.len(),
            finding_views(findings@) == start + lint_of(members@.subrange(0, i as int), profile, prefix@),
        decreases members@.len() - i,
    {
        let ghost next = members@.subrange(0, i + 1);
        assert(next.drop_last() =~= members@.subrange(0, i as int));
        let key = members[i].0.as_str();
        if !known(profile, key) {
            let mut path: Vec<char> = Vec::new();
            push_chars(&mut path, prefix.as_slice());
            push_segment(&mut path, Segment::Key(key));
            let mut message: Vec<char> = Vec::new();
            push_str(&mut message, "unknown core member ");
            let quoted = debug_quote(key);
            push_str(&mut message, quoted.as_str());
            push_str(
                &mut message,
                ": forward-minor data is tolerated by the lenient default; vendor data belongs under 'x'",
            );
            let ghost before = findings@;
            findings.push(Finding { code: Code::Akb006, path: string_of(&path), message: string_of(&message) });
            assert(finding_views(findings@) =~= finding_views(before).push(findings@.last()@));
        }
        i = i + 1;
    }
    assert(members@.subrange(0, members@.len() as int) =~= members@);
}

/// The pointer of item `index` of array `key` under `prefix`.
pub open spec fn item_path(prefix: Seq<char>, key: &'static str, index: int) -> Seq<char> {
    prefix + seq!['/'] + escape_key(key@) + seq!['/'] + crate::text::decimal(index as nat)
}

/// The `AKB006` findings of the claims of a section at `prefix`: each claim
/// and, when it is an object, its `locator`.
pub open spec fn claims_lint(claims: Seq<(int, Seq<(String, Json)>)>, prefix: Seq<char>) -> Seq<FindingView>
    decreases claims.len(),
{
    if claims.len() == 0 {
        seq![]
    } else {
        let (j, m) = claims.last();
        let path = item_path(prefix, "provenance", j);
        let locator = match member(m, "locator"@) {
            Some(Json::Object(l)) => lint_of(l@, Profile::Locator, path + "/locator"@),
            _ => seq![],
        };
        claims_lint(claims.drop_last(), prefix) + lint_of(m, Profile::Claim, path) + locator
    }
}

/// The `AKB006` findings of the links of a section at `prefix`.
pub open spec fn links_lint(links: Seq<(int, Seq<(String, Json)>)>, prefix: Seq<char>) -> Seq<FindingView>
    decreases links.len(),
{
    if links.len() == 0 {
        seq![]
    } else {
        let (j, m) = links.last();
        links_lint(links.drop_last(), prefix) + lint_of(m, Profile::Link, item_path(prefix, "links", j))
    }
}

/// The `AKB006` findings of the sources.
pub open spec fn sources_lint(sources: Seq<(int, Seq<(String, Json)>)>) -> Seq<FindingView>
    decreases sources.len(),
{
    if sources.len() == 0 {
        seq![]
    } else {
        let (i, m) = sources.last();
        sources_lint(sources.drop_last()) + lint_of(m, Profile::Source, item_path(seq![], "sources", i))
    }
}

/// The `AKB006` findings of the sections, their claims and their links.
pub open spec fn sections_lint(sections: Seq<(int, Seq<(String, Json)>)>) -> Seq<FindingView>
    decreases sections.len(),
{
    if sections.len() == 0 {
        seq![]
    } else {
        let (i, m) = sections.last();
        let path = item_path(seq![], "sections", i);
        sections_lint(sections.drop_last()) + lint_of(m, Profile::Section, path) + claims_lint(
            listed(member(m, "provenance"@)),
            path,
        ) + links_lint(listed(member(m, "links"@)), path)
    }
}

/// The `AKB006` findings of a descriptor: unknown members of the descriptor,
/// its sources, its sections and their claims, locators and links; none for
/// a descriptor that is not an object. Members under `x` are never visited.
pub open spec fn strict_findings_of(d: Json) -> Seq<FindingView> {
    match d {
        Json::Object(members) => lint_of(members@, Profile::Top, seq![]) + sources_lint(
            listed(member(members@, "sources"@)),
        ) + sections_lint(listed(member(members@, "sections"@))),
        _ => seq![],
    }
}

/// Appends the path of item `index` of array `key` under `prefix`.
fn item_pointer(prefix: &Vec<char>, key: &'static str, index: usize) -> (p: Vec<char>)
    ensures
        p@ == item_path(prefix@, key, index as int),
{
    let mut p: Vec<char> = Vec::new();
    push_chars(&mut p, prefix.as_slice());
    push_segment(&mut p, Segment::Key(key));
    push_segment(&mut p, Segment::Index(index));
    p
}

/// Appends the findings of the claims of a section.
fn lint_claims(findings: &mut Vec<Finding>, section: &Vec<(String, Json)>, prefix: &Vec<char>)
    ensures
        finding_views(final(findings)@) == finding_views(old(findings)@) + claims_lint(
            listed(member(section@, "provenance"@)),
            prefix@,
        ),
{
    let claims = indexed_objects(crate::json::member_of(section, "provenance"));
    let ghost l = listing(claims@);
    let ghost start = finding_views(findings@);
    let mut i: usize = 0;
    while i < claims.len()
        invariant
            0 <= i <= claims@.len(),
            l == listing(claims@),
            finding_views(findings@) == start + claims_lint(l.subrange(0, i as int), prefix@),
        decreases claims@.len() - i,
    {
        let ghost next = l.subrange(0, i + 1);
        assert(next.drop_last() =~= l.subrange(0, i as int));
        assert(next.last() == l[i as int]);
        let (j, claim) = claims[i];
        let path = item_pointer(prefix, "provenance", j);
        lint(findings, claim, Profile::Claim, &path);
        match crate::json::member_of(claim, "locator") {
            Some(Json::Object(locator)) => {
                let mut locator_path = path;
                push_str(&mut locator_path, "/locator");
                lint(findings, locator, Profile::Locator, &locator_path);
            },
            _ => {},
        }
        i = i + 1;
    }
    assert(l.subrange(0, claims@.len() as int) =~= l);
}

/// Appends the findings of the links of a section.
fn lint_links(findings: &mut Vec<Finding>, section: &Vec<(String, Json)>, prefix: &Vec<char>)
    ensures
        finding_views(final(findings)@) == finding_views(old(findings)@) + links_lint(
            listed(member(section@, "links"@)),
            prefix@,
        ),
{
    let links = indexed_objects(crate::json::member_of(section, "links"));
    let ghost l = listing(links@);
    let ghost start = finding_views(findings@);
    let mut i: usize = 0;
    while i < links.len()
        invariant
            0 <= i <= links@.len(),
            l == listing(links@),
            finding_views(findings@) == start + links_lint(l.subrange(0, i as int), prefix@),
        decreases links@.len() - i,
    {
        let ghost next = l.subrange(0, i + 1);
        assert(next.drop_last() =~= l.subrange(0, i as int));
        assert(next.last() == l[i as int]);
        let (j, link) = links[i];
        let path = item_pointer(prefix, "links", j);
        lint(findings, link, Profile::Link, &path);
        i = i + 1;
    }
    assert(l.subrange(0, links@.len() as int) =~= l);
}

/// The strict-profile findings of a descriptor, sorted, each once.
pub fn strict_findings(descriptor: &Json) -> (findings: Vec<Finding>)
    ensures
        crate::result::findings_strictly_sorted(finding_views(findings@)),
        forall|x: FindingView| finding_views(findings@).contains(x) <==> strict_findings_of(*descriptor).contains(x),
{
    let mut findings: Vec<Finding> = Vec::new();
    match descriptor {
        Json::Object(members) => {
            let root: Vec<char> = Vec::new();
            assert(finding_views(findings@) =~= seq![]);
            lint(&mut findings, members, Profile::Top, &root);
            let sources = indexed_objects(crate::json::member_of(members, "sources"));
            let ghost ls = listing(sources@);
            let ghost start = finding_views(findings@);
            let mut i: usize = 0;
            while i < sources.len()
                invariant
                    0 <= i <= sources@.len(),
                    ls == listing(sources@),
                    root@ == Seq::<char>::empty(),
                    finding_views(findings@) == start + sources_lint(ls.subrange(0, i as int)),
                decreases sources@.len() - i,
            {
                let ghost next = ls.subrange(0, i + 1);
                assert(next.drop_last() =~= ls.subrange(0, i as int));
                assert(next.last() == ls[i as int]);
                let (j, source) = sources[i];
                let path = item_pointer(&root, "sources", j);
                lint(&mut findings, source, Profile::Source, &path);
                i = i + 1;
            }
            assert(ls.subrange(0, sources@.len() as int) =~= ls);
            let sections = indexed_objects(crate::json::member_of(members, "sections"));
            let ghost lc = listing(sections@);
            let ghost middle = finding_views(findings@);
            let mut k: usize = 0;
            while k < sections.len()
                invariant
                    0 <= k <= sections@.len(),
                    lc == listing(sections@),
                    root@ == Seq::<char>::empty(),
                    finding_views(findings@) == middle + sections_lint(lc.subrange(0, k as int)),
                decreases sections@.len() - k,
            {
                let ghost next = lc.subrange(0, k + 1);
                assert(next.drop_last() =~= lc.subrange(0, k as int));
                assert(next.last() == lc[k as int]);
                let (j, section) = sections[k];
                let path = item_pointer(&root, "sections", j);
                lint(&mut findings, section, Profile::Section, &path);
                lint_claims(&mut findings, section, &path);
                lint_links(&mut findings, section, &path);
                k = k + 1;
            }
            assert(lc.subrange(0, sections@.len() as int) =~= lc);
        },
        _ => {},
    }
    assert(finding_views(findings@) =~= strict_findings_of(*descriptor));
    crate::result::sort_dedup_findings(findings)
}

/// Every finding of `s` carries `AKB006`.
pub open spec fn all_unknown_member(s: Seq<FindingView>) -> bool {
    forall|i: int| 0 <= i < s.len() ==> (#[trigger] s[i]).code == Code::Akb006
}

proof fn lemma_lint_code(members: Seq<(String, Json)>, profile: Profile, prefix: Seq<char>)
    ensures
        all_unknown_member(lint_of(members, profile, prefix)),
    decreases members.len(),
{
    if members.len() > 0 {
        lemma_lint_code(members.drop_last(), profile, prefix);
    }
}

proof fn lemma_claims_code(claims: Seq<(int, Seq<(String, Json)>)>, prefix: Seq<char>)
    ensures
        all_unknown_member(claims_lint(claims, prefix)),
    decreases claims.len(),
{
    if claims.len() > 0 {
        let (j, m) = claims.last();
        let path = item_path(prefix, "provenance", j);
        lemma_claims_code(claims.drop_last(), prefix);
        lemma_lint_code(m, Profile::Claim, path);
        match member(m, "locator"@) {
            Some(Json::Object(l)) => lemma_lint_code(l@, Profile::Locator, path + "/locator"@),
            _ => {},
        }
    }
}

proof fn lemma_links_code(links: Seq<(int, Seq<(String, Json)>)>, prefix: Seq<char>)
    ensures
        all_unknown_member(links_lint(links, prefix)),
    decreases links.len(),
{
    if links.len() > 0 {
        let (j, m) = links.last();
        lemma_links_code(links.drop_last(), prefix);
        lemma_lint_code(m, Profile::Link, item_path(prefix, "links", j));
    }
}

proof fn lemma_sources_code(sources: Seq<(int, Seq<(String, Json)>)>)
    ensures
        all_unknown_member(sources_lint(sources)),
    decreases sources.len(),
{
    if sources.len() > 0 {
        let (i, m) = sources.last();
        lemma_sources_code(sources.drop_last());
        lemma_lint_code(m, Profile::Source, item_path(seq![], "sources", i));
    }
}

proof fn lemma_sections_code(sections: Seq<(int, Seq<(String, Json)>)>)
    ensures
        all_unknown_member(sections_lint(sections)),
    decreases sections.len(),
{
    if sections.len() > 0 {
        let (i, m) = sections.last();
        let path = item_path(seq![], "sections", i);
        lemma_sections_code(sections.drop_last());
        lemma_lint_code(m, Profile::Section, path);
        lemma_claims_code(listed(member(m, "provenance"@)), path);
        lemma_links_code(listed(member(m, "links"@)), path);
    }
}

/// The strict lint reports nothing but unknown core members: every finding
/// it makes carries `AKB006`.
pub proof fn lemma_strict_findings_unknown_members(d: Json, x: FindingView)
    requires
        strict_findings_of(d).contains(x),
    ensures
        x.code == Code::Akb006,
{
    match d {
        Json::Object(members) => {
            lemma_lint_code(members@, Profile::Top, seq![]);
            lemma_sources_code(listed(member(members@, "sources"@)));
            lemma_sections_code(listed(member(members@, "sections"@)));
        },
        _ => {},
    }
    let k = choose|k: int| 0 <= k < strict_findings_of(d).len() && strict_findings_of(d)[k] == x;
    assert(strict_findings_of(d)[k].code == Code::Akb006);
}

/// A member that `profile` does not know gets its finding among the lint of
/// its object.
proof fn lemma_lint_has(members: Seq<(String, Json)>, profile: Profile, prefix: Seq<char>, q: int)
    requires
        0 <= q < members.len(),
        !is_known(profile, members[q].0@),
    ensures
        lint_of(members, profile, prefix).contains(
            FindingView {
                code: Code::Akb006,
                path: prefix + seq!['/'] + escape_key(members[q].0@),
                message: unknown_message(members[q].0@),
            },
        ),
    decreases members.len(),
{
    let r = lint_of(members, profile, prefix);
    let x = FindingView {
        code: Code::Akb006,
        path: prefix + seq!['/'] + escape_key(members[q].0@),
        message: unknown_message(members[q].0@),
    };
    if q == members.len() - 1 {
        assert(r[r.len() - 1] == x);
    } else {
        let rest = lint_of(members.drop_last(), profile, prefix);
        lemma_lint_has(members.drop_last(), profile, prefix, q);
        let t = choose|t: int| 0 <= t < rest.len() && rest[t] == x;
        assert(r[t] == x);
    }
}

/// The lint of every listed source is part of the lint of the sources.
proof fn lemma_sources_lint_has(sources: Seq<(int, Seq<(String, Json)>)>, n: int, x: FindingView)
    requires
        0 <= n < sources.len(),
        lint_of(sources[n].1, Profile::Source, item_path(seq![], "sources", sources[n].0)).contains(x),
    ensures
        sources_lint(sources).contains(x),
    decreases sources.len(),
{
    let r = sources_lint(sources);
    let prev = sources_lint(sources.drop_last());
    if n == sources.len() - 1 {
        let own = lint_of(sources[n].1, Profile::Source, item_path(seq![], "sources", sources[n].0));
        assert(r == prev + own);
        let t = choose|t: int| 0 <= t < own.len() && own[t] == x;
        assert(r[prev.len() + t] == x);
    } else {
        lemma_sources_lint_has(sources.drop_last(), n, x);
        let t = choose|t: int| 0 <= t < prev.len() && prev[t] == x;
        assert(r[t] == x);
    }
}

/// The lint of the members of every listed section is part of the lint of
/// the sections.
proof fn lemma_sections_lint_has(sections: Seq<(int, Seq<(String, Json)>)>, n: int, x: FindingView)
    requires
        0 <= n < sections.len(),
        (lint_of(sections[n].1, Profile::Section, item_path(seq![], "sections", sections[n].0)) + claims_lint(
            listed(member(sections[n].1, "provenance"@)),
            item_path(seq![], "sections", sections[n].0),
        ) + links_lint(
            listed(member(sections[n].1, "links"@)),
            item_path(seq![], "sections", sections[n].0),
        )).contains(x),
    ensures
        sections_lint(sections).contains(x),
    decreases sections.len(),
{
    let r = sections_lint(sections);
    let prev = sections_lint(sections.drop_last());
    if n == sections.len() - 1 {
        let (i, m) = sections[n];
        let path = item_path(seq![], "sections", i);
        let own = lint_of(m, Profile::Section, path);
        let claims = claims_lint(listed(member(m, "provenance"@)), path);
        let links = links_lint(listed(member(m, "links"@)), path);
        assert(r == prev + (own + claims + links));
        let all = own + claims + links;
        let t = choose|t: int| 0 <= t < all.len() && all[t] == x;
        assert(r[prev.len() + t] == x);
    } else {
        lemma_sections_lint_has(sections.drop_last(), n, x);
        let t = choose|t: int| 0 <= t < prev.len() && prev[t] == x;
        assert(r[t] == x);
    }
}

/// In strict mode every member of the descriptor object that is not a core
/// descriptor member is reported: `AKB006` at `/<key>`.
pub proof fn lemma_unknown_top_member_reported(d: Json, members: Vec<(String, Json)>, q: int)
    requires
        d == Json::Object(members),
        0 <= q < members@.len(),
        !is_known(Profile::Top, members@[q].0@),
    ensures
        crate::validator::validation_finding(
            d,
            crate::validator::Mode::Strict,
            FindingView {
                code: Code::Akb006,
                path: seq!['/'] + escape_key(members@[q].0@),
                message: unknown_message(members@[q].0@),
            },
        ),
{
    let x = FindingView {
        code: Code::Akb006,
        path: seq!['/'] + escape_key(members@[q].0@),
        message: unknown_message(members@[q].0@),
    };
    let top = lint_of(members@, Profile::Top, seq![]);
    lemma_lint_has(members@, Profile::Top, seq![], q);
    assert(seq![] + seq!['/'] + escape_key(members@[q].0@) == seq!['/'] + escape_key(members@[q].0@));
    let t = choose|t: int| 0 <= t < top.len() && top[t] == x;
    assert(strict_findings_of(d)[t] == x);
}

/// In strict mode every object item of `sources`, whatever its position, is
/// linted: each member key `k` of item `i` that is not a core source member
/// is reported, `AKB006` at `/sources/<i>/<k>`.
pub proof fn lemma_unknown_source_member_reported(d: Json, items: Vec<Json>, i: int, m: Vec<(String, Json)>, q: int)
    requires
        d is Object,
        crate::json::get(d, "sources"@) == Some(Json::Array(items)),
        0 <= i < items@.len(),
        items@[i] == Json::Object(m),
        0 <= q < m@.len(),
        !is_known(Profile::Source, m@[q].0@),
    ensures
        crate::validator::validation_finding(
            d,
            crate::validator::Mode::Strict,
            FindingView {
                code: Code::Akb006,
                path: item_path(seq![], "sources", i) + seq!['/'] + escape_key(m@[q].0@),
                message: unknown_message(m@[q].0@),
            },
        ),
{
    let x = FindingView {
        code: Code::Akb006,
        path: item_path(seq![], "sources", i) + seq!['/'] + escape_key(m@[q].0@),
        message: unknown_message(m@[q].0@),
    };
    let members = d->Object_0;
    let l = listed(member(members@, "sources"@));
    crate::shape::lemma_listed_objects(items);
    let n = choose|n: int| 0 <= n < l.len() && #[trigger] l[n] == (i, m@);
    lemma_lint_has(m@, Profile::Source, item_path(seq![], "sources", i), q);
    lemma_sources_lint_has(l, n, x);
    let top = lint_of(members@, Profile::Top, seq![]);
    let src = sources_lint(l);
    let t = choose|t: int| 0 <= t < src.len() && src[t] == x;
    assert(strict_findings_of(d)[top.len() + t] == x);
}

/// In strict mode every object item of `sections`, whatever its position, is
/// linted: each member key `k` of item `i` that is not a core section member
/// is reported, `AKB006` at `/sections/<i>/<k>`.
pub proof fn lemma_unknown_section_member_reported(d: Json, items: Vec<Json>, i: int, m: Vec<(String, Json)>, q: int)
    requires
        d is Object,
        crate::json::get(d, "sections"@) == Some(Json::Array(items)),
        0 <= i < items@.len(),
        items@[i] == Json::Object(m),
        0 <= q < m@.len(),
        !is_known(Profile::Section, m@[q].0@),
    ensures
        crate::validator::validation_finding(
            d,
            crate::validator::Mode::Strict,
            FindingView {
                code: Code::Akb006,
                path: item_path(seq![], "sections", i) + seq!['/'] + escape_key(m@[q].0@),
                message: unknown_message(m@[q].0@),
            },
        ),
{
    let x = FindingView {
        code: Code::Akb006,
        path: item_path(seq![], "sections", i) + seq!['/'] + escape_key(m@[q].0@),
        message: unknown_message(m@[q].0@),
    };
    let members = d->Object_0;
    let l = listed(member(members@, "sections"@));
    crate::shape::lemma_listed_objects(items);
    let n = choose|n: int| 0 <= n < l.len() && #[trigger] l[n] == (i, m@);
    lemma_lint_has(m@, Profile::Section, item_path(seq![], "sections", i), q);
    lemma_section_part_has(m@, item_path(seq![], "sections", i), x, 0);
    lemma_sections_lint_has(l, n, x);
    let top = lint_of(members@, Profile::Top, seq![]);
    let src = sources_lint(listed(member(members@, "sources"@)));
    let sec = sections_lint(l);
    let t = choose|t: int| 0 <= t < sec.len() && sec[t] == x;
    assert(strict_findings_of(d)[top.len() + src.len() + t] == x);
}

/// What the lint of one section's members, claims or links reports is part
/// of that section's lint: `part` 0 for its members, 1 for its claims, 2 for
/// its links.
proof fn lemma_section_part_has(m: Seq<(String, Json)>, path: Seq<char>, x: FindingView, part: int)
    requires
        part == 0 ==> lint_of(m, Profile::Section, path).contains(x),
        part == 1 ==> claims_lint(listed(member(m, "provenance"@)), path).contains(x),
        part == 2 ==> links_lint(listed(member(m, "links"@)), path).contains(x),
        0 <= part <= 2,
    ensures
        (lint_of(m, Profile::Section, path) + claims_lint(listed(member(m, "provenance"@)), path) + links_lint(
            listed(member(m, "links"@)),
            path,
        )).contains(x),
{
    let a = lint_of(m, Profile::Section, path);
    let b = claims_lint(listed(member(m, "provenance"@)), path);
    let c = links_lint(listed(member(m, "links"@)), path);
    let all = a + b + c;
    if part == 0 {
        let t = choose|t: int| 0 <= t < a.len() && a[t] == x;
        assert(all[t] == x);
    } else if part == 1 {
        let t = choose|t: int| 0 <= t < b.len() && b[t] == x;
        assert(all[a.len() + t] == x);
    } else {
        let t = choose|t: int| 0 <= t < c.len() && c[t] == x;
        assert(all[a.len() + b.len() + t] == x);
    }
}

/// The lint of every listed claim is part of the lint of the claims.
proof fn lemma_claims_lint_has(claims: Seq<(int, Seq<(String, Json)>)>, prefix: Seq<char>, n: int, x: FindingView)
    requires
        0 <= n < claims.len(),
        lint_of(claims[n].1, Profile::Claim, item_path(prefix, "provenance", claims[n].0)).contains(x),
    ensures
        claims_lint(claims, prefix).contains(x),
    decreases claims.len(),
{
    let r = claims_lint(claims, prefix);
    let prev = claims_lint(claims.drop_last(), prefix);
    if n == claims.len() - 1 {
        let (j, m) = claims.last();
        let path = item_path(prefix, "provenance", j);
        let own = lint_of(m, Profile::Claim, path);
        let locator = match member(m, "locator"@) {
            Some(Json::Object(l)) => lint_of(l@, Profile::Locator, path + "/locator"@),
            _ => seq![],
        };
        assert(r == prev + own + locator);
        let t = choose|t: int| 0 <= t < own.len() && own[t] == x;
        assert(r[prev.len() + t] == x);
    } else {
        lemma_claims_lint_has(claims.drop_last(), prefix, n, x);
        let t = choose|t: int| 0 <= t < prev.len() && prev[t] == x;
        assert(r[t] == x);
    }
}

/// The lint of every listed link is part of the lint of the links.
proof fn lemma_links_lint_has(links: Seq<(int, Seq<(String, Json)>)>, prefix: Seq<char>, n: int, x: FindingView)
    requires
        0 <= n < links.len(),
        lint_of(links[n].1, Profile::Link, item_path(prefix, "links", links[n].0)).contains(x),
    ensures
        links_lint(links, prefix).contains(x),
    decreases links.len(),
{
    let r = links_lint(links, prefix);
    let prev = links_lint(links.drop_last(), prefix);
    if n == links.len() - 1 {
        let own = lint_of(links[n].1, Profile::Link, item_path(prefix, "links", links[n].0));
        assert(r == prev + own);
        let t = choose|t: int| 0 <= t < own.len() && own[t] == x;
        assert(r[prev.len() + t] == x);
    } else {
        lemma_links_lint_has(links.drop_last(), prefix, n, x);
        let t = choose|t: int| 0 <= t < prev.len() && prev[t] == x;
        assert(r[t] == x);
    }
}

/// A finding of the lint of the sections is a strict finding.
proof fn lemma_sections_part_strict(d: Json, x: FindingView)
    requires
        d is Object,
        sections_lint(listed(member(d->Object_0@, "sections"@))).contains(x),
    ensures
        crate::validator::validation_finding(d, crate::validator::Mode::Strict, x),
{
    let members = d->Object_0;
    let top = lint_of(members@, Profile::Top, seq![]);
    let src = sources_lint(listed(member(members@, "sources"@)));
    let sec = sections_lint(listed(member(members@, "sections"@)));
    let t = choose|t: int| 0 <= t < sec.len() && sec[t] == x;
    assert(strict_findings_of(d)[top.len() + src.len() + t] == x);
}

/// In strict mode every object claim of every section's `provenance` is
/// linted, wherever it stands: each member key `k` of claim `j` of section
/// `i` that is not a core claim member is reported, `AKB006` at
/// `/sections/<i>/provenance/<j>/<k>`.
pub proof fn lemma_unknown_claim_member_reported(
    d: Json,
    items: Vec<Json>,
    i: int,
    m: Vec<(String, Json)>,
    claims: Vec<Json>,
    j: int,
    c: Vec<(String, Json)>,
    q: int,
)
    requires
        d is Object,
        crate::json::get(d, "sections"@) == Some(Json::Array(items)),
        0 <= i < items@.len(),
        items@[i] == Json::Object(m),
        member(m@, "provenance"@) == Some(Json::Array(claims)),
        0 <= j < claims@.len(),
        claims@[j] == Json::Object(c),
        0 <= q < c@.len(),
        !is_known(Profile::Claim, c@[q].0@),
    ensures
        crate::validator::validation_finding(
            d,
            crate::validator::Mode::Strict,
            FindingView {
                code: Code::Akb006,
                path: item_path(item_path(seq![], "sections", i), "provenance", j) + seq!['/'] + escape_key(
                    c@[q].0@,
                ),
                message: unknown_message(c@[q].0@),
            },
        ),
{
    let path = item_path(seq![], "sections", i);
    let x = FindingView {
        code: Code::Akb006,
        path: item_path(path, "provenance", j) + seq!['/'] + escape_key(c@[q].0@),
        message: unknown_message(c@[q].0@),
    };
    let l = listed(member(d->Object_0@, "sections"@));
    crate::shape::lemma_listed_objects(items);
    let n = choose|n: int| 0 <= n < l.len() && #[trigger] l[n] == (i, m@);
    let cl = listed(member(m@, "provenance"@));
    crate::shape::lemma_listed_objects(claims);
    let e = choose|e: int| 0 <= e < cl.len() && #[trigger] cl[e] == (j, c@);
    lemma_lint_has(c@, Profile::Claim, item_path(path, "provenance", j), q);
    lemma_claims_lint_has(cl, path, e, x);
    lemma_section_part_has(m@, path, x, 1);
    lemma_sections_lint_has(l, n, x);
    lemma_sections_part_strict(d, x);
}

/// In strict mode every object item of every section's `links` is linted,
/// wherever it stands: each member key `k` of link `j` of section `i` that
/// is not a core link member is reported, `AKB006` at
/// `/sections/<i>/links/<j>/<k>`.
pub proof fn lemma_unknown_link_member_reported(
    d: Json,
    items: Vec<Json>,
    i: int,
    m: Vec<(String, Json)>,
    links: Vec<Json>,
    j: int,
    k: Vec<(String, Json)>,
    q: int,
)
    requires
        d is Object,
        crate::json::get(d, "sections"@) == Some(Json::Array(items)),
        0 <= i < items@.len(),
        items@[i] == Json::Object(m),
        member(m@, "links"@) == Some(Json::Array(links)),
        0 <= j < links@.len(),
        links@[j] == Json::Object(k),
        0 <= q < k@.len(),
        !is_known(Profile::Link, k@[q].0@),
    ensures
        crate::validator::validation_finding(
            d,
            crate::validator::Mode::Strict,
            FindingView {
                code: Code::Akb006,
                path: item_path(item_path(seq![], "sections", i), "links", j) + seq!['/'] + escape_key(k@[q].0@),
                message: unknown_message(k@[q].0@),
            },
        ),
{
    let path = item_path(seq![], "sections", i);
    let x = FindingView {
        code: Code::Akb006,
        path: item_path(path, "links", j) + seq!['/'] + escape_key(k@[q].0@),
        message: unknown_message(k@[q].0@),
    };
    let l = listed(member(d->Object_0@, "sections"@));
    crate::shape::lemma_listed_objects(items);
    let n = choose|n: int| 0 <= n < l.len() && #[trigger] l[n] == (i, m@);
    let ll = listed(member(m@, "links"@));
    crate::shape::lemma_listed_objects(links);
    let e = choose|e: int| 0 <= e < ll.len() && #[trigger] ll[e] == (j, k@);
    lemma_lint_has(k@, Profile::Link, item_path(path, "links", j), q);
    lemma_links_lint_has(ll, path, e, x);
    lemma_section_part_has(m@, path, x, 2);
    lemma_sections_lint_has(l, n, x);
    lemma_sections_part_strict(d, x);
}

} // verus!
