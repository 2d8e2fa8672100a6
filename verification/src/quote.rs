//! Quote checks: the `locator.quote` of each inline provenance claim is
//! searched for in the fetched captures of the sources the claim cites.

use vstd::prelude::*;

use crate::citations::{find_bytes, find_from};
use crate::content::{
    capture_fetches, capture_requests_of, compare_sri, fetch_view, fetch_views, is_redacted, opt_fetch, parse_sri,
    redacted, sha256_digest, sri_parse, CheckKind, CheckView, ContentCheck, Outcome, Unfetchable,
};
use crate::json::{member, str_of, Json};
use crate::result::{pointer_of, Advisory, AdvisoryView, Segment};
use crate::shape::{id_str, kind_of_id, normalize, EntityKind};
use crate::text::{chars_of, push_chars, push_str, string_of};

verus! {

/// What a quote check knows of the capture of a cited source.
#[derive(Debug, Clone, Copy, PartialEq, Eq, Structural)]
pub enum CaptureState {
    /// Fetched, with no checkable `content_hash` that it fails.
    Usable,
    /// Fetched, but its bytes fail the source's `content_hash`.
    Distrusted,
    /// Not fetched: no `capture_uri`, a failed fetch, or no such source.
    Missing,
    /// The source is redacted.
    Redacted,
}

/// The fetched capture `payload` of a source with members `m` fails the
/// source's checkable `content_hash`.
pub open spec fn capture_distrusted(m: Seq<(String, Json)>, payload: Seq<u8>) -> bool {
    match str_of(member(m, "content_hash"@)) {
        Some(h) => match sri_parse(h) {
            Ok(expected) => sha256_digest(payload) != expected,
            Err(_) => false,
        },
        None => false,
    }
}

/// The state of the capture of a source with members `m`, given the result
/// of its capture fetch (when it made one), with the bytes of a usable one.
pub open spec fn capture_state_of(m: Seq<(String, Json)>, fetched: Option<Result<Seq<u8>, Seq<char>>>) -> (
    CaptureState,
    Seq<u8>,
) {
    if is_redacted(m) {
        (CaptureState::Redacted, seq![])
    } else {
        match fetched {
            Some(Ok(payload)) => if capture_distrusted(m, payload) {
                (CaptureState::Distrusted, seq![])
            } else {
                (CaptureState::Usable, payload)
            },
            _ => (CaptureState::Missing, seq![]),
        }
    }
}

/// The key under which a source's capture can be cited: its normalized id,
/// when that is a well-formed id that does not name a section.
pub open spec fn seed_key_of(m: Seq<(String, Json)>) -> Option<Seq<char>> {
    match id_str(member(m, "id"@)) {
        Some(s) => if kind_of_id(s) == Some(EntityKind::Section) {
            None
        } else {
            Some(normalize(s))
        },
        None => None,
    }
}

/// The captures of the sources of `list` that can be cited, in order, each
/// as its key, state and usable bytes; each fetching source takes the next of
/// `results` in order.
pub open spec fn capture_table_of(
    list: Seq<(int, Seq<(String, Json)>)>,
    results: Seq<Result<Seq<u8>, Seq<char>>>,
) -> Seq<(Seq<char>, CaptureState, Seq<u8>)>
    decreases list.len(),
{
    if list.len() == 0 {
        seq![]
    } else {
        let m = list.last().1;
        let fetches = capture_fetches(m);
        let rest = capture_table_of(
            list.drop_last(),
            if fetches {
                results.drop_last()
            } else {
                results
            },
        );
        match seed_key_of(m) {
            Some(k) => {
                let st = capture_state_of(
                    m,
                    if fetches {
                        Some(results.last())
                    } else {
                        None
                    },
                );
                rest.push((k, st.0, st.1))
            },
            None => rest,
        }
    }
}

/// The position of the first entry of `table` under `key`.
pub open spec fn first_key_index(table: Seq<(Seq<char>, CaptureState, Seq<u8>)>, key: Seq<char>) -> Option<int>
    decreases table.len(),
{
    if table.len() == 0 {
        None
    } else {
        match first_key_index(table.drop_last(), key) {
            Some(k) => Some(k),
            None => if table.last().0 == key {
                Some(table.len() - 1)
            } else {
                None
            },
        }
    }
}

/// The capture that the cited id `id` names: that of the first source whose
/// key is its normalized form; missing when there is none.
pub open spec fn cited_state(table: Seq<(Seq<char>, CaptureState, Seq<u8>)>, id: Seq<char>) -> (
    CaptureState,
    Seq<u8>,
) {
    match first_key_index(table, normalize(id)) {
        Some(k) => (table[k].1, table[k].2),
        None => (CaptureState::Missing, seq![]),
    }
}

/// `needle` stands somewhere in `hay`.
pub open spec fn holds_bytes(hay: Seq<u8>, needle: Seq<u8>) -> bool {
    find_from(hay, 0, hay.len() as int, needle) is Some
}

/// What the captures of `cited` show of the quote bytes `quote`: whether a
/// usable capture holds it, whether some capture is distrusted, whether some
/// is usable, and whether all are.
pub open spec fn scan_captures(
    table: Seq<(Seq<char>, CaptureState, Seq<u8>)>,
    cited: Seq<Seq<char>>,
    quote: Seq<u8>,
) -> (bool, bool, bool, bool)
    decreases cited.len(),
{
    if cited.len() == 0 {
        (false, false, false, true)
    } else {
        let r = scan_captures(table, cited.drop_last(), quote);
        let s = cited_state(table, cited.last());
        (
            r.0 || (s.0 == CaptureState::Usable && holds_bytes(s.1, quote)),
            r.1 || s.0 == CaptureState::Distrusted,
            r.2 || s.0 == CaptureState::Usable,
            r.3 && s.0 == CaptureState::Usable,
        )
    }
}

/// The outcome and detail of a quote check: verified when a usable capture
/// holds the quote; otherwise unverifiable when a cited capture is
/// distrusted, when none is usable, or when some is not; failed when every
/// cited capture was fetched, trusted and searched in vain.
pub open spec fn quote_outcome(scan: (bool, bool, bool, bool)) -> (Outcome, Seq<char>) {
    if scan.0 {
        (Outcome::Verified, "quote found in capture"@)
    } else if scan.1 {
        (Outcome::Unverifiable, "a cited source's capture failed its content_hash"@)
    } else if !scan.2 {
        (Outcome::Unverifiable, "no cited source capture fetched"@)
    } else if !scan.3 {
        (Outcome::Unverifiable, "some cited source captures were not fetched"@)
    } else {
        (Outcome::Failed, "quote absent from fetched captures"@)
    }
}

/// A forward search from `start` finds the needle exactly when it is not
/// empty and stands somewhere from `start` on.
proof fn lemma_find_from_some(bytes: Seq<u8>, start: int, needle: Seq<u8>)
    requires
        0 <= start,
    ensures
        (find_from(bytes, start, bytes.len() as int, needle) is Some) <==> (needle.len() > 0 && exists|s: int|
            start <= s && s + needle.len() <= bytes.len() && #[trigger] bytes.subrange(s, s + needle.len())
                == needle),
    decreases bytes.len() - start,
{
    let end = bytes.len() as int;
    if needle.len() == 0 || start + needle.len() > end {
    } else if crate::citations::starts_at(bytes, start, end, needle) {
    } else {
        lemma_find_from_some(bytes, start + 1, needle);
        if exists|s: int| start <= s && s + needle.len() <= bytes.len() && #[trigger] bytes.subrange(s, s + needle.len())
            == needle {
            let s = choose|s: int|
                start <= s && s + needle.len() <= bytes.len() && #[trigger] bytes.subrange(s, s + needle.len())
                    == needle;
            assert(s != start);
        }
    }
}

/// `holds_bytes` is plain containment: a non-empty `needle` that stands at
/// some position of `hay`.
pub proof fn lemma_holds_bytes(hay: Seq<u8>, needle: Seq<u8>)
    ensures
        holds_bytes(hay, needle) <==> (needle.len() > 0 && exists|s: int|
            0 <= s && s + needle.len() <= hay.len() && #[trigger] hay.subrange(s, s + needle.len()) == needle),
{
    lemma_find_from_some(hay, 0, needle);
}

/// What `scan_captures` reports, cited id by cited id: whether some usable
/// capture holds the quote, whether some is distrusted, whether some is
/// usable, and whether all are.
proof fn lemma_scan_captures(table: Seq<(Seq<char>, CaptureState, Seq<u8>)>, cited: Seq<Seq<char>>, quote: Seq<u8>)
    ensures
        scan_captures(table, cited, quote).0 <==> exists|k: int|
            0 <= k < cited.len() && #[trigger] cited_state(table, cited[k]).0 == CaptureState::Usable
                && holds_bytes(cited_state(table, cited[k]).1, quote),
        scan_captures(table, cited, quote).1 <==> exists|k: int|
            0 <= k < cited.len() && #[trigger] cited_state(table, cited[k]).0 == CaptureState::Distrusted,
        scan_captures(table, cited, quote).2 <==> exists|k: int|
            0 <= k < cited.len() && #[trigger] cited_state(table, cited[k]).0 == CaptureState::Usable,
        scan_captures(table, cited, quote).3 <==> forall|k: int|
            0 <= k < cited.len() ==> #[trigger] cited_state(table, cited[k]).0 == CaptureState::Usable,
    decreases cited.len(),
{
    if cited.len() > 0 {
        let prev = cited.drop_last();
        lemma_scan_captures(table, prev, quote);
        let n = cited.len() - 1;
        assert(cited.last() == cited[n]);
        assert forall|k: int| 0 <= k < n implies #[trigger] prev[k] == cited[k] by {}
        if scan_captures(table, cited, quote).3 {
            assert forall|k: int| 0 <= k < cited.len() implies #[trigger] cited_state(table, cited[k]).0
                == CaptureState::Usable by {
                if k < n {
                    assert(cited_state(table, prev[k]).0 == CaptureState::Usable);
                }
            }
        }
        if forall|k: int| 0 <= k < cited.len() ==> #[trigger] cited_state(table, cited[k]).0 == CaptureState::Usable {
            assert forall|k: int| 0 <= k < prev.len() implies #[trigger] cited_state(table, prev[k]).0
                == CaptureState::Usable by {
                assert(cited_state(table, cited[k]).0 == CaptureState::Usable);
            }
        }
        if exists|k: int|
            0 <= k < cited.len() && #[trigger] cited_state(table, cited[k]).0 == CaptureState::Usable
                && holds_bytes(cited_state(table, cited[k]).1, quote) {
            let k = choose|k: int|
                0 <= k < cited.len() && #[trigger] cited_state(table, cited[k]).0 == CaptureState::Usable
                    && holds_bytes(cited_state(table, cited[k]).1, quote);
            if k < n {
                assert(cited_state(table, prev[k]).0 == CaptureState::Usable);
            }
        }
        if exists|k: int| 0 <= k < cited.len() && #[trigger] cited_state(table, cited[k]).0 == CaptureState::Distrusted {
            let k = choose|k: int|
                0 <= k < cited.len() && #[trigger] cited_state(table, cited[k]).0 == CaptureState::Distrusted;
            if k < n {
                assert(cited_state(table, prev[k]).0 == CaptureState::Distrusted);
            }
        }
        if exists|k: int| 0 <= k < cited.len() && #[trigger] cited_state(table, cited[k]).0 == CaptureState::Usable {
            let k = choose|k: int| 0 <= k < cited.len() && #[trigger] cited_state(table, cited[k]).0 == CaptureState::Usable;
            if k < n {
                assert(cited_state(table, prev[k]).0 == CaptureState::Usable);
            }
        }
    }
}

/// A quote check is verified exactly when some cited source, wherever it
/// stands among the claim's ids, has a usable capture (fetched, not redacted,
/// not failing its `content_hash`) that holds the quote's UTF-8 bytes. It
/// fails exactly when the claim cites at least one id, every cited capture is
/// usable, and none holds the quote; otherwise it is unverifiable. It never
/// carries findings.
pub proof fn lemma_quote_check_outcome(
    table: Seq<(Seq<char>, CaptureState, Seq<u8>)>,
    path: Seq<char>,
    quote: Seq<char>,
    cited: Seq<Seq<char>>,
)
    ensures
        (quote_check_of(table, path, quote, cited).outcome == Outcome::Verified) <==> exists|k: int|
            0 <= k < cited.len() && #[trigger] cited_state(table, cited[k]).0 == CaptureState::Usable
                && holds_bytes(cited_state(table, cited[k]).1, vstd::utf8::encode_utf8(quote)),
        (quote_check_of(table, path, quote, cited).outcome == Outcome::Failed) <==> {
            &&& cited.len() > 0
            &&& forall|k: int| 0 <= k < cited.len() ==> #[trigger] cited_state(table, cited[k]).0 == CaptureState::Usable
            &&& !exists|k: int|
                0 <= k < cited.len() && #[trigger] cited_state(table, cited[k]).0 == CaptureState::Usable
                    && holds_bytes(cited_state(table, cited[k]).1, vstd::utf8::encode_utf8(quote))
        },
        quote_check_of(table, path, quote, cited).kind == CheckKind::Quote,
        quote_check_of(table, path, quote, cited).path == path,
        quote_check_of(table, path, quote, cited).findings.len() == 0,
        quote_check_of(table, path, quote, cited).outcome == Outcome::Verified ==> quote_check_of(
            table,
            path,
            quote,
            cited,
        ).detail == "quote found in capture"@,
{
    let bytes = vstd::utf8::encode_utf8(quote);
    lemma_scan_captures(table, cited, bytes);
    let s = scan_captures(table, cited, bytes);
    if cited.len() > 0 && forall|k: int| 0 <= k < cited.len() ==> #[trigger] cited_state(table, cited[k]).0
        == CaptureState::Usable {
        assert(cited_state(table, cited[0]).0 == CaptureState::Usable);
        if s.1 {
            let k = choose|k: int| 0 <= k < cited.len() && #[trigger] cited_state(table, cited[k]).0 == CaptureState::Distrusted;
            assert(cited_state(table, cited[k]).0 == CaptureState::Usable);
        }
    }
}

/// The cited ids, as written, whose source is redacted.
pub open spec fn redacted_cited(table: Seq<(Seq<char>, CaptureState, Seq<u8>)>, cited: Seq<Seq<char>>) -> Seq<
    Seq<char>,
>
    decreases cited.len(),
{
    if cited.len() == 0 {
        seq![]
    } else {
        let rest = redacted_cited(table, cited.drop_last());
        if cited_state(table, cited.last()).0 == CaptureState::Redacted {
            rest.push(cited.last())
        } else {
            rest
        }
    }
}

/// `parts` joined by `, `.
pub open spec fn join_comma(parts: Seq<Seq<char>>) -> Seq<char>
    decreases parts.len(),
{
    if parts.len() == 0 {
        seq![]
    } else if parts.len() == 1 {
        parts[0]
    } else {
        join_comma(parts.drop_last()) + ", "@ + parts.last()
    }
}

/// The quote check at `path` of the quote `quote` of a claim citing `cited`;
/// a claim citing a redacted source warns with the ids of those it cites.
pub open spec fn quote_check_of(
    table: Seq<(Seq<char>, CaptureState, Seq<u8>)>,
    path: Seq<char>,
    quote: Seq<char>,
    cited: Seq<Seq<char>>,
) -> CheckView {
    let (outcome, detail) = quote_outcome(scan_captures(table, cited, vstd::utf8::encode_utf8(quote)));
    let red = redacted_cited(table, cited);
    CheckView {
        kind: CheckKind::Quote,
        path,
        outcome,
        detail,
        findings: seq![],
        warnings: if red.len() == 0 {
            seq![]
        } else {
            seq![AdvisoryView { path, message: "quote cites redacted source(s): "@ + join_comma(red) }]
        },
    }
}

/// The quote of a claim with members `c`: its `locator.quote` string.
pub open spec fn quote_text_of(c: Seq<(String, Json)>) -> Option<Seq<char>> {
    match member(c, "locator"@) {
        Some(Json::Object(locator)) => str_of(member(locator@, "quote"@)),
        _ => None,
    }
}

/// The string items of an array, in order.
pub open spec fn strings_of(items: Seq<Json>) -> Seq<Seq<char>>
    decreases items.len(),
{
    if items.len() == 0 {
        seq![]
    } else {
        match items.last() {
            Json::Str(s) => strings_of(items.drop_last()).push(s@),
            _ => strings_of(items.drop_last()),
        }
    }
}

/// The ids a claim with members `c` cites: the strings of its `source_ids`.
pub open spec fn cited_ids_of(c: Seq<(String, Json)>) -> Seq<Seq<char>> {
    match member(c, "source_ids"@) {
        Some(Json::Array(items)) => strings_of(items@),
        _ => seq![],
    }
}

/// Where the claims of a section stand: inline under `provenance`, or in the
/// sidecar, under `provenance_uri` and then `claims`.
pub open spec fn claims_at(sidecar: bool) -> Seq<Segment<'static>> {
    if sidecar {
        seq![Segment::Key("provenance_uri"), Segment::Key("claims")]
    } else {
        seq![Segment::Key("provenance")]
    }
}

/// The path of the quote of claim `claim` of section `section`, inline or in
/// its sidecar.
pub open spec fn quote_pointer(section: int, claim: int, sidecar: bool) -> Seq<char> {
    pointer_of(
        seq![Segment::Key("sections"), Segment::Index(section as usize)] + claims_at(sidecar) + seq![
            Segment::Index(claim as usize),
            Segment::Key("locator"),
            Segment::Key("quote"),
        ],
    )
}

/// The quote checks of the claims of section `section`: one for each claim
/// with a non-empty quote that cites at least one id.
pub open spec fn claim_quote_checks_of(
    table: Seq<(Seq<char>, CaptureState, Seq<u8>)>,
    section: int,
    claims: Seq<(int, Seq<(String, Json)>)>,
    sidecar: bool,
) -> Seq<CheckView>
    decreases claims.len(),
{
    if claims.len() == 0 {
        seq![]
    } else {
        let rest = claim_quote_checks_of(table, section, claims.drop_last(), sidecar);
        let (j, c) = claims.last();
        match quote_text_of(c) {
            Some(q) => if q.len() > 0 && cited_ids_of(c).len() > 0 {
                rest.push(quote_check_of(table, quote_pointer(section, j, sidecar), q, cited_ids_of(c)))
            } else {
                rest
            },
            None => rest,
        }
    }
}

/// The quote checks of the sections of `list`, in order.
pub open spec fn quote_checks_of(
    table: Seq<(Seq<char>, CaptureState, Seq<u8>)>,
    list: Seq<(int, Seq<(String, Json)>)>,
) -> Seq<CheckView>
    decreases list.len(),
{
    if list.len() == 0 {
        seq![]
    } else {
        let (i, m) = list.last();
        quote_checks_of(table, list.drop_last()) + claim_quote_checks_of(
            table,
            i,
            crate::shape::listed(member(m, "provenance"@)),
            false,
        )
    }
}

/// Each listed claim with a non-empty quote that cites at least one id gets
/// its quote check among those of its section.
proof fn lemma_claim_quote_checks_has(
    table: Seq<(Seq<char>, CaptureState, Seq<u8>)>,
    section: int,
    claims: Seq<(int, Seq<(String, Json)>)>,
    sidecar: bool,
    n: int,
    q: Seq<char>,
)
    requires
        0 <= n < claims.len(),
        quote_text_of(claims[n].1) == Some(q),
        q.len() > 0,
        cited_ids_of(claims[n].1).len() > 0,
    ensures
        claim_quote_checks_of(table, section, claims, sidecar).contains(
            quote_check_of(table, quote_pointer(section, claims[n].0, sidecar), q, cited_ids_of(claims[n].1)),
        ),
    decreases claims.len(),
{
    let r = claim_quote_checks_of(table, section, claims, sidecar);
    let x = quote_check_of(table, quote_pointer(section, claims[n].0, sidecar), q, cited_ids_of(claims[n].1));
    if n == claims.len() - 1 {
        assert(r[r.len() - 1] == x);
    } else {
        let rest = claim_quote_checks_of(table, section, claims.drop_last(), sidecar);
        lemma_claim_quote_checks_has(table, section, claims.drop_last(), sidecar, n, q);
        let t = choose|t: int| 0 <= t < rest.len() && rest[t] == x;
        assert(r[t] == x);
    }
}

/// The quote checks of every listed section are among those of all.
proof fn lemma_quote_checks_has(
    table: Seq<(Seq<char>, CaptureState, Seq<u8>)>,
    list: Seq<(int, Seq<(String, Json)>)>,
    n: int,
    x: CheckView,
)
    requires
        0 <= n < list.len(),
        claim_quote_checks_of(table, list[n].0, crate::shape::listed(member(list[n].1, "provenance"@)), false).contains(x),
    ensures
        quote_checks_of(table, list).contains(x),
    decreases list.len(),
{
    let r = quote_checks_of(table, list);
    let prev = quote_checks_of(table, list.drop_last());
    if n == list.len() - 1 {
        let own = claim_quote_checks_of(table, list[n].0, crate::shape::listed(member(list[n].1, "provenance"@)), false);
        assert(r == prev + own);
        let t = choose|t: int| 0 <= t < own.len() && own[t] == x;
        assert(r[prev.len() + t] == x);
    } else {
        lemma_quote_checks_has(table, list.drop_last(), n, x);
        let t = choose|t: int| 0 <= t < prev.len() && prev[t] == x;
        assert(r[t] == x);
    }
}

/// Every inline claim is quote-checked, wherever it stands: claim `j` of the
/// `provenance` of section `i`, with a non-empty `locator.quote` and at least
/// one string among its `source_ids`, gets the quote check of that quote
/// against the captures of the ids it cites, at
/// `/sections/<i>/provenance/<j>/locator/quote`.
pub proof fn lemma_inline_claim_quote_checked(
    table: Seq<(Seq<char>, CaptureState, Seq<u8>)>,
    d: Json,
    sections: Vec<Json>,
    i: int,
    m: Vec<(String, Json)>,
    claims: Vec<Json>,
    j: int,
    c: Vec<(String, Json)>,
    q: Seq<char>,
)
    requires
        crate::json::get(d, "sections"@) == Some(Json::Array(sections)),
        0 <= i < sections@.len(),
        sections@[i] == Json::Object(m),
        member(m@, "provenance"@) == Some(Json::Array(claims)),
        0 <= j < claims@.len(),
        claims@[j] == Json::Object(c),
        quote_text_of(c@) == Some(q),
        q.len() > 0,
        cited_ids_of(c@).len() > 0,
    ensures
        quote_checks_of(table, crate::shape::listed(crate::json::get(d, "sections"@))).contains(
            quote_check_of(table, quote_pointer(i, j, false), q, cited_ids_of(c@)),
        ),
{
    let l = crate::shape::listed(crate::json::get(d, "sections"@));
    crate::shape::lemma_listed_objects(sections);
    let n = choose|n: int| 0 <= n < l.len() && #[trigger] l[n] == (i, m@);
    let cl = crate::shape::listed(member(m@, "provenance"@));
    crate::shape::lemma_listed_objects(claims);
    let k = choose|k: int| 0 <= k < cl.len() && #[trigger] cl[k] == (j, c@);
    lemma_claim_quote_checks_has(table, i, cl, false, k, q);
    lemma_quote_checks_has(table, l, n, quote_check_of(table, quote_pointer(i, j, false), q, cited_ids_of(c@)));
}

// ---------------------------------------------------------------------------
// Running the quote checks

/// An entry of the capture table: key, state and usable bytes.
pub open spec fn entry_view(e: (Vec<char>, CaptureState, Vec<u8>)) -> (Seq<char>, CaptureState, Seq<u8>) {
    (e.0@, e.1, e.2@)
}

/// The value of a capture table.
pub open spec fn table_view(t: Seq<(Vec<char>, CaptureState, Vec<u8>)>) -> Seq<(Seq<char>, CaptureState, Seq<u8>)> {
    t.map_values(|e: (Vec<char>, CaptureState, Vec<u8>)| entry_view(e))
}

/// A copy of `bytes`.
fn copy_bytes(bytes: &Vec<u8>) -> (r: Vec<u8>)
    ensures
        r@ == bytes@,
{
    let mut r: Vec<u8> = Vec::new();
    let mut i: usize = 0;
    while i < bytes.len()
        invariant
            0 <= i <= bytes@.len(),
            r@ == bytes@.take(i as int),
        decreases bytes@.len() - i,
    {
        r.push(bytes[i]);
        assert(bytes@.take(i + 1) =~= bytes@.take(i as int).push(bytes@[i as int]));
        i = i + 1;
    }
    assert(bytes@.take(bytes@.len() as int) =~= bytes@);
    r
}

/// The key of a source's capture; see [`seed_key_of`].
fn seed_key(source: &Vec<(String, Json)>) -> (r: Option<Vec<char>>)
    ensures
        match r {
            Some(k) => seed_key_of(source@) == Some(k@),
            None => seed_key_of(source@) is None,
        },
{
    match crate::shape::id_value(crate::json::member_of(source, "id")) {
        Some(s) => match crate::shape::id_kind(s) {
            Some(EntityKind::Section) => None,
            _ => Some(crate::shape::normalize_id(s)),
        },
        None => None,
    }
}

/// The state of a source's capture; see [`capture_state_of`].
fn capture_state(source: &Vec<(String, Json)>, fetched: Option<&Result<Vec<u8>, Unfetchable>>) -> (r: (
    CaptureState,
    Vec<u8>,
))
    ensures
        (r.0, r.1@) == capture_state_of(source@, opt_fetch(fetched)),
{
    if redacted(source) {
        return (CaptureState::Redacted, Vec::new());
    }
    match fetched {
        Some(Ok(payload)) => {
            let distrusted = match crate::json::str_in(crate::json::member_of(source, "content_hash")) {
                Some(h) => match parse_sri(CheckKind::Capture, "", h) {
                    Ok(expected) => {
                        let c = compare_sri(CheckKind::Capture, "", payload.as_slice(), expected.as_slice());
                        c.outcome == Outcome::Failed
                    },
                    Err(_) => false,
                },
                None => false,
            };
            if distrusted {
                (CaptureState::Distrusted, Vec::new())
            } else {
                (CaptureState::Usable, copy_bytes(payload))
            }
        },
        _ => (CaptureState::Missing, Vec::new()),
    }
}

/// The captures of a descriptor's sources that can be cited, given the
/// results of their capture fetches from position `base` of `fetched` on.
pub fn capture_table(descriptor: &Json, fetched: &Vec<Result<Vec<u8>, Unfetchable>>, base: usize) -> (t: Vec<
    (Vec<char>, CaptureState, Vec<u8>),
>)
    requires
        base + capture_requests_of(
            *descriptor,
            crate::shape::listed(crate::json::get(*descriptor, "sources"@)),
        ).len() <= fetched@.len(),
    ensures
        table_view(t@) == capture_table_of(
            crate::shape::listed(crate::json::get(*descriptor, "sources"@)),
            fetch_views(fetched@).skip(base as int).take(
                capture_requests_of(*descriptor, crate::shape::listed(crate::json::get(*descriptor, "sources"@))).len()
                    as int,
            ),
        ),
{
    let ghost results = fetch_views(fetched@);
    let sources = crate::shape::indexed_objects(descriptor.get("sources"));
    let ghost l = crate::shape::listing(sources@);
    let ghost rest = results.skip(base as int);
    let mut t: Vec<(Vec<char>, CaptureState, Vec<u8>)> = Vec::new();
    let mut cursor: usize = base;
    let mut i: usize = 0;
    proof {
        crate::content::lemma_capture_requests_prefix(*descriptor, l, 0);
    }
    assert(capture_requests_of(*descriptor, l.take(0)).len() == 0);
    assert(rest.take(0) =~= Seq::<Result<Seq<u8>, Seq<char>>>::empty());
    while i < sources.len()
        invariant
            0 <= i <= sources@.len(),
            l == crate::shape::listing(sources@),
            base <= cursor,
            results == fetch_views(fetched@),
            rest == results.skip(base as int),
            fetched@.len() >= base + capture_requests_of(*descriptor, l).len(),
            cursor == base + capture_requests_of(*descriptor, l.take(i as int)).len(),
            table_view(t@) == capture_table_of(l.take(i as int), rest.take(cursor - base)),
        decreases sources@.len() - i,
    {
        assert(l.take(i + 1).drop_last() =~= l.take(i as int));
        assert(l.take(i + 1).last() == l[i as int]);
        let source = sources[i].1;
        proof {
            crate::content::lemma_capture_requests_prefix(*descriptor, l, i + 1);
        }
        let fetches = !redacted(source) && crate::json::str_in(crate::json::member_of(source, "capture_uri")).is_some();
        let ghost before = table_view(t@);
        let state = if fetches {
            assert(cursor < fetched.len());
            let st = capture_state(source, Some(&fetched[cursor]));
            assert(rest.take(cursor + 1 - base).drop_last() =~= rest.take(cursor - base));
            assert(rest.take(cursor + 1 - base).last() == fetch_view(fetched@[cursor as int]));
            cursor = cursor + 1;
            st
        } else {
            capture_state(source, None)
        };
        match seed_key(source) {
            Some(k) => {
                t.push((k, state.0, state.1));
                assert(table_view(t@) =~= before.push(entry_view(t@.last())));
            },
            None => {},
        }
        i = i + 1;
    }
    assert(l.take(sources@.len() as int) =~= l);
    t
}

/// A prefix that has an entry under `key` places the first one where the
/// whole table does.
proof fn lemma_first_key_prefix(table: Seq<(Seq<char>, CaptureState, Seq<u8>)>, key: Seq<char>, n: int)
    requires
        0 <= n <= table.len(),
        first_key_index(table.take(n), key) is Some,
    ensures
        first_key_index(table, key) == first_key_index(table.take(n), key),
    decreases table.len() - n,
{
    if n < table.len() {
        assert(table.drop_last().take(n) =~= table.take(n));
        lemma_first_key_prefix(table.drop_last(), key, n);
    } else {
        assert(table.take(n) =~= table);
    }
}

proof fn lemma_first_key_bounds(table: Seq<(Seq<char>, CaptureState, Seq<u8>)>, key: Seq<char>)
    ensures
        first_key_index(table, key) matches Some(k) ==> 0 <= k < table.len() && table[k].0 == key,
    decreases table.len(),
{
    if table.len() > 0 {
        lemma_first_key_bounds(table.drop_last(), key);
    }
}

/// The position of the first entry of `table` under `key`.
fn find_capture(table: &Vec<(Vec<char>, CaptureState, Vec<u8>)>, key: &Vec<char>) -> (r: Option<usize>)
    ensures
        match r {
            Some(k) => first_key_index(table_view(table@), key@) == Some(k as int) && k < table@.len(),
            None => first_key_index(table_view(table@), key@) is None,
        },
{
    let ghost tv = table_view(table@);
    let mut i: usize = 0;
    assert(tv.take(0) =~= Seq::<(Seq<char>, CaptureState, Seq<u8>)>::empty());
    while i < table.len()
        invariant
            0 <= i <= table@.len(),
            tv == table_view(table@),
            first_key_index(tv.take(i as int), key@) is None,
        decreases table@.len() - i,
    {
        assert(tv.take(i + 1).drop_last() =~= tv.take(i as int));
        if crate::text::chars_eq(table[i].0.as_slice(), key.as_slice()) {
            assert(tv.take(i + 1).last() == tv[i as int]);
            assert(first_key_index(tv.take(i + 1), key@) == Some(i as int));
            proof {
                lemma_first_key_prefix(tv, key@, i + 1);
            }
            return Some(i);
        }
        i = i + 1;
    }
    assert(tv.take(table@.len() as int) =~= tv);
    None
}

/// The value of a list of cited ids.
pub open spec fn cited_view(cited: Seq<&str>) -> Seq<Seq<char>> {
    cited.map_values(|s: &str| s@)
}

/// The quote check at `path` of the quote `quote` of a claim citing `cited`;
/// see [`quote_check_of`].
fn quote_check(table: &Vec<(Vec<char>, CaptureState, Vec<u8>)>, path: &str, quote: &str, cited: &Vec<&str>) -> (c:
    ContentCheck)
    ensures
        c@ == quote_check_of(table_view(table@), path@, quote@, cited_view(cited@)),
{
    let ghost tv = table_view(table@);
    let ghost cv = cited_view(cited@);
    let needle = quote.as_bytes();
    let mut found = false;
    let mut distrusted = false;
    let mut any_usable = false;
    let mut all_usable = true;
    let mut red: Vec<char> = Vec::new();
    let mut red_count: usize = 0;
    let mut i: usize = 0;
    assert(cv.take(0) =~= Seq::<Seq<char>>::empty());
    while i < cited.len()
        invariant
            0 <= i <= cited@.len(),
            tv == table_view(table@),
            cv == cited_view(cited@),
            needle@ == vstd::utf8::encode_utf8(quote@),
            (found, distrusted, any_usable, all_usable) == scan_captures(tv, cv.take(i as int), needle@),
            red@ == join_comma(redacted_cited(tv, cv.take(i as int))),
            red_count as int == redacted_cited(tv, cv.take(i as int)).len(),
            red_count <= i,
        decreases cited@.len() - i,
    {
        assert(cv.take(i + 1).drop_last() =~= cv.take(i as int));
        assert(cv.take(i + 1).last() == cited@[i as int]@);
        let key = crate::shape::normalize_id(cited[i]);
        let (state, usable_holds) = match find_capture(table, &key) {
            Some(k) => {
                proof {
                    lemma_first_key_bounds(tv, key@);
                }
                let st = table[k].1;
                let holds = match st {
                    CaptureState::Usable => find_bytes(table[k].2.as_slice(), 0, table[k].2.len(), needle).is_some(),
                    _ => false,
                };
                (st, holds)
            },
            None => (CaptureState::Missing, false),
        };
        found = found || usable_holds;
        distrusted = distrusted || state == CaptureState::Distrusted;
        any_usable = any_usable || state == CaptureState::Usable;
        all_usable = all_usable && state == CaptureState::Usable;
        if state == CaptureState::Redacted {
            let ghost parts = redacted_cited(tv, cv.take(i as int));
            if red_count > 0 {
                push_str(&mut red, ", ");
            }
            push_chars(&mut red, chars_of(cited[i]).as_slice());
            red_count = red_count + 1;
            assert(redacted_cited(tv, cv.take(i + 1)) == parts.push(cited@[i as int]@));
            proof {
                if parts.len() == 0 {
                    assert(parts.push(cited@[i as int]@)[0] == cited@[i as int]@);
                } else {
                    assert(parts.push(cited@[i as int]@).drop_last() =~= parts);
                }
            }
        }
        i = i + 1;
    }
    assert(cv.take(cited@.len() as int) =~= cv);
    let (outcome, detail) = if found {
        (Outcome::Verified, "quote found in capture")
    } else if distrusted {
        (Outcome::Unverifiable, "a cited source's capture failed its content_hash")
    } else if !any_usable {
        (Outcome::Unverifiable, "no cited source capture fetched")
    } else if !all_usable {
        (Outcome::Unverifiable, "some cited source captures were not fetched")
    } else {
        (Outcome::Failed, "quote absent from fetched captures")
    };
    let mut warnings: Vec<Advisory> = Vec::new();
    if red_count > 0 {
        let mut message: Vec<char> = Vec::new();
        push_str(&mut message, "quote cites redacted source(s): ");
        push_chars(&mut message, red.as_slice());
        warnings.push(Advisory { path: path.to_string(), message: string_of(&message) });
    }
    let c = ContentCheck {
        kind: CheckKind::Quote,
        path: path.to_string(),
        outcome,
        detail: detail.to_string(),
        findings: Vec::new(),
        warnings,
    };
    assert(c@.findings =~= seq![]);
    assert(c@.warnings =~= quote_check_of(tv, path@, quote@, cv).warnings);
    c
}

/// The path of the quote of claim `claim` of section `section`.
fn quote_path(section: usize, claim: usize, sidecar: bool) -> (p: String)
    ensures
        p@ == quote_pointer(section as int, claim as int, sidecar),
{
    if sidecar {
        let segments = [
            Segment::Key("sections"),
            Segment::Index(section),
            Segment::Key("provenance_uri"),
            Segment::Key("claims"),
            Segment::Index(claim),
            Segment::Key("locator"),
            Segment::Key("quote"),
        ];
        let p = crate::result::json_pointer(&segments);
        assert(segments@ =~= seq![Segment::Key("sections"), Segment::Index(section)] + claims_at(sidecar) + seq![
            Segment::Index(claim),
            Segment::Key("locator"),
            Segment::Key("quote"),
        ]);
        p
    } else {
        let segments = [
            Segment::Key("sections"),
            Segment::Index(section),
            Segment::Key("provenance"),
            Segment::Index(claim),
            Segment::Key("locator"),
            Segment::Key("quote"),
        ];
        let p = crate::result::json_pointer(&segments);
        assert(segments@ =~= seq![Segment::Key("sections"), Segment::Index(section)] + claims_at(sidecar) + seq![
            Segment::Index(claim),
            Segment::Key("locator"),
            Segment::Key("quote"),
        ]);
        p
    }
}

/// The ids a claim cites; see [`cited_ids_of`].
fn cited_ids<'a>(claim: &'a Vec<(String, Json)>) -> (r: Vec<&'a str>)
    ensures
        cited_view(r@) == cited_ids_of(claim@),
{
    let mut r: Vec<&'a str> = Vec::new();
    match crate::json::member_of(claim, "source_ids") {
        Some(Json::Array(items)) => {
            let mut i: usize = 0;
            assert(items@.take(0) =~= Seq::<Json>::empty());
            while i < items.len()
                invariant
                    0 <= i <= items@.len(),
                    cited_view(r@) == strings_of(items@.take(i as int)),
                decreases items@.len() - i,
            {
                assert(items@.take(i + 1).drop_last() =~= items@.take(i as int));
                assert(items@.take(i + 1).last() == items@[i as int]);
                let ghost before = cited_view(r@);
                match &items[i] {
                    Json::Str(text) => {
                        r.push(text.as_str());
                        assert(cited_view(r@) =~= before.push(text@));
                    },
                    _ => {},
                }
                i = i + 1;
            }
            assert(items@.take(items@.len() as int) =~= items@);
        },
        _ => {},
    }
    r
}

/// The quote of a claim; see [`quote_text_of`].
fn quote_text<'a>(claim: &'a Vec<(String, Json)>) -> (r: Option<&'a str>)
    ensures
        match r {
            Some(q) => quote_text_of(claim@) == Some(q@),
            None => quote_text_of(claim@) is None,
        },
{
    match crate::json::member_of(claim, "locator") {
        Some(Json::Object(locator)) => crate::json::str_in(crate::json::member_of(locator, "quote")),
        _ => None,
    }
}

/// The quote checks of the claims of section `section`; see
/// [`claim_quote_checks_of`].
fn claim_quote_checks(
    table: &Vec<(Vec<char>, CaptureState, Vec<u8>)>,
    section: usize,
    claims: &Vec<(usize, &Vec<(String, Json)>)>,
    sidecar: bool,
) -> (r: Vec<ContentCheck>)
    ensures
        crate::content::check_views(r@) == claim_quote_checks_of(
            table_view(table@),
            section as int,
            crate::shape::listing(claims@),
            sidecar,
        ),
{
    let ghost l = crate::shape::listing(claims@);
    let mut r: Vec<ContentCheck> = Vec::new();
    let mut j: usize = 0;
    while j < claims.len()
        invariant
            0 <= j <= claims@.len(),
            l == crate::shape::listing(claims@),
            crate::content::check_views(r@) == claim_quote_checks_of(table_view(table@), section as int, l.take(j as int), sidecar),
        decreases claims@.len() - j,
    {
        assert(l.take(j + 1).drop_last() =~= l.take(j as int));
        assert(l.take(j + 1).last() == l[j as int]);
        let (index, claim) = claims[j];
        let ghost before = crate::content::check_views(r@);
        match quote_text(claim) {
            Some(q) => {
                let cited = cited_ids(claim);
                if chars_of(q).len() > 0 && cited.len() > 0 {
                    let path = quote_path(section, index, sidecar);
                    let c = quote_check(table, path.as_str(), q, &cited);
                    r.push(c);
                    assert(crate::content::check_views(r@) =~= before.push(c@));
                }
            },
            None => {},
        }
        j = j + 1;
    }
    assert(l.take(claims@.len() as int) =~= l);
    r
}

/// The quote checks of a descriptor's sections; see [`quote_checks_of`].
pub fn quote_checks(descriptor: &Json, table: &Vec<(Vec<char>, CaptureState, Vec<u8>)>) -> (r: Vec<ContentCheck>)
    ensures
        crate::content::check_views(r@) == quote_checks_of(
            table_view(table@),
            crate::shape::listed(crate::json::get(*descriptor, "sections"@)),
        ),
{
    let sections = crate::shape::indexed_objects(descriptor.get("sections"));
    let ghost l = crate::shape::listing(sections@);
    let mut r: Vec<ContentCheck> = Vec::new();
    let mut i: usize = 0;
    while i < sections.len()
        invariant
            0 <= i <= sections@.len(),
            l == crate::shape::listing(sections@),
            crate::content::check_views(r@) == quote_checks_of(table_view(table@), l.take(i as int)),
        decreases sections@.len() - i,
    {
        assert(l.take(i + 1).drop_last() =~= l.take(i as int));
        assert(l.take(i + 1).last() == l[i as int]);
        let (index, section) = sections[i];
        let claims = crate::shape::indexed_objects(crate::json::member_of(section, "provenance"));
        let ghost before = crate::content::check_views(r@);
        let mut more = claim_quote_checks(table, index, &claims, false);
        let ghost added = crate::content::check_views(more@);
        r.append(&mut more);
        assert(crate::content::check_views(r@) =~= before + added);
        i = i + 1;
    }
    assert(l.take(sections@.len() as int) =~= l);
    r
}

// ---------------------------------------------------------------------------
// Laws of the quote checks

proof fn lemma_claim_quotes_no_findings(
    table: Seq<(Seq<char>, CaptureState, Seq<u8>)>,
    section: int,
    claims: Seq<(int, Seq<(String, Json)>)>,
    sidecar: bool,
)
    ensures
        crate::content::no_findings(claim_quote_checks_of(table, section, claims, sidecar)),
    decreases claims.len(),
{
    if claims.len() > 0 {
        lemma_claim_quotes_no_findings(table, section, claims.drop_last(), sidecar);
    }
}

/// A quote check never raises a finding.
pub proof fn lemma_quotes_no_findings(table: Seq<(Seq<char>, CaptureState, Seq<u8>)>, list: Seq<(int, Seq<(String, Json)>)>)
    ensures
        crate::content::no_findings(quote_checks_of(table, list)),
    decreases list.len(),
{
    if list.len() > 0 {
        let (i, m) = list.last();
        lemma_quotes_no_findings(table, list.drop_last());
        let claims = crate::shape::listed(member(m, "provenance"@));
        lemma_claim_quotes_no_findings(table, i, claims, false);
        let a = quote_checks_of(table, list.drop_last());
        let b = claim_quote_checks_of(table, i, claims, false);
        assert forall|k: int| 0 <= k < (a + b).len() implies (#[trigger] (a + b)[k]).findings.len() == 0 by {
            if k >= a.len() {
                assert((a + b)[k] == b[k - a.len()]);
            } else {
                assert((a + b)[k] == a[k]);
            }
        }
    }
}

/// No capture in `table` is usable.
pub open spec fn none_usable(table: Seq<(Seq<char>, CaptureState, Seq<u8>)>) -> bool {
    forall|k: int| 0 <= k < table.len() ==> (#[trigger] table[k]).1 != CaptureState::Usable
}

/// When every capture fetch failed, no capture is usable.
pub proof fn lemma_table_unfetched(
    d: Json,
    list: Seq<(int, Seq<(String, Json)>)>,
    results: Seq<Result<Seq<u8>, Seq<char>>>,
)
    requires
        crate::content::all_unfetched(results),
        results.len() == capture_requests_of(d, list).len(),
    ensures
        none_usable(capture_table_of(list, results)),
    decreases list.len(),
{
    if list.len() > 0 {
        let m = list.last().1;
        if capture_fetches(m) {
            assert(crate::content::all_unfetched(results.drop_last())) by {
                assert forall|k: int| 0 <= k < results.drop_last().len() implies (
                #[trigger] results.drop_last()[k]) is Err by {
                    assert(results.drop_last()[k] == results[k]);
                }
            }
            assert(results.last() == results[results.len() - 1]);
            lemma_table_unfetched(d, list.drop_last(), results.drop_last());
        } else {
            lemma_table_unfetched(d, list.drop_last(), results);
        }
    }
}

proof fn lemma_scan_none_usable(
    table: Seq<(Seq<char>, CaptureState, Seq<u8>)>,
    cited: Seq<Seq<char>>,
    quote: Seq<u8>,
)
    requires
        none_usable(table),
    ensures
        !scan_captures(table, cited, quote).0,
        !scan_captures(table, cited, quote).2,
    decreases cited.len(),
{
    if cited.len() > 0 {
        lemma_scan_none_usable(table, cited.drop_last(), quote);
        lemma_first_key_bounds(table, normalize(cited.last()));
    }
}

proof fn lemma_claim_quotes_unfetched(
    table: Seq<(Seq<char>, CaptureState, Seq<u8>)>,
    section: int,
    claims: Seq<(int, Seq<(String, Json)>)>,
    sidecar: bool,
)
    requires
        none_usable(table),
    ensures
        crate::content::none_failed(claim_quote_checks_of(table, section, claims, sidecar)),
    decreases claims.len(),
{
    if claims.len() > 0 {
        lemma_claim_quotes_unfetched(table, section, claims.drop_last(), sidecar);
        let (j, c) = claims.last();
        match quote_text_of(c) {
            Some(q) => {
                lemma_scan_none_usable(table, cited_ids_of(c), vstd::utf8::encode_utf8(q));
            },
            None => {},
        }
    }
}

/// With no usable capture, no quote check fails: a quote can only be found
/// missing in a capture that was fetched and trusted.
pub proof fn lemma_quotes_unfetched(table: Seq<(Seq<char>, CaptureState, Seq<u8>)>, list: Seq<(int, Seq<(String, Json)>)>)
    requires
        none_usable(table),
    ensures
        crate::content::none_failed(quote_checks_of(table, list)),
    decreases list.len(),
{
    if list.len() > 0 {
        let (i, m) = list.last();
        lemma_quotes_unfetched(table, list.drop_last());
        let claims = crate::shape::listed(member(m, "provenance"@));
        lemma_claim_quotes_unfetched(table, i, claims, false);
        let a = quote_checks_of(table, list.drop_last());
        let b = claim_quote_checks_of(table, i, claims, false);
        assert forall|k: int| 0 <= k < (a + b).len() implies (#[trigger] (a + b)[k]).outcome != Outcome::Failed by {
            if k >= a.len() {
                assert((a + b)[k] == b[k - a.len()]);
            } else {
                assert((a + b)[k] == a[k]);
            }
        }
    }
}

/// The quote checks of the claims of the fetched sidecars of the sections
/// of `list`, each section naming a sidecar taking the next of `sidecars`:
/// those of a sidecar that is a JSON object, under its `claims`.
pub open spec fn sidecar_quote_checks_of(
    table: Seq<(Seq<char>, CaptureState, Seq<u8>)>,
    list: Seq<(int, Seq<(String, Json)>)>,
    sidecars: Seq<Result<(Seq<u8>, Option<Json>), Seq<char>>>,
) -> Seq<CheckView>
    decreases list.len(),
{
    if list.len() == 0 {
        seq![]
    } else {
        let (i, m) = list.last();
        if crate::sidecar::names_sidecar(m) {
            sidecar_quote_checks_of(table, list.drop_last(), sidecars.drop_last()) + match sidecars.last() {
                Ok((_, Some(v))) => if v is Object {
                    claim_quote_checks_of(table, i, crate::shape::listed(crate::json::get(v, "claims"@)), true)
                } else {
                    seq![]
                },
                _ => seq![],
            }
        } else {
            sidecar_quote_checks_of(table, list.drop_last(), sidecars)
        }
    }
}

proof fn lemma_sidecar_quote_requests_prefix(d: Json, list: Seq<(int, Seq<(String, Json)>)>, k: int)
    requires
        0 <= k <= list.len(),
    ensures
        crate::sidecar::sidecar_requests_of(d, list.take(k)).len() <= crate::sidecar::sidecar_requests_of(d, list).len(),
    decreases list.len() - k,
{
    if k < list.len() {
        lemma_sidecar_quote_requests_prefix(d, list, k + 1);
        assert(list.take(k + 1).drop_last() =~= list.take(k));
    } else {
        assert(list.take(k) =~= list);
    }
}

/// The quote checks of the claims of a descriptor's fetched sidecars; see
/// [`sidecar_quote_checks_of`].
pub fn sidecar_quote_checks(
    descriptor: &Json,
    table: &Vec<(Vec<char>, CaptureState, Vec<u8>)>,
    sidecars: &Vec<Result<(Vec<u8>, Option<Json>), Unfetchable>>,
) -> (r: Vec<ContentCheck>)
    requires
        sidecars@.len() == crate::sidecar::sidecar_requests_of(
            *descriptor,
            crate::shape::listed(crate::json::get(*descriptor, "sections"@)),
        ).len(),
    ensures
        crate::content::check_views(r@) == sidecar_quote_checks_of(
            table_view(table@),
            crate::shape::listed(crate::json::get(*descriptor, "sections"@)),
            crate::sidecar::sidecar_views(sidecars@),
        ),
{
    let ghost results = crate::sidecar::sidecar_views(sidecars@);
    let sections = crate::shape::indexed_objects(descriptor.get("sections"));
    let ghost l = crate::shape::listing(sections@);
    let mut r: Vec<ContentCheck> = Vec::new();
    let mut cursor: usize = 0;
    let mut i: usize = 0;
    proof {
        lemma_sidecar_quote_requests_prefix(*descriptor, l, 0);
    }
    assert(results.take(0) =~= Seq::<Result<(Seq<u8>, Option<Json>), Seq<char>>>::empty());
    while i < sections.len()
        invariant
            0 <= i <= sections@.len(),
            l == crate::shape::listing(sections@),
            results == crate::sidecar::sidecar_views(sidecars@),
            sidecars@.len() == crate::sidecar::sidecar_requests_of(*descriptor, l).len(),
            cursor == crate::sidecar::sidecar_requests_of(*descriptor, l.take(i as int)).len(),
            crate::content::check_views(r@) == sidecar_quote_checks_of(table_view(table@), l.take(i as int), results.take(cursor as int)),
        decreases sections@.len() - i,
    {
        assert(l.take(i + 1).drop_last() =~= l.take(i as int));
        assert(l.take(i + 1).last() == l[i as int]);
        let (index, section) = sections[i];
        proof {
            lemma_sidecar_quote_requests_prefix(*descriptor, l, i + 1);
        }
        if crate::json::str_in(crate::json::member_of(section, "provenance_uri")).is_some() {
            assert(cursor < sidecars.len());
            assert(results.take(cursor + 1).drop_last() =~= results.take(cursor as int));
            assert(results.take(cursor + 1).last() == crate::sidecar::sidecar_view(sidecars@[cursor as int]));
            let ghost before = crate::content::check_views(r@);
            match &sidecars[cursor] {
                Ok((_, Some(v))) => match v {
                    Json::Object(_) => {
                        let claims = crate::shape::indexed_objects(v.get("claims"));
                        let mut more = claim_quote_checks(table, index, &claims, true);
                        let ghost added = crate::content::check_views(more@);
                        r.append(&mut more);
                        assert(crate::content::check_views(r@) =~= before + added);
                    },
                    _ => {
                        assert(crate::content::check_views(r@) =~= before + Seq::<CheckView>::empty());
                    },
                },
                _ => {
                    assert(crate::content::check_views(r@) =~= before + Seq::<CheckView>::empty());
                },
            }
            cursor = cursor + 1;
        }
        i = i + 1;
    }
    assert(l.take(sections@.len() as int) =~= l);
    assert(results.take(cursor as int) =~= results);
    r
}

/// A quote check of a sidecar claim never raises a finding.
pub proof fn lemma_sidecar_quotes_no_findings(
    table: Seq<(Seq<char>, CaptureState, Seq<u8>)>,
    list: Seq<(int, Seq<(String, Json)>)>,
    sidecars: Seq<Result<(Seq<u8>, Option<Json>), Seq<char>>>,
)
    ensures
        crate::content::no_findings(sidecar_quote_checks_of(table, list, sidecars)),
    decreases list.len(),
{
    if list.len() > 0 {
        let (i, m) = list.last();
        if crate::sidecar::names_sidecar(m) {
            lemma_sidecar_quotes_no_findings(table, list.drop_last(), sidecars.drop_last());
            let a = sidecar_quote_checks_of(table, list.drop_last(), sidecars.drop_last());
            let b = match sidecars.last() {
                Ok((_, Some(v))) => if v is Object {
                    claim_quote_checks_of(table, i, crate::shape::listed(crate::json::get(v, "claims"@)), true)
                } else {
                    seq![]
                },
                _ => seq![],
            };
            match sidecars.last() {
                Ok((_, Some(v))) => {
                    lemma_claim_quotes_no_findings(table, i, crate::shape::listed(crate::json::get(v, "claims"@)), true);
                },
                _ => {},
            }
            assert forall|k: int| 0 <= k < (a + b).len() implies (#[trigger] (a + b)[k]).findings.len() == 0 by {
                if k >= a.len() {
                    assert((a + b)[k] == b[k - a.len()]);
                } else {
                    assert((a + b)[k] == a[k]);
                }
            }
        } else {
            lemma_sidecar_quotes_no_findings(table, list.drop_last(), sidecars);
        }
    }
}

/// With no usable capture, no quote check of a sidecar claim fails.
pub proof fn lemma_sidecar_quotes_unfetched(
    table: Seq<(Seq<char>, CaptureState, Seq<u8>)>,
    list: Seq<(int, Seq<(String, Json)>)>,
    sidecars: Seq<Result<(Seq<u8>, Option<Json>), Seq<char>>>,
)
    requires
        none_usable(table),
    ensures
        crate::content::none_failed(sidecar_quote_checks_of(table, list, sidecars)),
    decreases list.len(),
{
    if list.len() > 0 {
        let (i, m) = list.last();
        if crate::sidecar::names_sidecar(m) {
            lemma_sidecar_quotes_unfetched(table, list.drop_last(), sidecars.drop_last());
            let a = sidecar_quote_checks_of(table, list.drop_last(), sidecars.drop_last());
            let b = match sidecars.last() {
                Ok((_, Some(v))) => if v is Object {
                    claim_quote_checks_of(table, i, crate::shape::listed(crate::json::get(v, "claims"@)), true)
                } else {
                    seq![]
                },
                _ => seq![],
            };
            match sidecars.last() {
                Ok((_, Some(v))) => {
                    lemma_claim_quotes_unfetched(table, i, crate::shape::listed(crate::json::get(v, "claims"@)), true);
                },
                _ => {},
            }
            assert forall|k: int| 0 <= k < (a + b).len() implies (#[trigger] (a + b)[k]).outcome != Outcome::Failed by {
                if k >= a.len() {
                    assert((a + b)[k] == b[k - a.len()]);
                } else {
                    assert((a + b)[k] == a[k]);
                }
            }
        } else {
            lemma_sidecar_quotes_unfetched(table, list.drop_last(), sidecars);
        }
    }
}

} // verus!
