//! Opt-in content checks against fetched descriptor-related resources.
//!
//! Fetching is the caller's part: [`content_requests`] names the URIs to
//! fetch, in order, and [`check_content_with`] turns the fetch results into a
//! report.

use vstd::prelude::*;

use crate::json::Json;
use crate::json::member;
use crate::result::{
    advisory_views, finding_views, json_pointer, pointer_of, Advisory, AdvisoryView, Finding, FindingView, Segment,
};
use crate::text::{chars_of, push_chars, push_str, string_of};

verus! {

broadcast use vstd::seq_lib::group_seq_properties;

// ---------------------------------------------------------------------------
// Fetch failures and the local resolver

/// A resolver-level fetch failure.
pub struct Unfetchable {
    /// Human-readable reason the resource could not be fetched.
    pub reason: String,
}

impl Unfetchable {
    /// A failure with the given reason.
    pub fn new(reason: &str) -> (u: Unfetchable)
        ensures
            u.reason@ == reason@,
    {
        Unfetchable { reason: reason.to_string() }
    }

    /// The failure of a reference that leaves the local base.
    pub fn outside_local_base(uri: &str) -> (u: Unfetchable)
        ensures
            u.reason@ == "outside local base: "@ + uri@,
    {
        let mut reason: Vec<char> = Vec::new();
        push_str(&mut reason, "outside local base: ");
        push_str(&mut reason, uri);
        Unfetchable { reason: string_of(&reason) }
    }

    /// The failure's message: `unfetchable: ` and its reason.
    pub fn message(&self) -> (m: String)
        ensures
            m@ == unfetchable_message(self.reason@),
    {
        let mut out: Vec<char> = Vec::new();
        push_str(&mut out, "unfetchable: ");
        push_str(&mut out, self.reason.as_str());
        string_of(&out)
    }
}

/// The message of a fetch failure with `reason`.
pub open spec fn unfetchable_message(reason: Seq<char>) -> Seq<char> {
    "unfetchable: "@ + reason
}

/// Resolves scheme-less relative paths under a local base directory.
pub struct LocalFileResolver {
    /// The directory references resolve under.
    pub base_dir: String,
}

impl LocalFileResolver {
    /// Creates a resolver rooted at `base_dir`.
    pub fn new(base_dir: &str) -> (r: LocalFileResolver)
        ensures
            r.base_dir@ == base_dir@,
    {
        LocalFileResolver { base_dir: base_dir.to_string() }
    }

    /// The relative path that `uri` names under the base directory: the
    /// reference without its fragment and query; a failure exactly for a
    /// reference that could leave the base (see [`rejects_local`]).
    pub fn local_reference(&self, uri: &str) -> (r: Result<String, Unfetchable>)
        ensures
            r is Ok <==> !rejects_local(strip_fragment_of(uri@), before_query(strip_fragment_of(uri@))),
            match r {
                Ok(path) => path@ == before_query(strip_fragment_of(uri@)),
                Err(e) => e.reason@ == "outside local base: "@ + uri@,
            },
    {
        let raw_reference = strip_fragment(uri);
        let raw_path = split_query(&raw_reference).0;
        if rejects_local_reference(&raw_reference, &raw_path) {
            proof {
                if drive_shape(raw_path@) {
                    lemma_drive_is_scheme(raw_reference@);
                }
            }
            return Err(Unfetchable::outside_local_base(uri));
        }
        Ok(string_of(&raw_path))
    }
}

// ---------------------------------------------------------------------------
// Reference text

/// The position of the first `c` in `s`.
pub open spec fn first_index_of(s: Seq<char>, c: char) -> Option<int>
    decreases s.len(),
{
    if s.len() == 0 {
        None
    } else {
        match first_index_of(s.drop_last(), c) {
            Some(i) => Some(i),
            None => if s.last() == c {
                Some(s.len() - 1)
            } else {
                None
            },
        }
    }
}

proof fn lemma_first_index_of(s: Seq<char>, c: char)
    ensures
        match first_index_of(s, c) {
            Some(i) => 0 <= i < s.len() && s[i] == c && forall|j: int| 0 <= j < i ==> s[j] != c,
            None => forall|j: int| 0 <= j < s.len() ==> s[j] != c,
        },
    decreases s.len(),
{
    if s.len() > 0 {
        let t = s.drop_last();
        lemma_first_index_of(t, c);
        assert forall|j: int| 0 <= j < t.len() implies t[j] == s[j] by {}
    }
}

/// The position of the first `c` in `s`.
fn find_char(s: &Vec<char>, c: char) -> (r: Option<usize>)
    ensures
        match r {
            Some(i) => first_index_of(s@, c) == Some(i as int) && i < s@.len() && s@[i as int] == c,
            None => first_index_of(s@, c) is None,
        },
{
    proof {
        lemma_first_index_of(s@, c);
    }
    let mut i: usize = 0;
    while i < s.len()
        invariant
            0 <= i <= s@.len(),
            forall|j: int| 0 <= j < i ==> s@[j] != c,
        decreases s@.len() - i,
    {
        if s[i] == c {
            proof {
                lemma_first_index_of(s@, c);
            }
            return Some(i);
        }
        i = i + 1;
    }
    None
}

/// The characters of `s` from `start` to `end`.
fn slice_chars(s: &Vec<char>, start: usize, end: usize) -> (r: Vec<char>)
    requires
        start <= end <= s@.len(),
    ensures
        r@ == s@.subrange(start as int, end as int),
{
    let mut r: Vec<char> = Vec::new();
    let mut i: usize = start;
    while i < end
        invariant
            start <= i <= end <= s@.len(),
            r@ == s@.subrange(start as int, i as int),
        decreases end - i,
    {
        r.push(s[i]);
        i = i + 1;
    }
    r
}

/// A reference without its fragment: everything before the first `#`.
pub open spec fn strip_fragment_of(uri: Seq<char>) -> Seq<char> {
    match first_index_of(uri, '#') {
        Some(i) => uri.take(i),
        None => uri,
    }
}

/// Removes the fragment of a reference.
pub fn strip_fragment(uri: &str) -> (r: Vec<char>)
    ensures
        r@ == strip_fragment_of(uri@),
{
    let s = chars_of(uri);
    match find_char(&s, '#') {
        Some(i) => slice_chars(&s, 0, i),
        None => s,
    }
}

/// A reference without its fragment holds no `#` and is a prefix of the
/// reference.
pub proof fn lemma_strip_fragment(uri: Seq<char>)
    ensures
        !strip_fragment_of(uri).contains('#'),
        strip_fragment_of(uri).len() <= uri.len(),
        strip_fragment_of(uri) == uri.take(strip_fragment_of(uri).len() as int),
{
    lemma_first_index_of(uri, '#');
    assert(uri.take(uri.len() as int) =~= uri);
}

/// A fragment never changes what a reference names locally: the reference
/// `uri#fragment` without its fragment is `uri`, so the local resolver reads
/// the same path for both.
pub proof fn lemma_fragment_ignored(uri: Seq<char>, fragment: Seq<char>)
    requires
        !holds_char(uri, '#'),
    ensures
        strip_fragment_of(uri + seq!['#'] + fragment) == strip_fragment_of(uri),
        strip_fragment_of(uri) == uri,
{
    let s = uri + seq!['#'] + fragment;
    lemma_first_index_of(s, '#');
    lemma_first_index_of(uri, '#');
    assert(s[uri.len() as int] == '#');
    assert forall|j: int| 0 <= j < uri.len() implies s[j] != '#' by {
        assert(s[j] == uri[j]);
    }
    assert(s.take(uri.len() as int) =~= uri);
}

/// The part of a reference before its first `?`.
pub open spec fn before_query(reference: Seq<char>) -> Seq<char> {
    match first_index_of(reference, '?') {
        Some(i) => reference.take(i),
        None => reference,
    }
}

/// The part of a reference after its first `?`, when it has one.
pub open spec fn query_of(reference: Seq<char>) -> Option<Seq<char>> {
    match first_index_of(reference, '?') {
        Some(i) => Some(reference.skip(i + 1)),
        None => None,
    }
}

/// Splits a reference at its first `?` into the part before and the query.
pub fn split_query(reference: &Vec<char>) -> (r: (Vec<char>, Option<Vec<char>>))
    ensures
        r.0@ == before_query(reference@),
        match r.1 {
            Some(q) => query_of(reference@) == Some(q@),
            None => query_of(reference@) is None,
        },
{
    match find_char(reference, '?') {
        Some(i) => {
            assert(i < reference.len());
            (slice_chars(reference, 0, i), Some(slice_chars(reference, i + 1, reference.len())))
        },
        None => (slice_chars(reference, 0, reference.len()), None),
    }
}

/// `s` holds `c`.
pub open spec fn holds_char(s: Seq<char>, c: char) -> bool {
    exists|i: int| 0 <= i < s.len() && s[i] == c
}

/// Whether `s` holds `c`.
fn has_char(s: &Vec<char>, c: char) -> (r: bool)
    ensures
        r == holds_char(s@, c),
{
    proof {
        lemma_first_index_of(s@, c);
    }
    find_char(s, c).is_some()
}

/// The `/`-separated segments of `s`, as `str::split` gives them: one more
/// than there are separators.
pub open spec fn split_slash(s: Seq<char>) -> Seq<Seq<char>>
    decreases s.len(),
{
    if s.len() == 0 {
        seq![seq![]]
    } else {
        let r = split_slash(s.drop_last());
        if s.last() == '/' {
            r.push(seq![])
        } else {
            r.update(r.len() - 1, r.last().push(s.last()))
        }
    }
}

/// The segments of `s`.
fn split_segments(s: &Vec<char>) -> (r: Vec<Vec<char>>)
    ensures
        r@.map_values(|x: Vec<char>| x@) == split_slash(s@),
{
    let mut r: Vec<Vec<char>> = Vec::new();
    r.push(Vec::new());
    let mut i: usize = 0;
    assert(s@.subrange(0, 0) =~= Seq::<char>::empty());
    assert(r@.map_values(|x: Vec<char>| x@) =~= split_slash(s@.subrange(0, 0)));
    while i < s.len()
        invariant
            0 <= i <= s@.len(),
            r@.len() >= 1,
            r@.map_values(|x: Vec<char>| x@) == split_slash(s@.subrange(0, i as int)),
        decreases s@.len() - i,
    {
        let ghost prev = r@.map_values(|x: Vec<char>| x@);
        let ghost next = s@.subrange(0, i + 1);
        assert(next.drop_last() =~= s@.subrange(0, i as int));
        if s[i] == '/' {
            r.push(Vec::new());
            assert(r@.map_values(|x: Vec<char>| x@) =~= prev.push(seq![]));
        } else {
            let last = r.len() - 1;
            let mut segment = r.pop().unwrap();
            segment.push(s[i]);
            r.push(segment);
            assert(r@.map_values(|x: Vec<char>| x@) =~= prev.update(last as int, prev.last().push(s@[i as int])));
        }
        i = i + 1;
    }
    assert(s@.subrange(0, s@.len() as int) =~= s@);
    r
}

/// `s` is a URI scheme followed by `:`: the part before the first `:` holds
/// no `/` or `?`, starts with an ASCII letter and goes on with ASCII letters,
/// digits, `+`, `-` and `.`.
pub open spec fn has_scheme(s: Seq<char>) -> bool {
    match first_index_of(s, ':') {
        Some(i) => {
            let scheme = s.take(i);
            &&& scheme.len() > 0
            &&& is_ascii_alpha(scheme[0])
            &&& forall|j: int| 1 <= j < scheme.len() ==> is_scheme_char(#[trigger] scheme[j])
        },
        None => false,
    }
}

/// An ASCII letter.
pub open spec fn is_ascii_alpha(c: char) -> bool {
    ('a' <= c <= 'z') || ('A' <= c <= 'Z')
}

/// A character that may follow the first one in a scheme.
pub open spec fn is_scheme_char(c: char) -> bool {
    is_ascii_alpha(c) || ('0' <= c <= '9') || c == '+' || c == '-' || c == '.'
}

/// Whether `reference` starts with a URI scheme and `:`.
pub fn has_uri_scheme(reference: &Vec<char>) -> (r: bool)
    ensures
        r == has_scheme(reference@),
{
    let colon = match find_char(reference, ':') {
        Some(i) => i,
        None => return false,
    };
    if colon == 0 {
        return false;
    }
    let first = reference[0];
    if !(('a' <= first && first <= 'z') || ('A' <= first && first <= 'Z')) {
        return false;
    }
    let mut j: usize = 1;
    while j < colon
        invariant
            1 <= j <= colon,
            colon < reference@.len(),
            first_index_of(reference@, ':') == Some(colon as int),
            forall|k: int| 1 <= k < j ==> is_scheme_char(#[trigger] reference@.take(colon as int)[k]),
        decreases colon - j,
    {
        let c = reference[j];
        if !(('a' <= c && c <= 'z') || ('A' <= c && c <= 'Z') || ('0' <= c && c <= '9') || c == '+'
            || c == '-' || c == '.') {
            assert(!is_scheme_char(reference@.take(colon as int)[j as int]));
            return false;
        }
        j = j + 1;
    }
    true
}

/// `p` starts with a drive such as `C:`: a letter and a colon.
pub open spec fn drive_shape(p: Seq<char>) -> bool {
    p.len() >= 2 && p[1] == ':' && is_ascii_alpha(p[0])
}

/// The shapes a path can have where some platform sees a root or a prefix at
/// its start: a leading separator (`/`, or `\` on Windows), or a Windows
/// prefix, which either starts with `\` or is a drive such as `C:`.
pub open spec fn rooted_shape(p: Seq<char>) -> bool {
    p.len() > 0 && (p[0] == '/' || p[0] == '\\' || drive_shape(p))
}

/// Whether `std::path::Path` sees a root or a prefix at the start of `raw`.
/// On every platform a leading `/` is a root; the documented prefixes
/// (`\\?\..`, `\\.\..`, `\\server\share`, and a drive letter such as
/// `C:`) and root separators all have a [`rooted_shape`]. Which of those shapes the platform counts is not
/// stated.
#[verifier::external_body]
fn path_is_rooted(raw: &str) -> (r: bool)
    ensures
        raw@.len() > 0 && raw@[0] == '/' ==> r,
        r ==> rooted_shape(raw@),
{
    std::path::Path::new(raw).components().next().is_some_and(
        |component| matches!(component, std::path::Component::Prefix(_) | std::path::Component::RootDir),
    )
}

/// `raw_path` is absolute: it starts with `/`, or the platform sees a root or
/// a prefix at its start (which only a [`rooted_shape`] can have).
pub fn is_absolute_path(raw_path: &Vec<char>) -> (r: bool)
    ensures
        raw_path@.len() > 0 && raw_path@[0] == '/' ==> r,
        r ==> rooted_shape(raw_path@),
{
    if raw_path.len() > 0 && raw_path[0] == '/' {
        return true;
    }
    path_is_rooted(string_of(raw_path).as_str())
}

/// The reasons a local reference is rejected that do not depend on the
/// platform: a query, a `;` or `\` in the path, a `..` segment, a leading `/`,
/// a leading `//` or a scheme.
pub open spec fn rejects_local(raw_reference: Seq<char>, raw_path: Seq<char>) -> bool {
    ||| holds_char(raw_reference, '?')
    ||| holds_char(raw_path, ';')
    ||| holds_char(raw_path, '\\')
    ||| split_slash(raw_path).contains(".."@)
    ||| (raw_path.len() > 0 && raw_path[0] == '/')
    ||| (raw_reference.len() >= 2 && raw_reference[0] == '/' && raw_reference[1] == '/')
    ||| has_scheme(raw_reference)
}

/// Whether a reference could leave the local base directory.
pub fn rejects_local_reference(raw_reference: &Vec<char>, raw_path: &Vec<char>) -> (r: bool)
    ensures
        rejects_local(raw_reference@, raw_path@) ==> r,
        r ==> rejects_local(raw_reference@, raw_path@) || drive_shape(raw_path@),
{
    if has_char(raw_reference, '?') || has_char(raw_path, ';') || has_char(raw_path, '\\') {
        return true;
    }
    let segments = split_segments(raw_path);
    let dots = chars_of("..");
    let mut i: usize = 0;
    while i < segments.len()
        invariant
            0 <= i <= segments@.len(),
            dots@ == ".."@,
            segments@.map_values(|x: Vec<char>| x@) == split_slash(raw_path@),
            forall|k: int| 0 <= k < i ==> segments@[k]@ != ".."@,
        decreases segments@.len() - i,
    {
        if crate::text::chars_eq(segments[i].as_slice(), dots.as_slice()) {
            assert(segments@.map_values(|x: Vec<char>| x@)[i as int] == ".."@);
            assert(split_slash(raw_path@).contains(".."@));
            return true;
        }
        i = i + 1;
    }
    proof {
        let v = segments@.map_values(|x: Vec<char>| x@);
        if v.contains(".."@) {
            let k = choose|k: int| 0 <= k < v.len() && v[k] == ".."@;
            assert(segments@[k]@ == ".."@);
        }
    }
    let double = raw_reference.len() >= 2 && raw_reference[0] == '/' && raw_reference[1] == '/';
    let absolute = is_absolute_path(raw_path);
    proof {
        if absolute && raw_path@[0] == '\\' {
            assert(holds_char(raw_path@, '\\'));
        }
    }
    absolute || double || has_uri_scheme(raw_reference)
}

/// A reference whose part before the query starts with a drive such as `C:`
/// starts with a one-letter scheme.
proof fn lemma_drive_is_scheme(raw_reference: Seq<char>)
    requires
        drive_shape(before_query(raw_reference)),
    ensures
        has_scheme(raw_reference),
{
    lemma_first_index_of(raw_reference, '?');
    let p = before_query(raw_reference);
    assert(p[0] == raw_reference[0] && p[1] == raw_reference[1]);
    lemma_first_index_of(raw_reference, ':');
    assert(first_index_of(raw_reference, ':') == Some(1int));
}

// ---------------------------------------------------------------------------
// Dot segments

/// The segments left after walking `segs`: empty and `.` segments drop out,
/// `..` removes the segment before it (if any), every other one stays.
pub open spec fn dot_fold(segs: Seq<Seq<char>>) -> Seq<Seq<char>>
    decreases segs.len(),
{
    if segs.len() == 0 {
        seq![]
    } else {
        let out = dot_fold(segs.drop_last());
        let s = segs.last();
        if s.len() == 0 || s == "."@ {
            out
        } else if s == ".."@ {
            if out.len() > 0 {
                out.drop_last()
            } else {
                out
            }
        } else {
            out.push(s)
        }
    }
}

/// The segments that remain after removing dot segments are all proper:
/// none is empty, `.` or `..`.
pub proof fn lemma_dot_fold_clean(segs: Seq<Seq<char>>)
    ensures
        forall|k: int|
            0 <= k < dot_fold(segs).len() ==> {
                let s = #[trigger] dot_fold(segs)[k];
                s.len() > 0 && s != "."@ && s != ".."@
            },
    decreases segs.len(),
{
    if segs.len() > 0 {
        lemma_dot_fold_clean(segs.drop_last());
        let out = dot_fold(segs.drop_last());
        assert forall|k: int| 0 <= k < dot_fold(segs).len() implies {
            let s = #[trigger] dot_fold(segs)[k];
            s.len() > 0 && s != "."@ && s != ".."@
        } by {
            if k < out.len() {
                assert(out[k].len() > 0 && out[k] != "."@ && out[k] != ".."@);
            }
        }
    }
}

/// Segments joined by `/`.
pub open spec fn join_slash(parts: Seq<Seq<char>>) -> Seq<char>
    decreases parts.len(),
{
    if parts.len() == 0 {
        seq![]
    } else if parts.len() == 1 {
        parts[0]
    } else {
        join_slash(parts.drop_last()) + seq!['/'] + parts.last()
    }
}

/// `path` with its dot segments removed: its kept segments joined by `/`,
/// a leading `/` kept, and a trailing `/` kept (or added where the path ends
/// in `/.` or `/..`).
pub open spec fn without_dot_segments(path: Seq<char>) -> Seq<char> {
    let absolute = path.len() > 0 && path[0] == '/';
    let trailing = crate::schema::ends_with(path, "/"@) || crate::schema::ends_with(path, "/."@)
        || crate::schema::ends_with(path, "/.."@);
    let body = (if absolute {
        seq!['/']
    } else {
        seq![]
    }) + join_slash(dot_fold(split_slash(path)));
    let body = if trailing && !(body.len() > 0 && body.last() == '/') {
        body.push('/')
    } else {
        body
    };
    if body.len() == 0 && absolute {
        seq!['/']
    } else {
        body
    }
}

/// Splitting at `/` a text made of `a`, a `/` and `b` gives the parts of `a`
/// followed by those of `b`.
pub(crate) proof fn lemma_split_slash_concat(a: Seq<char>, b: Seq<char>)
    ensures
        split_slash(a + seq!['/'] + b) == split_slash(a) + split_slash(b),
    decreases b.len(),
{
    let s = a + seq!['/'] + b;
    if b.len() == 0 {
        assert(s.drop_last() =~= a);
        assert(s.last() == '/');
        assert(split_slash(b) =~= seq![Seq::<char>::empty()]);
        assert(split_slash(s) == split_slash(a).push(seq![]));
        assert(split_slash(a).push(seq![]) =~= split_slash(a) + seq![Seq::<char>::empty()]);
    } else {
        lemma_split_slash_concat(a, b.drop_last());
        assert(s.drop_last() =~= a + seq!['/'] + b.drop_last());
        assert(s.last() == b.last());
        lemma_split_slash_nonempty(b.drop_last());
        let ra = split_slash(a);
        let rb = split_slash(b.drop_last());
        let r = split_slash(s.drop_last());
        assert(r == ra + rb);
        if b.last() == '/' {
            assert(split_slash(s) == r.push(seq![]));
            assert(split_slash(b) == rb.push(seq![]));
            assert(r.push(seq![]) =~= ra + rb.push(seq![]));
        } else {
            assert(split_slash(s) == r.update(r.len() - 1, r.last().push(b.last())));
            assert(split_slash(b) == rb.update(rb.len() - 1, rb.last().push(b.last())));
            assert(r.update(r.len() - 1, r.last().push(b.last())) =~= ra + rb.update(
                rb.len() - 1,
                rb.last().push(b.last()),
            ));
        }
    }
}

/// Splitting at `/` always gives at least one part.
proof fn lemma_split_slash_nonempty(s: Seq<char>)
    ensures
        split_slash(s).len() >= 1,
    decreases s.len(),
{
    if s.len() > 0 {
        lemma_split_slash_nonempty(s.drop_last());
    }
}

/// A text without `/` is a single part.
proof fn lemma_split_slash_single(t: Seq<char>)
    requires
        !t.contains('/'),
    ensures
        split_slash(t) == seq![t],
    decreases t.len(),
{
    if t.len() > 0 {
        assert(!t.drop_last().contains('/')) by {
            if t.drop_last().contains('/') {
                let k = choose|k: int| 0 <= k < t.drop_last().len() && t.drop_last()[k] == '/';
                assert(t[k] == '/');
            }
        }
        lemma_split_slash_single(t.drop_last());
        assert(t[t.len() - 1] != '/') by {
            if t[t.len() - 1] == '/' {
                assert(t.contains('/'));
            }
        }
        assert(t.drop_last().push(t.last()) =~= t);
        assert(seq![t.drop_last()].update(0, t.drop_last().push(t.last())) =~= seq![t]);
    } else {
        assert(t =~= Seq::<char>::empty());
    }
}

/// No part of a split at `/` holds `/`.
proof fn lemma_split_slash_parts(s: Seq<char>)
    ensures
        forall|k: int| 0 <= k < split_slash(s).len() ==> !(#[trigger] split_slash(s)[k]).contains('/'),
    decreases s.len(),
{
    if s.len() > 0 {
        lemma_split_slash_parts(s.drop_last());
        lemma_split_slash_nonempty(s.drop_last());
        let r = split_slash(s.drop_last());
        if s.last() != '/' {
            let x = r.last().push(s.last());
            assert(!x.contains('/')) by {
                if x.contains('/') {
                    let k = choose|k: int| 0 <= k < x.len() && x[k] == '/';
                    if k < r.last().len() {
                        assert(r[r.len() - 1][k] == '/');
                        assert(r[r.len() - 1].contains('/'));
                    }
                }
            }
            assert forall|k: int| 0 <= k < split_slash(s).len() implies !(#[trigger] split_slash(s)[k]).contains('/') by {
                if k < r.len() - 1 {
                    assert(split_slash(s)[k] == r[k]);
                }
            }
        } else {
            assert forall|k: int| 0 <= k < split_slash(s).len() implies !(#[trigger] split_slash(s)[k]).contains('/') by {
                if k < r.len() {
                    assert(split_slash(s)[k] == r[k]);
                } else {
                    assert(split_slash(s)[k] =~= Seq::<char>::empty());
                }
            }
        }
    }
}

/// Every segment kept by the fold is one of the segments it was given.
proof fn lemma_dot_fold_from(segs: Seq<Seq<char>>)
    ensures
        forall|k: int| 0 <= k < dot_fold(segs).len() ==> segs.contains(#[trigger] dot_fold(segs)[k]),
    decreases segs.len(),
{
    if segs.len() > 0 {
        lemma_dot_fold_from(segs.drop_last());
        let out = dot_fold(segs.drop_last());
        assert forall|k: int| 0 <= k < dot_fold(segs).len() implies segs.contains(#[trigger] dot_fold(segs)[k]) by {
            if k < out.len() {
                let x = out[k];
                assert(segs.drop_last().contains(x));
                let j = choose|j: int| 0 <= j < segs.drop_last().len() && segs.drop_last()[j] == x;
                assert(segs[j] == x);
            } else {
                assert(dot_fold(segs)[k] == segs.last());
                assert(segs[segs.len() - 1] == segs.last());
            }
        }
    }
}

/// Segments without `/` joined by `/` split back into the same segments.
proof fn lemma_split_join(parts: Seq<Seq<char>>)
    requires
        parts.len() >= 1,
        forall|k: int| 0 <= k < parts.len() ==> !(#[trigger] parts[k]).contains('/'),
    ensures
        split_slash(join_slash(parts)) == parts,
    decreases parts.len(),
{
    if parts.len() == 1 {
        lemma_split_slash_single(parts[0]);
        assert(parts =~= seq![parts[0]]);
    } else {
        lemma_split_join(parts.drop_last());
        assert(parts.last() == parts[parts.len() - 1]);
        lemma_split_slash_single(parts.last());
        lemma_split_slash_concat(join_slash(parts.drop_last()), parts.last());
        assert(parts.drop_last() + seq![parts.last()] =~= parts);
    }
}

/// Removing dot segments leaves no `.` or `..` segment: split at `/`, the
/// result holds neither.
pub proof fn lemma_no_dot_segments_left(path: Seq<char>)
    ensures
        forall|k: int|
            0 <= k < split_slash(without_dot_segments(path)).len() ==> {
                let s = #[trigger] split_slash(without_dot_segments(path))[k];
                s != "."@ && s != ".."@
            },
{
    reveal_strlit(".");
    reveal_strlit("..");
    let f = dot_fold(split_slash(path));
    lemma_split_slash_parts(path);
    lemma_dot_fold_from(split_slash(path));
    lemma_dot_fold_clean(split_slash(path));
    assert forall|k: int| 0 <= k < f.len() implies !(#[trigger] f[k]).contains('/') by {
        assert(split_slash(path).contains(f[k]));
        let j = choose|j: int| 0 <= j < split_slash(path).len() && split_slash(path)[j] == f[k];
        assert(!split_slash(path)[j].contains('/'));
    }
    let j = join_slash(f);
    let absolute = path.len() > 0 && path[0] == '/';
    let q = without_dot_segments(path);
    // Every part of the result is empty or a kept segment.
    let parts = split_slash(q);
    assert(forall|k: int| 0 <= k < f.len() ==> (#[trigger] f[k]).len() > 0 && f[k] != "."@ && f[k] != ".."@);
    let ok = |x: Seq<char>| x.len() == 0 || f.contains(x);
    if f.len() > 0 {
        lemma_split_join(f);
    }
    let body = (if absolute {
        seq!['/']
    } else {
        seq![]
    }) + j;
    // The parts of the body.
    let body_parts = split_slash(body);
    assert(forall|k: int| 0 <= k < body_parts.len() ==> ok(#[trigger] body_parts[k])) by {
        if absolute {
            lemma_split_slash_concat(Seq::<char>::empty(), j);
            assert(body =~= Seq::<char>::empty() + seq!['/'] + j);
            if f.len() == 0 {
                assert(j =~= Seq::<char>::empty());
            }
        } else {
            assert(body =~= j);
            if f.len() == 0 {
                assert(j =~= Seq::<char>::empty());
            }
        }
        assert forall|k: int| 0 <= k < body_parts.len() implies ok(#[trigger] body_parts[k]) by {
            if absolute {
                if k == 0 {
                    assert(split_slash(Seq::<char>::empty()) =~= seq![Seq::<char>::empty()]);
                } else if f.len() > 0 {
                    assert(body_parts[k] == f[k - 1]);
                } else {
                    assert(split_slash(Seq::<char>::empty()) =~= seq![Seq::<char>::empty()]);
                }
            } else if f.len() > 0 {
                assert(body_parts[k] == f[k]);
            } else {
                assert(split_slash(Seq::<char>::empty()) =~= seq![Seq::<char>::empty()]);
            }
        }
    }
    // The result is the body, the body and a `/`, or `/`.
    assert forall|k: int| 0 <= k < parts.len() implies ok(#[trigger] parts[k]) by {
        if q =~= body {
        } else if q =~= body.push('/') {
            lemma_split_slash_concat(body, Seq::<char>::empty());
            assert(body.push('/') =~= body + seq!['/'] + Seq::<char>::empty());
            assert(split_slash(Seq::<char>::empty()) =~= seq![Seq::<char>::empty()]);
            if k < body_parts.len() {
                assert(parts[k] == body_parts[k]);
            }
        } else {
            assert(q =~= seq!['/']);
            lemma_split_slash_concat(Seq::<char>::empty(), Seq::<char>::empty());
            assert(seq!['/'] =~= Seq::<char>::empty() + seq!['/'] + Seq::<char>::empty());
            assert(split_slash(Seq::<char>::empty()) =~= seq![Seq::<char>::empty()]);
        }
    }
    assert forall|k: int| 0 <= k < parts.len() implies {
        let s = #[trigger] parts[k];
        s != "."@ && s != ".."@
    } by {
        assert(ok(parts[k]));
        if parts[k].len() > 0 {
            let i = choose|i: int| 0 <= i < f.len() && f[i] == parts[k];
            assert(f[i] != "."@ && f[i] != ".."@);
        }
    }
}

/// Removing dot segments keeps a leading `/`.
pub proof fn lemma_leading_slash_kept(path: Seq<char>)
    requires
        path.len() > 0,
        path[0] == '/',
    ensures
        without_dot_segments(path).len() > 0,
        without_dot_segments(path)[0] == '/',
{
    let body = seq!['/'] + join_slash(dot_fold(split_slash(path)));
    assert(body[0] == '/');
    assert(body.push('/')[0] == '/');
}

/// Folding proper segments keeps them all.
proof fn lemma_dot_fold_proper(f: Seq<Seq<char>>)
    requires
        forall|k: int| 0 <= k < f.len() ==> (#[trigger] f[k]).len() > 0 && f[k] != "."@ && f[k] != ".."@,
    ensures
        dot_fold(f) == f,
    decreases f.len(),
{
    if f.len() > 0 {
        lemma_dot_fold_proper(f.drop_last());
        assert(f.last() == f[f.len() - 1]);
        assert(f.drop_last().push(f.last()) =~= f);
    }
}

/// A leading empty segment folds away.
proof fn lemma_dot_fold_leading_empty(f: Seq<Seq<char>>)
    requires
        forall|k: int| 0 <= k < f.len() ==> (#[trigger] f[k]).len() > 0 && f[k] != "."@ && f[k] != ".."@,
    ensures
        dot_fold(seq![Seq::<char>::empty()] + f) == f,
    decreases f.len(),
{
    let g = seq![Seq::<char>::empty()] + f;
    if f.len() == 0 {
        assert(g.drop_last() =~= Seq::<Seq<char>>::empty());
        assert(g.last().len() == 0);
        assert(dot_fold(g.drop_last()) =~= Seq::<Seq<char>>::empty());
        assert(dot_fold(g) == dot_fold(g.drop_last()));
        assert(f =~= Seq::<Seq<char>>::empty());
    } else {
        assert forall|k: int| 0 <= k < f.drop_last().len() implies (#[trigger] f.drop_last()[k]).len() > 0
            && f.drop_last()[k] != "."@ && f.drop_last()[k] != ".."@ by {
            assert(f.drop_last()[k] == f[k]);
        }
        lemma_dot_fold_leading_empty(f.drop_last());
        assert(g.drop_last() =~= seq![Seq::<char>::empty()] + f.drop_last());
        assert(g.last() == f[f.len() - 1]);
        assert(f[f.len() - 1].len() > 0 && f[f.len() - 1] != "."@ && f[f.len() - 1] != ".."@);
        assert(dot_fold(g) == dot_fold(g.drop_last()).push(g.last()));
        assert(f.drop_last().push(f[f.len() - 1]) =~= f);
    }
}

/// The first and last characters of proper segments joined by `/` are not
/// `/`.
proof fn lemma_join_ends(f: Seq<Seq<char>>)
    requires
        f.len() >= 1,
        forall|k: int| 0 <= k < f.len() ==> (#[trigger] f[k]).len() > 0 && !f[k].contains('/'),
    ensures
        join_slash(f).len() > 0,
        join_slash(f)[0] != '/',
        join_slash(f).last() != '/',
    decreases f.len(),
{
    assert(f[0].len() > 0 && !f[0].contains('/'));
    assert(f[0][0] != '/') by {
        if f[0][0] == '/' {
            assert(f[0].contains('/'));
        }
    }
    let l = f[f.len() - 1];
    assert(l.len() > 0 && !l.contains('/'));
    assert(l[l.len() - 1] != '/') by {
        if l[l.len() - 1] == '/' {
            assert(l.contains('/'));
        }
    }
    if f.len() > 1 {
        lemma_join_ends(f.drop_last());
        let j = join_slash(f.drop_last()) + seq!['/'] + f.last();
        assert(j[0] == join_slash(f.drop_last())[0]);
        assert(j.last() == l.last());
    }
}

/// The last part of a text that ends with `/` and then `w`, where `w` holds
/// no `/`, is `w`.
proof fn lemma_split_slash_last(x: Seq<char>, w: Seq<char>)
    requires
        !w.contains('/'),
    ensures
        split_slash(x + seq!['/'] + w).last() == w,
{
    lemma_split_slash_concat(x, w);
    lemma_split_slash_single(w);
}

/// Removing dot segments twice is removing them once.
#[verifier::spinoff_prover]
#[verifier::rlimit(100)]
pub proof fn lemma_remove_dot_segments_idempotent(path: Seq<char>)
    ensures
        without_dot_segments(without_dot_segments(path)) == without_dot_segments(path),
{
    reveal_strlit(".");
    reveal_strlit("..");
    reveal_strlit("/");
    reveal_strlit("/.");
    reveal_strlit("/..");
    let f = dot_fold(split_slash(path));
    lemma_split_slash_parts(path);
    lemma_dot_fold_from(split_slash(path));
    lemma_dot_fold_clean(split_slash(path));
    assert forall|k: int| 0 <= k < f.len() implies !(#[trigger] f[k]).contains('/') by {
        assert(split_slash(path).contains(f[k]));
        let i = choose|i: int| 0 <= i < split_slash(path).len() && split_slash(path)[i] == f[k];
        assert(!split_slash(path)[i].contains('/'));
    }
    let j = join_slash(f);
    let q = without_dot_segments(path);
    lemma_no_dot_segments_left(path);
    lemma_dot_fold_proper(f);
    lemma_dot_fold_leading_empty(f);
    let empty = Seq::<char>::empty();
    assert(split_slash(empty) =~= seq![empty]);
    if f.len() > 0 {
        lemma_split_join(f);
        lemma_join_ends(f);
        // The parts of `q`, wherever its slashes stand, fold back to `f`.
        lemma_split_slash_concat(empty, j);
        lemma_split_slash_concat(j, empty);
        assert(seq!['/'] + j =~= empty + seq!['/'] + j);
        assert(j.push('/') =~= j + seq!['/'] + empty);
        let jj = seq!['/'] + j;
        lemma_split_slash_concat(jj, empty);
        assert(jj.push('/') =~= jj + seq!['/'] + empty);
        assert(split_slash(jj) =~= seq![empty] + f);
        assert(split_slash(j.push('/')) =~= f.push(empty));
        assert(split_slash(jj.push('/')) =~= (seq![empty] + f).push(empty));
        assert(dot_fold(f.push(empty)) == dot_fold(f));
        assert(dot_fold((seq![empty] + f).push(empty)) == dot_fold(seq![empty] + f));
        assert((seq![empty] + f).push(empty).drop_last() =~= seq![empty] + f);
        assert(f.push(empty).drop_last() =~= f);
        // `q` cannot end in `/.` or `/..`: its last part is a kept segment.
        let parts = split_slash(q);
        lemma_split_slash_nonempty(q);
        assert(!crate::schema::ends_with(q, "/."@)) by {
            if crate::schema::ends_with(q, "/."@) {
                let x = q.take(q.len() - 2);
                assert(q =~= x + seq!['/'] + "."@);
                assert(!"."@.contains('/'));
                lemma_split_slash_last(x, "."@);
                assert(parts[parts.len() - 1] == "."@);
            }
        }
        assert(!crate::schema::ends_with(q, "/.."@)) by {
            if crate::schema::ends_with(q, "/.."@) {
                let x = q.take(q.len() - 3);
                assert(q =~= x + seq!['/'] + ".."@);
                assert(!".."@.contains('/'));
                lemma_split_slash_last(x, ".."@);
                assert(parts[parts.len() - 1] == ".."@);
            }
        }
        assert(q.len() > 0 ==> (crate::schema::ends_with(q, "/"@) <==> q.last() == '/')) by {
            assert("/"@ =~= seq!['/']);
            if q.len() > 0 {
                assert(q.subrange(q.len() - 1, q.len() as int) =~= seq![q.last()]);
            }
        }
        assert(jj.push('/').last() == '/');
        assert(jj.last() == j.last());
        assert(j.push('/').last() == '/');
        assert(jj[0] == '/');
        assert(jj.push('/')[0] == '/');
        assert(j.push('/')[0] == j[0]);
    } else {
        assert(j =~= empty);
        assert(seq!['/'] =~= empty + seq!['/'] + empty);
        lemma_split_slash_concat(empty, empty);
        assert(split_slash(seq!['/']) =~= seq![empty, empty]);
        assert(dot_fold(seq![empty, empty]) =~= Seq::<Seq<char>>::empty()) by {
            assert(seq![empty, empty].drop_last() =~= seq![empty]);
            assert(seq![empty].drop_last() =~= Seq::<Seq<char>>::empty());
        }
        assert(dot_fold(seq![empty]) =~= Seq::<Seq<char>>::empty()) by {
            assert(seq![empty].drop_last() =~= Seq::<Seq<char>>::empty());
        }
        assert(crate::schema::ends_with(seq!['/'], "/"@)) by {
            assert(seq!['/'].subrange(0, 1) =~= "/"@);
        }
        assert(seq!['/'].push('/').len() == 2);
    }
}

/// `s` holds no two `/` in a row.
pub open spec fn no_double_slash(s: Seq<char>) -> bool {
    forall|i: int| 0 <= i && i + 1 < s.len() ==> !(#[trigger] s[i] == '/' && s[i + 1] == '/')
}

/// Proper segments joined by `/` hold no two `/` in a row.
proof fn lemma_join_no_double_slash(f: Seq<Seq<char>>)
    requires
        f.len() >= 1,
        forall|k: int| 0 <= k < f.len() ==> (#[trigger] f[k]).len() > 0 && !f[k].contains('/'),
    ensures
        no_double_slash(join_slash(f)),
    decreases f.len(),
{
    if f.len() == 1 {
        let t = f[0];
        assert forall|i: int| 0 <= i && i + 1 < join_slash(f).len() implies !(#[trigger] join_slash(f)[i] == '/'
            && join_slash(f)[i + 1] == '/') by {
            if t[i] == '/' {
                assert(t.contains('/'));
            }
        }
    } else {
        let front = f.drop_last();
        assert forall|k: int| 0 <= k < front.len() implies (#[trigger] front[k]).len() > 0 && !front[k].contains('/') by {
            assert(front[k] == f[k]);
        }
        lemma_join_no_double_slash(front);
        lemma_join_ends(front);
        let a = join_slash(front);
        let l = f[f.len() - 1];
        assert(l.len() > 0 && !l.contains('/'));
        let j = a + seq!['/'] + l;
        assert(join_slash(f) == j);
        assert forall|i: int| 0 <= i && i + 1 < j.len() implies !(#[trigger] j[i] == '/' && j[i + 1] == '/') by {
            if i + 1 < a.len() {
                assert(j[i] == a[i] && j[i + 1] == a[i + 1]);
            } else if i + 1 == a.len() {
                assert(j[i] == a.last());
            } else if i == a.len() {
                assert(j[i + 1] == l[0]);
                if l[0] == '/' {
                    assert(l.contains('/'));
                }
            } else {
                assert(j[i] == l[i - a.len() - 1]);
                if l[i - a.len() - 1] == '/' {
                    assert(l.contains('/'));
                }
            }
        }
    }
}

/// Removing dot segments leaves no two `/` in a row.
pub proof fn lemma_no_double_slash_left(path: Seq<char>)
    ensures
        no_double_slash(without_dot_segments(path)),
{
    let f = dot_fold(split_slash(path));
    lemma_split_slash_parts(path);
    lemma_dot_fold_from(split_slash(path));
    lemma_dot_fold_clean(split_slash(path));
    assert forall|k: int| 0 <= k < f.len() implies (#[trigger] f[k]).len() > 0 && !f[k].contains('/') by {
        assert(split_slash(path).contains(f[k]));
        let i = choose|i: int| 0 <= i < split_slash(path).len() && split_slash(path)[i] == f[k];
        assert(!split_slash(path)[i].contains('/'));
    }
    let j = join_slash(f);
    let q = without_dot_segments(path);
    if f.len() > 0 {
        lemma_join_no_double_slash(f);
        lemma_join_ends(f);
        let a = seq!['/'] + j;
        assert forall|i: int| 0 <= i && i + 1 < a.len() implies !(#[trigger] a[i] == '/' && a[i + 1] == '/') by {
            if i == 0 {
                assert(a[1] == j[0]);
            } else {
                assert(a[i] == j[i - 1] && a[i + 1] == j[i]);
            }
        }
        assert(a.last() == j.last());
        assert forall|i: int| 0 <= i && i + 1 < j.push('/').len() implies !(#[trigger] j.push('/')[i] == '/' && j.push(
            '/',
        )[i + 1] == '/') by {
            if i + 1 < j.len() {
                assert(j.push('/')[i] == j[i] && j.push('/')[i + 1] == j[i + 1]);
            } else {
                assert(j.push('/')[i] == j.last());
            }
        }
        assert forall|i: int| 0 <= i && i + 1 < a.push('/').len() implies !(#[trigger] a.push('/')[i] == '/' && a.push(
            '/',
        )[i + 1] == '/') by {
            if i + 1 < a.len() {
                assert(a.push('/')[i] == a[i] && a.push('/')[i + 1] == a[i + 1]);
            } else {
                assert(a.push('/')[i] == a.last());
            }
        }
    } else {
        assert(j =~= Seq::<char>::empty());
    }
}

/// Whether `s` ends with the word `w`.
fn ends_with_word(s: &Vec<char>, w: &'static str) -> (r: bool)
    ensures
        r == crate::schema::ends_with(s@, w@),
{
    let w = chars_of(w);
    if w.len() > s.len() {
        return false;
    }
    let start = s.len() - w.len();
    let tail = slice_chars(s, start, s.len());
    crate::text::chars_eq(tail.as_slice(), w.as_slice())
}

/// Removes the dot segments of a path.
pub fn remove_dot_segments(path: &Vec<char>) -> (r: Vec<char>)
    ensures
        r@ == without_dot_segments(path@),
{
    let segments = split_segments(path);
    let ghost segs = split_slash(path@);
    let dot = chars_of(".");
    let dots = chars_of("..");
    let mut output: Vec<Vec<char>> = Vec::new();
    let mut i: usize = 0;
    assert(segs.take(0) =~= Seq::<Seq<char>>::empty());
    while i < segments.len()
        invariant
            0 <= i <= segments@.len(),
            segments@.map_values(|x: Vec<char>| x@) == segs,
            dot@ == "."@,
            dots@ == ".."@,
            output@.map_values(|x: Vec<char>| x@) == dot_fold(segs.take(i as int)),
        decreases segments@.len() - i,
    {
        let ghost before = output@.map_values(|x: Vec<char>| x@);
        assert(segs.take(i + 1).drop_last() =~= segs.take(i as int));
        assert(segs.take(i + 1).last() == segments@[i as int]@);
        let segment = &segments[i];
        if segment.len() == 0 || crate::text::chars_eq(segment.as_slice(), dot.as_slice()) {
        } else if crate::text::chars_eq(segment.as_slice(), dots.as_slice()) {
            if output.len() > 0 {
                output.pop();
                assert(output@.map_values(|x: Vec<char>| x@) =~= before.drop_last());
            }
        } else {
            output.push(crate::graph::copy_chars(segment));
            assert(output@.map_values(|x: Vec<char>| x@) =~= before.push(segment@));
        }
        i = i + 1;
    }
    assert(segs.take(segments@.len() as int) =~= segs);
    let ghost kept = output@.map_values(|x: Vec<char>| x@);
    let absolute = path.len() > 0 && path[0] == '/';
    let trailing = ends_with_word(path, "/") || ends_with_word(path, "/.") || ends_with_word(path, "/..");
    let mut normalized: Vec<char> = Vec::new();
    if absolute {
        normalized.push('/');
    }
    let ghost prefix = normalized@;
    let mut k: usize = 0;
    while k < output.len()
        invariant
            0 <= k <= output@.len(),
            kept == output@.map_values(|x: Vec<char>| x@),
            normalized@ == prefix + join_slash(kept.take(k as int)),
        decreases output@.len() - k,
    {
        if k > 0 {
            normalized.push('/');
        }
        push_chars(&mut normalized, output[k].as_slice());
        proof {
            let next = kept.take(k + 1);
            assert(next.drop_last() =~= kept.take(k as int));
            assert(next.last() == output@[k as int]@);
            if k == 0 {
                assert(join_slash(next) == next[0]);
            }
        }
        k = k + 1;
    }
    assert(kept.take(output@.len() as int) =~= kept);
    if trailing && !(normalized.len() > 0 && normalized[normalized.len() - 1] == '/') {
        normalized.push('/');
    }
    if normalized.len() == 0 && absolute {
        normalized.push('/');
    }
    normalized
}

// ---------------------------------------------------------------------------
// Reference resolution

/// The parts of a URI reference as RFC 3986 parses it: whether it has a
/// scheme, whether it has an authority, its path and its query; `None` when
/// the text is not a URI reference.
pub uninterp spec fn uri_reference_parts(text: Seq<char>) -> Option<(bool, bool, Seq<char>, Option<Seq<char>>)>;

/// Parses `text` with `fluent_uri::UriRef::parse` and reports whether the
/// reference has a scheme and an authority, and its path and query text.
#[verifier::external_body]
fn uri_ref_parts(text: &str) -> (r: Option<(bool, bool, String, Option<String>)>)
    ensures
        match r {
            Some(p) => uri_reference_parts(text@) == Some((p.0, p.1, p.2@, match p.3 {
                Some(q) => Some(q@),
                None => None,
            })),
            None => uri_reference_parts(text@) is None,
        },
{
    let reference = fluent_uri::UriRef::parse(text).ok()?;
    Some((
        reference.scheme().is_some(),
        reference.authority().is_some(),
        reference.path().as_str().to_string(),
        reference.query().map(|query| query.as_str().to_string()),
    ))
}

/// `text` is an absolute URI as RFC 3986 defines it.
pub uninterp spec fn is_uri(text: Seq<char>) -> bool;

/// Whether `fluent_uri::Uri::parse` accepts `text`.
#[verifier::external_body]
fn parses_as_uri(text: &str) -> (r: bool)
    ensures
        r == is_uri(text@),
{
    fluent_uri::Uri::parse(text).is_ok()
}

/// The RFC 3986 resolution of `reference` against `base`; `None` where
/// either does not parse or the resolution fails.
pub uninterp spec fn resolution(reference: Seq<char>, base: Seq<char>) -> Option<Seq<char>>;

/// Resolves `reference` against `base` with
/// `fluent_uri::UriRef::resolve_against` and gives the result's text.
#[verifier::external_body]
fn resolve_against(reference: &str, base: &str) -> (r: Option<String>)
    ensures
        match r {
            Some(t) => resolution(reference@, base@) == Some(t@),
            None => resolution(reference@, base@) is None,
        },
{
    let reference = fluent_uri::UriRef::parse(reference).ok()?;
    let base = fluent_uri::Uri::parse(base).ok()?;
    reference.resolve_against(&base).ok().map(|uri| uri.to_string())
}

/// The directory of a base path: everything up to and including its last
/// `/`; empty where it has none.
pub open spec fn directory_of(path: Seq<char>) -> Seq<char>
    decreases path.len(),
{
    if path.len() == 0 {
        seq![]
    } else if path.last() == '/' {
        path
    } else {
        directory_of(path.drop_last())
    }
}

/// The relative resolution of a reference with parts `parts` (and text
/// `reference`) against a base that is not an absolute URI: a reference with
/// a scheme or authority stands as it is; otherwise the base's path and
/// query are merged in, and dot segments removed.
pub open spec fn relative_join(
    base: Seq<char>,
    parts: (bool, bool, Seq<char>, Option<Seq<char>>),
    reference: Seq<char>,
) -> Seq<char> {
    let (scheme, authority, ref_path, ref_query) = parts;
    if scheme || authority {
        reference
    } else {
        let base_path = before_query(base);
        let path = if ref_path.len() == 0 {
            base_path
        } else if ref_path[0] == '/' {
            without_dot_segments(ref_path)
        } else {
            without_dot_segments(directory_of(base_path) + ref_path)
        };
        let query = if ref_path.len() == 0 {
            match ref_query {
                Some(q) => Some(q),
                None => query_of(base),
            }
        } else {
            ref_query
        };
        match query {
            Some(q) => path + seq!['?'] + q,
            None => path,
        }
    }
}

/// The directory of a path.
fn directory(path: &Vec<char>) -> (r: Vec<char>)
    ensures
        r@ == directory_of(path@),
{
    let mut end: usize = path.len();
    assert(path@.take(end as int) =~= path@);
    while end > 0 && path[end - 1] != '/'
        invariant
            0 <= end <= path@.len(),
            directory_of(path@) == directory_of(path@.take(end as int)),
        decreases end,
    {
        assert(path@.take(end as int).drop_last() =~= path@.take(end - 1));
        end = end - 1;
    }
    let r = slice_chars(path, 0, end);
    assert(r@ =~= path@.take(end as int));
    r
}

/// Resolves a reference against a base that is not an absolute URI.
fn join_relative_reference(
    base_uri: &Vec<char>,
    parts: &(bool, bool, String, Option<String>),
    reference: &str,
) -> (r: Vec<char>)
    ensures
        r@ == relative_join(base_uri@, (parts.0, parts.1, parts.2@, match parts.3 {
            Some(q) => Some(q@),
            None => None,
        }), reference@),
{
    if parts.0 || parts.1 {
        return chars_of(reference);
    }
    let (base_path, base_query) = split_query(base_uri);
    let reference_path = chars_of(parts.2.as_str());
    let mut path = if reference_path.len() == 0 {
        base_path
    } else if reference_path[0] == '/' {
        remove_dot_segments(&reference_path)
    } else {
        let mut merged = directory(&base_path);
        push_chars(&mut merged, reference_path.as_slice());
        remove_dot_segments(&merged)
    };
    let query: Option<Vec<char>> = if reference_path.len() == 0 {
        match &parts.3 {
            Some(q) => Some(chars_of(q.as_str())),
            None => base_query,
        }
    } else {
        match &parts.3 {
            Some(q) => Some(chars_of(q.as_str())),
            None => None,
        }
    };
    match query {
        Some(q) => {
            path.push('?');
            push_chars(&mut path, q.as_slice());
        },
        None => {},
    }
    path
}

/// The resolution of `reference` against `base_uri`: the reference as it is
/// where it does not parse; its RFC 3986 resolution where the base (without
/// its fragment) is an absolute URI, or the reference where that fails; the
/// relative join otherwise.
pub open spec fn joined(base_uri: Seq<char>, reference: Seq<char>) -> Seq<char> {
    match uri_reference_parts(reference) {
        None => reference,
        Some(parts) => {
            let base = strip_fragment_of(base_uri);
            if is_uri(base) {
                match resolution(reference, base) {
                    Some(t) => t,
                    None => reference,
                }
            } else {
                relative_join(base, parts, reference)
            }
        },
    }
}

/// Resolves `reference` against `base_uri`.
pub fn join_reference(base_uri: &str, reference: &str) -> (r: Vec<char>)
    ensures
        r@ == joined(base_uri@, reference@),
{
    let parts = match uri_ref_parts(reference) {
        Some(parts) => parts,
        None => return chars_of(reference),
    };
    let base = strip_fragment(base_uri);
    let base_text = string_of(&base);
    if parses_as_uri(base_text.as_str()) {
        return match resolve_against(reference, base_text.as_str()) {
            Some(t) => chars_of(t.as_str()),
            None => chars_of(reference),
        };
    }
    join_relative_reference(&base, &parts, reference)
}

/// The reference a descriptor means by `reference`: resolved against its
/// `base_uri` when it has one, then without its fragment.
pub open spec fn effective_reference_of(d: Json, reference: Seq<char>) -> Seq<char> {
    let joined = match crate::json::str_of(crate::json::get(d, "base_uri"@)) {
        Some(base) => joined(base, reference),
        None => reference,
    };
    strip_fragment_of(joined)
}

/// The reference a descriptor means by `reference`.
pub fn effective_reference(descriptor: &Json, reference: &str) -> (r: String)
    ensures
        r@ == effective_reference_of(*descriptor, reference@),
{
    let joined = match crate::json::str_in(descriptor.get("base_uri")) {
        Some(base) => join_reference(base, reference),
        None => chars_of(reference),
    };
    let text = string_of(&joined);
    string_of(&strip_fragment(text.as_str()))
}

// ---------------------------------------------------------------------------
// Checks and reports

/// Three-state outcome for a content check.
#[derive(Debug, Clone, Copy, PartialEq, Eq, Structural)]
pub enum Outcome {
    /// The check proved the content did not match its descriptor claim.
    Failed,
    /// The check could not prove or disprove the descriptor claim.
    Unverifiable,
    /// The check proved the descriptor claim.
    Verified,
}

/// Content check category.
#[derive(Debug, Clone, Copy, PartialEq, Eq, Structural)]
pub enum CheckKind {
    /// Source capture bytes and `content_hash`.
    Capture,
    /// Citation markers in fetched Markdown content.
    Citations,
    /// Section content bytes and `content_hash`.
    ContentHash,
    /// Descriptor guide bytes and `guide_hash`.
    GuideHash,
    /// Quoted claim text in source captures.
    Quote,
    /// Provenance sidecar bytes and binding.
    Sidecar,
}

/// One content check and its three-state outcome.
#[derive(Debug, Clone, PartialEq, Eq)]
pub struct ContentCheck {
    /// Kind of content check performed.
    pub kind: CheckKind,
    /// JSON Pointer path to the descriptor field or object the check covers.
    pub path: String,
    /// Three-state check result.
    pub outcome: Outcome,
    /// Human-readable explanation of the result.
    pub detail: String,
    /// Fatal validation findings raised by the check.
    pub findings: Vec<Finding>,
    /// Non-fatal advisories raised by the check.
    pub warnings: Vec<Advisory>,
}

/// The value of a content check.
pub struct CheckView {
    pub kind: CheckKind,
    pub path: Seq<char>,
    pub outcome: Outcome,
    pub detail: Seq<char>,
    pub findings: Seq<FindingView>,
    pub warnings: Seq<AdvisoryView>,
}

impl View for ContentCheck {
    type V = CheckView;

    open spec fn view(&self) -> CheckView {
        CheckView {
            kind: self.kind,
            path: self.path@,
            outcome: self.outcome,
            detail: self.detail@,
            findings: finding_views(self.findings@),
            warnings: advisory_views(self.warnings@),
        }
    }
}

/// A check with no findings or warnings.
pub open spec fn plain_check(outcome: Outcome, kind: CheckKind, path: Seq<char>, detail: Seq<char>) -> CheckView {
    CheckView { kind, path, outcome, detail, findings: seq![], warnings: seq![] }
}

/// An unverifiable check that also warns with its detail.
pub open spec fn warning_view(kind: CheckKind, path: Seq<char>, detail: Seq<char>) -> CheckView {
    CheckView {
        kind,
        path,
        outcome: Outcome::Unverifiable,
        detail,
        findings: seq![],
        warnings: seq![AdvisoryView { path, message: detail }],
    }
}

/// A check with no findings or warnings.
pub fn check(outcome: Outcome, kind: CheckKind, path: &str, detail: &str) -> (c: ContentCheck)
    ensures
        c@ == plain_check(outcome, kind, path@, detail@),
{
    let c = ContentCheck {
        kind,
        path: path.to_string(),
        outcome,
        detail: detail.to_string(),
        findings: Vec::new(),
        warnings: Vec::new(),
    };
    assert(c@.findings =~= seq![]);
    assert(c@.warnings =~= seq![]);
    c
}

/// An unverifiable check whose detail is also a warning at its path.
pub fn warning_check(kind: CheckKind, path: &str, detail: &str) -> (c: ContentCheck)
    ensures
        c@ == warning_view(kind, path@, detail@),
{
    let mut warnings: Vec<Advisory> = Vec::new();
    warnings.push(Advisory { path: path.to_string(), message: detail.to_string() });
    let c = ContentCheck {
        kind,
        path: path.to_string(),
        outcome: Outcome::Unverifiable,
        detail: detail.to_string(),
        findings: Vec::new(),
        warnings,
    };
    assert(c@.findings =~= seq![]);
    assert(c@.warnings =~= seq![AdvisoryView { path: path@, message: detail@ }]);
    c
}

/// The findings of a list of checks, in order.
pub open spec fn all_findings(checks: Seq<CheckView>) -> Seq<FindingView>
    decreases checks.len(),
{
    if checks.len() == 0 {
        seq![]
    } else {
        all_findings(checks.drop_last()) + checks.last().findings
    }
}

/// The warnings of a list of checks, in order.
pub open spec fn all_warnings(checks: Seq<CheckView>) -> Seq<AdvisoryView>
    decreases checks.len(),
{
    if checks.len() == 0 {
        seq![]
    } else {
        all_warnings(checks.drop_last()) + checks.last().warnings
    }
}

/// The checks of a list with outcome `outcome`, in order.
pub open spec fn with_outcome_of(checks: Seq<CheckView>, outcome: Outcome) -> Seq<CheckView>
    decreases checks.len(),
{
    if checks.len() == 0 {
        seq![]
    } else if checks.last().outcome == outcome {
        with_outcome_of(checks.drop_last(), outcome).push(checks.last())
    } else {
        with_outcome_of(checks.drop_last(), outcome)
    }
}

/// The views of a list of checks.
pub open spec fn check_views(checks: Seq<ContentCheck>) -> Seq<CheckView> {
    checks.map_values(|c: ContentCheck| c@)
}

/// Aggregate result for opt-in content checks.
#[derive(Debug, Clone)]
pub struct ContentReport {
    /// Individual content checks in execution order.
    pub checks: Vec<ContentCheck>,
}

impl Default for ContentReport {
    fn default() -> (report: Self)
        ensures
            report.checks@.len() == 0,
    {
        ContentReport { checks: Vec::new() }
    }
}

impl ContentReport {
    /// Returns every fatal finding raised by the report's checks.
    pub fn findings(&self) -> (r: Vec<Finding>)
        ensures
            finding_views(r@) == all_findings(check_views(self.checks@)),
    {
        let ghost cv = check_views(self.checks@);
        let mut r: Vec<Finding> = Vec::new();
        let mut i: usize = 0;
        while i < self.checks.len()
            invariant
                0 <= i <= self.checks@.len(),
                cv == check_views(self.checks@),
                finding_views(r@) == all_findings(cv.take(i as int)),
            decreases self.checks@.len() - i,
        {
            assert(cv.take(i + 1).drop_last() =~= cv.take(i as int));
            let fs = &self.checks[i].findings;
            let ghost start = finding_views(r@);
            let mut j: usize = 0;
            while j < fs.len()
                invariant
                    0 <= j <= fs@.len(),
                    finding_views(r@) == start + finding_views(fs@).take(j as int),
                decreases fs@.len() - j,
            {
                let ghost before_r = r@;
                r.push(fs[j].duplicate());
                assert(finding_views(r@) =~= finding_views(before_r).push(fs@[j as int]@));
                assert(finding_views(fs@).take(j + 1) =~= finding_views(fs@).take(j as int).push(fs@[j as int]@));
                assert(finding_views(r@) =~= start + finding_views(fs@).take(j + 1));
                j = j + 1;
            }
            assert(finding_views(fs@).take(fs@.len() as int) =~= finding_views(fs@));
            assert(cv.take(i + 1).last() == self.checks@[i as int]@);
            i = i + 1;
        }
        assert(cv.take(self.checks@.len() as int) =~= cv);
        r
    }

    /// Returns every non-fatal advisory raised by the report's checks.
    pub fn warnings(&self) -> (r: Vec<Advisory>)
        ensures
            advisory_views(r@) == all_warnings(check_views(self.checks@)),
    {
        let ghost cv = check_views(self.checks@);
        let mut r: Vec<Advisory> = Vec::new();
        let mut i: usize = 0;
        while i < self.checks.len()
            invariant
                0 <= i <= self.checks@.len(),
                cv == check_views(self.checks@),
                advisory_views(r@) == all_warnings(cv.take(i as int)),
            decreases self.checks@.len() - i,
        {
            assert(cv.take(i + 1).drop_last() =~= cv.take(i as int));
            let ws = &self.checks[i].warnings;
            let ghost start = advisory_views(r@);
            let mut j: usize = 0;
            while j < ws.len()
                invariant
                    0 <= j <= ws@.len(),
                    advisory_views(r@) == start + advisory_views(ws@).take(j as int),
                decreases ws@.len() - j,
            {
                let ghost before_r = r@;
                r.push(ws[j].duplicate());
                assert(advisory_views(r@) =~= advisory_views(before_r).push(ws@[j as int]@));
                assert(advisory_views(ws@).take(j + 1) =~= advisory_views(ws@).take(j as int).push(ws@[j as int]@));
                assert(advisory_views(r@) =~= start + advisory_views(ws@).take(j + 1));
                j = j + 1;
            }
            assert(advisory_views(ws@).take(ws@.len() as int) =~= advisory_views(ws@));
            assert(cv.take(i + 1).last() == self.checks@[i as int]@);
            i = i + 1;
        }
        assert(cv.take(self.checks@.len() as int) =~= cv);
        r
    }

    /// Returns checks whose outcome equals `outcome`.
    pub fn with_outcome(&self, outcome: Outcome) -> (r: Vec<&ContentCheck>)
        ensures
            r@.map_values(|c: &ContentCheck| c@) == with_outcome_of(check_views(self.checks@), outcome),
    {
        let ghost cv = check_views(self.checks@);
        let mut r: Vec<&ContentCheck> = Vec::new();
        let mut i: usize = 0;
        while i < self.checks.len()
            invariant
                0 <= i <= self.checks@.len(),
                cv == check_views(self.checks@),
                r@.map_values(|c: &ContentCheck| c@) == with_outcome_of(cv.take(i as int), outcome),
            decreases self.checks@.len() - i,
        {
            assert(cv.take(i + 1).drop_last() =~= cv.take(i as int));
            assert(cv.take(i + 1).last() == self.checks@[i as int]@);
            let ghost before = r@.map_values(|c: &ContentCheck| c@);
            if self.checks[i].outcome == outcome {
                r.push(&self.checks[i]);
                assert(r@.map_values(|c: &ContentCheck| c@) =~= before.push(self.checks@[i as int]@));
            }
            i = i + 1;
        }
        assert(cv.take(self.checks@.len() as int) =~= cv);
        r
    }

    /// Returns true when no check failed and no fatal findings were raised.
    pub fn ok(&self) -> (ok: bool)
        ensures
            ok == (with_outcome_of(check_views(self.checks@), Outcome::Failed).len() == 0 && all_findings(
                check_views(self.checks@),
            ).len() == 0),
    {
        self.with_outcome(Outcome::Failed).len() == 0 && self.findings().len() == 0
    }
}

// ---------------------------------------------------------------------------
// SRI hashes

/// The hash algorithm this validator checks.
pub const SHA256_ALGORITHM: &'static str = "sha256";

/// The length of a SHA-256 digest in bytes.
pub const SHA256_LENGTH: usize = 32;

/// What strict standard base64 (canonical padding required, no trailing
/// bits) decodes `text` to; `None` where it rejects it.
pub uninterp spec fn strict_base64(text: Seq<char>) -> Option<Seq<u8>>;

/// Decodes `text` with a `base64` engine of the standard alphabet that
/// requires canonical padding and refuses trailing bits; the standard padded
/// encoding of any bytes is such a text, and decodes back to those bytes.
#[verifier::external_body]
fn strict_base64_decode(text: &str) -> (r: Option<Vec<u8>>)
    ensures
        match r {
            Some(bytes) => strict_base64(text@) == Some(bytes@),
            None => strict_base64(text@) is None,
        },
        forall|b: Seq<u8>| standard_base64(b) == text@ ==> r is Some && r->0@ == b,
{
    let config = base64::engine::GeneralPurposeConfig::new()
        .with_decode_padding_mode(base64::engine::DecodePaddingMode::RequireCanonical)
        .with_decode_allow_trailing_bits(false);
    let engine = base64::engine::GeneralPurpose::new(&base64::alphabet::STANDARD, config);
    base64::Engine::decode(&engine, text.as_bytes()).ok()
}

/// The standard padded base64 text of `bytes`.
pub uninterp spec fn standard_base64(bytes: Seq<u8>) -> Seq<char>;

/// Encodes `bytes` with `base64`'s `STANDARD` engine.
#[verifier::external_body]
fn standard_base64_encode(bytes: &[u8]) -> (r: String)
    ensures
        r@ == standard_base64(bytes@),
{
    base64::Engine::encode(&base64::engine::general_purpose::STANDARD, bytes)
}

/// The SHA-256 digest of `bytes`.
pub uninterp spec fn sha256_digest(bytes: Seq<u8>) -> Seq<u8>;

/// Hashes `bytes` with `sha2::Sha256`; the digest is 32 bytes long.
#[verifier::external_body]
fn sha256(bytes: &[u8]) -> (r: Vec<u8>)
    ensures
        r@ == sha256_digest(bytes@),
        r@.len() == SHA256_LENGTH,
{
    <sha2::Sha256 as sha2::Digest>::digest(bytes).to_vec()
}

/// The canonical SRI string of a digest: `sha256-` and its standard base64.
pub open spec fn canonical_sri(digest: Seq<u8>) -> Seq<char> {
    SHA256_ALGORITHM@ + "-"@ + standard_base64(digest)
}

/// The parts of a canonical SRI string: its first `-` follows the algorithm.
proof fn lemma_canonical_sri_parts(x: Seq<u8>)
    ensures
        first_index_of(canonical_sri(x), '-') == Some(6int),
        canonical_sri(x).take(6) == SHA256_ALGORITHM@,
        canonical_sri(x).skip(7) == standard_base64(x),
{
    reveal_strlit("sha256");
    reveal_strlit("-");
    let s = canonical_sri(x);
    lemma_first_index_of(s, '-');
    assert(s[6] == '-');
    assert forall|j: int| 0 <= j < 6 implies s[j] != '-' by {
        assert(s[j] == SHA256_ALGORITHM@[j]);
    }
    assert(s.take(6) =~= SHA256_ALGORITHM@);
    assert(s.skip(7) =~= standard_base64(x));
}

/// The expected digest an SRI string names, or the detail of why it cannot
/// be checked: no `-`; an algorithm other than `sha256`; a digest that strict
/// base64 rejects, that is not 32 bytes long, or whose canonical encoding is
/// not the text given.
pub open spec fn sri_parse(sri: Seq<char>) -> Result<Seq<u8>, Seq<char>> {
    match first_index_of(sri, '-') {
        None => Err("malformed SRI: expected '<algorithm>-<base64>'"@),
        Some(i) => {
            let algorithm = sri.take(i);
            let encoded = sri.skip(i + 1);
            if algorithm != SHA256_ALGORITHM@ {
                Err("unsupported hash algorithm: "@ + algorithm)
            } else {
                match strict_base64(encoded) {
                    None => Err("malformed sha256 digest"@),
                    Some(decoded) => if decoded.len() != SHA256_LENGTH {
                        Err("sha256 digest has wrong length"@)
                    } else if standard_base64(decoded) != encoded {
                        Err("non-canonical sha256 digest"@)
                    } else {
                        Ok(decoded)
                    },
                }
            }
        },
    }
}

/// Parses an SRI string; a failure is an unverifiable check that warns at
/// `path`.
pub fn parse_sri(kind: CheckKind, path: &str, sri: &str) -> (r: Result<Vec<u8>, ContentCheck>)
    ensures
        match r {
            Ok(bytes) => sri_parse(sri@) == Ok::<Seq<u8>, Seq<char>>(bytes@),
            Err(c) => sri_parse(sri@) matches Err(detail) && c@ == warning_view(kind, path@, detail),
        },
        forall|x: Seq<u8>| #[trigger] canonical_sri(x) == sri@ && x.len() == SHA256_LENGTH ==> (r is Ok && r->Ok_0@ == x),
{
    let text = chars_of(sri);
    let dash = match find_char(&text, '-') {
        Some(i) => i,
        None => {
            proof {
                assert forall|x: Seq<u8>| #[trigger] canonical_sri(x) == sri@ implies false by {
                    lemma_canonical_sri_parts(x);
                }
            }
            return Err(warning_check(kind, path, "malformed SRI: expected '<algorithm>-<base64>'"));
        },
    };
    assert(dash < text.len());
    let algorithm = slice_chars(&text, 0, dash);
    let encoded = slice_chars(&text, dash + 1, text.len());
    assert(algorithm@ =~= sri@.take(dash as int));
    assert(encoded@ =~= sri@.skip(dash + 1));
    let expected = chars_of(SHA256_ALGORITHM);
    proof {
        assert forall|x: Seq<u8>| #[trigger] canonical_sri(x) == sri@ implies dash == 6 && encoded@ == standard_base64(x)
            && algorithm@ == SHA256_ALGORITHM@ by {
            lemma_canonical_sri_parts(x);
        }
    }
    if !crate::text::chars_eq(algorithm.as_slice(), expected.as_slice()) {
        let mut detail: Vec<char> = Vec::new();
        push_str(&mut detail, "unsupported hash algorithm: ");
        push_chars(&mut detail, algorithm.as_slice());
        return Err(warning_check(kind, path, string_of(&detail).as_str()));
    }
    let encoded_text = string_of(&encoded);
    let decoded = match strict_base64_decode(encoded_text.as_str()) {
        Some(bytes) => bytes,
        None => {
            proof {
                assert forall|x: Seq<u8>| #[trigger] canonical_sri(x) == sri@ implies false by {
                    assert(encoded_text@ == standard_base64(x));
                }
            }
            return Err(warning_check(kind, path, "malformed sha256 digest"));
        },
    };
    proof {
        assert forall|x: Seq<u8>| #[trigger] canonical_sri(x) == sri@ implies decoded@ == x by {
            assert(encoded_text@ == standard_base64(x));
        }
    }
    if decoded.len() != SHA256_LENGTH {
        return Err(warning_check(kind, path, "sha256 digest has wrong length"));
    }
    let canonical = standard_base64_encode(decoded.as_slice());
    let canonical_chars = chars_of(canonical.as_str());
    if !crate::text::chars_eq(canonical_chars.as_slice(), encoded.as_slice()) {
        return Err(warning_check(kind, path, "non-canonical sha256 digest"));
    }
    Ok(decoded)
}

/// Whether two byte strings are equal.
fn bytes_eq(a: &[u8], b: &[u8]) -> (r: bool)
    ensures
        r == (a@ == b@),
{
    if a.len() != b.len() {
        return false;
    }
    let mut i: usize = 0;
    while i < a.len()
        invariant
            0 <= i <= a@.len(),
            a@.len() == b@.len(),
            forall|j: int| 0 <= j < i ==> a@[j] == b@[j],
        decreases a@.len() - i,
    {
        if a[i] != b[i] {
            return false;
        }
        i = i + 1;
    }
    assert(a@ =~= b@);
    true
}

/// The check of a payload against its expected digest.
pub open spec fn digest_check(kind: CheckKind, path: Seq<char>, payload: Seq<u8>, expected: Seq<u8>) -> CheckView {
    if sha256_digest(payload) == expected {
        plain_check(Outcome::Verified, kind, path, "sha256 digest matches"@)
    } else {
        plain_check(Outcome::Failed, kind, path, "sha256 digest mismatch"@)
    }
}

/// Compares a payload's SHA-256 digest with the expected one.
pub fn compare_sri(kind: CheckKind, path: &str, payload: &[u8], expected: &[u8]) -> (c: ContentCheck)
    ensures
        c@ == digest_check(kind, path@, payload@, expected@),
{
    let actual = sha256(payload);
    if bytes_eq(actual.as_slice(), expected) {
        check(Outcome::Verified, kind, path, "sha256 digest matches")
    } else {
        check(Outcome::Failed, kind, path, "sha256 digest mismatch")
    }
}

// ---------------------------------------------------------------------------
// The checks of a descriptor

/// The path of the descriptor's `guide_hash`.
pub open spec fn guide_path() -> Seq<char> {
    pointer_of(seq![Segment::Key("guide_hash")])
}

/// The path of source `index`.
pub open spec fn source_pointer(index: int) -> Seq<char> {
    pointer_of(seq![Segment::Key("sources"), Segment::Index(index as usize)])
}

/// The path of the `capture_uri` of source `index`.
pub open spec fn capture_uri_pointer(index: int) -> Seq<char> {
    pointer_of(seq![Segment::Key("sources"), Segment::Index(index as usize), Segment::Key("capture_uri")])
}

/// The path of the `content_hash` of source `index`.
pub open spec fn content_hash_pointer(index: int) -> Seq<char> {
    pointer_of(seq![Segment::Key("sources"), Segment::Index(index as usize), Segment::Key("content_hash")])
}

/// The path of the descriptor's `guide_hash`.
pub fn guide_hash_path() -> (p: String)
    ensures
        p@ == guide_path(),
{
    let segments = [Segment::Key("guide_hash")];
    let p = json_pointer(&segments);
    assert(segments@ =~= seq![Segment::Key("guide_hash")]);
    p
}

/// The path of source `index`.
pub fn source_path(index: usize) -> (p: String)
    ensures
        p@ == source_pointer(index as int),
{
    let segments = [Segment::Key("sources"), Segment::Index(index)];
    let p = json_pointer(&segments);
    assert(segments@ =~= seq![Segment::Key("sources"), Segment::Index(index)]);
    p
}

/// The path of the `capture_uri` of source `index`.
pub fn source_capture_uri_path(index: usize) -> (p: String)
    ensures
        p@ == capture_uri_pointer(index as int),
{
    let segments = [Segment::Key("sources"), Segment::Index(index), Segment::Key("capture_uri")];
    let p = json_pointer(&segments);
    assert(segments@ =~= seq![Segment::Key("sources"), Segment::Index(index), Segment::Key("capture_uri")]);
    p
}

/// The path of the `content_hash` of source `index`.
pub fn source_content_hash_path(index: usize) -> (p: String)
    ensures
        p@ == content_hash_pointer(index as int),
{
    let segments = [Segment::Key("sources"), Segment::Index(index), Segment::Key("content_hash")];
    let p = json_pointer(&segments);
    assert(segments@ =~= seq![Segment::Key("sources"), Segment::Index(index), Segment::Key("content_hash")]);
    p
}

/// A fetch result as the fetched bytes or the failure's reason.
pub open spec fn fetch_view(r: Result<Vec<u8>, Unfetchable>) -> Result<Seq<u8>, Seq<char>> {
    match r {
        Ok(bytes) => Ok(bytes@),
        Err(e) => Err(e.reason@),
    }
}

/// The views of a list of fetch results.
pub open spec fn fetch_views(results: Seq<Result<Vec<u8>, Unfetchable>>) -> Seq<Result<Seq<u8>, Seq<char>>> {
    results.map_values(|r: Result<Vec<u8>, Unfetchable>| fetch_view(r))
}

/// The URI the guide check fetches: the descriptor's `guide_uri` as it means
/// it, when its `guide_hash` is a checkable SRI string.
pub open spec fn guide_request_of(d: Json) -> Option<Seq<char>> {
    match crate::json::str_of(crate::json::get(d, "guide_hash"@)) {
        Some(h) => match sri_parse(h) {
            Ok(_) => match crate::json::str_of(crate::json::get(d, "guide_uri"@)) {
                Some(u) => Some(effective_reference_of(d, u)),
                None => None,
            },
            Err(_) => None,
        },
        None => None,
    }
}

/// The check of a fetch that failed with `reason`.
pub open spec fn unfetched_check(kind: CheckKind, path: Seq<char>, reason: Seq<char>) -> CheckView {
    plain_check(Outcome::Unverifiable, kind, path, unfetchable_message(reason))
}

/// The guide checks of a descriptor, given the result of the guide fetch
/// (when it made one): none without a `guide_hash` string; a warning for an
/// SRI string that cannot be checked; unverifiable without a `guide_uri` or
/// when the fetch failed; the digest comparison otherwise.
pub open spec fn guide_checks_of(d: Json, fetched: Option<Result<Seq<u8>, Seq<char>>>) -> Seq<CheckView> {
    match crate::json::str_of(crate::json::get(d, "guide_hash"@)) {
        None => seq![],
        Some(h) => match sri_parse(h) {
            Err(detail) => seq![warning_view(CheckKind::GuideHash, guide_path(), detail)],
            Ok(expected) => match crate::json::str_of(crate::json::get(d, "guide_uri"@)) {
                None => seq![
                    plain_check(Outcome::Unverifiable, CheckKind::GuideHash, guide_path(), "missing guide_uri"@),
                ],
                Some(_) => match fetched {
                    Some(Ok(payload)) => seq![digest_check(CheckKind::GuideHash, guide_path(), payload, expected)],
                    Some(Err(reason)) => seq![unfetched_check(CheckKind::GuideHash, guide_path(), reason)],
                    None => seq![],
                },
            },
        },
    }
}

/// A source of type `redacted`.
pub open spec fn is_redacted(m: Seq<(String, Json)>) -> bool {
    crate::json::str_of(member(m, "type"@)) == Some("redacted"@)
}

/// The capture check of a source fetches its `capture_uri`.
pub open spec fn capture_fetches(m: Seq<(String, Json)>) -> bool {
    !is_redacted(m) && crate::json::str_of(member(m, "capture_uri"@)) is Some
}

/// The checks of source `index` with members `m`, given the result of its
/// capture fetch (when it made one).
pub open spec fn source_checks_of(
    index: int,
    m: Seq<(String, Json)>,
    fetched: Option<Result<Seq<u8>, Seq<char>>>,
) -> Seq<CheckView> {
    let hash_path = content_hash_pointer(index);
    let uri_path = capture_uri_pointer(index);
    let capture = crate::json::str_of(member(m, "capture_uri"@));
    let hash = crate::json::str_of(member(m, "content_hash"@));
    if is_redacted(m) {
        if capture is Some || hash is Some {
            seq![plain_check(Outcome::Unverifiable, CheckKind::Capture, source_pointer(index), "redacted source"@)]
        } else {
            seq![]
        }
    } else {
        match capture {
            None => match hash {
                None => seq![],
                Some(h) => match sri_parse(h) {
                    Ok(_) => seq![
                        plain_check(Outcome::Unverifiable, CheckKind::Capture, hash_path, "missing capture_uri"@),
                    ],
                    Err(detail) => seq![warning_view(CheckKind::Capture, hash_path, detail)],
                },
            },
            Some(_) => match hash {
                Some(h) => match sri_parse(h) {
                    Ok(expected) => match fetched {
                        Some(Ok(payload)) => seq![digest_check(CheckKind::Capture, hash_path, payload, expected)],
                        Some(Err(reason)) => seq![unfetched_check(CheckKind::Capture, hash_path, reason)],
                        None => seq![],
                    },
                    Err(detail) => seq![warning_view(CheckKind::Capture, hash_path, detail)] + match fetched {
                        Some(Err(reason)) => seq![unfetched_check(CheckKind::Capture, uri_path, reason)],
                        _ => seq![],
                    },
                },
                None => match fetched {
                    Some(Err(reason)) => seq![unfetched_check(CheckKind::Capture, uri_path, reason)],
                    _ => seq![],
                },
            },
        }
    }
}

/// The capture fetches of the sources of `list`: each fetching source's
/// `capture_uri` as the descriptor means it, in order.
pub open spec fn capture_requests_of(d: Json, list: Seq<(int, Seq<(String, Json)>)>) -> Seq<Seq<char>>
    decreases list.len(),
{
    if list.len() == 0 {
        seq![]
    } else {
        let m = list.last().1;
        let rest = capture_requests_of(d, list.drop_last());
        if capture_fetches(m) {
            rest.push(effective_reference_of(d, crate::json::str_of(member(m, "capture_uri"@))->0))
        } else {
            rest
        }
    }
}

/// The capture checks of the sources of `list`, each fetching source taking
/// the next of `results` in order.
pub open spec fn capture_checks_of(
    list: Seq<(int, Seq<(String, Json)>)>,
    results: Seq<Result<Seq<u8>, Seq<char>>>,
) -> Seq<CheckView>
    decreases list.len(),
{
    if list.len() == 0 {
        seq![]
    } else {
        let (i, m) = list.last();
        if capture_fetches(m) {
            capture_checks_of(list.drop_last(), results.drop_last()) + source_checks_of(i, m, Some(results.last()))
        } else {
            capture_checks_of(list.drop_last(), results) + source_checks_of(i, m, None)
        }
    }
}

/// The URIs the content checks of a descriptor fetch, in order: the guide's,
/// each source capture's, then the content of each section that is Markdown
/// or has a checkable `content_hash`.
pub open spec fn content_requests_of(d: Json) -> Seq<Seq<char>> {
    (match guide_request_of(d) {
        Some(u) => seq![u],
        None => seq![],
    }) + capture_requests_of(d, crate::shape::listed(crate::json::get(d, "sources"@)))
        + crate::cite_check::section_requests_of(d, crate::shape::listed(crate::json::get(d, "sections"@)))
}

/// The fetch results that follow the guide's.
pub open spec fn after_guide(d: Json, results: Seq<Result<Seq<u8>, Seq<char>>>) -> Seq<Result<Seq<u8>, Seq<char>>> {
    if guide_request_of(d) is Some {
        results.skip(1)
    } else {
        results
    }
}

/// The results of the capture fetches.
pub open spec fn capture_results(d: Json, results: Seq<Result<Seq<u8>, Seq<char>>>) -> Seq<
    Result<Seq<u8>, Seq<char>>,
> {
    after_guide(d, results).take(
        capture_requests_of(d, crate::shape::listed(crate::json::get(d, "sources"@))).len() as int,
    )
}

/// The results of the section content fetches.
pub open spec fn section_results(d: Json, results: Seq<Result<Seq<u8>, Seq<char>>>) -> Seq<
    Result<Seq<u8>, Seq<char>>,
> {
    after_guide(d, results).skip(
        capture_requests_of(d, crate::shape::listed(crate::json::get(d, "sources"@))).len() as int,
    )
}

/// The content checks of a descriptor, given the results of its fetches in
/// the order of [`content_requests_of`] and its fetched sidecars in the order
/// of [`crate::sidecar::sidecar_requests_of`]: the guide's, each source
/// capture's, each section's `content_hash` and citations, each section's
/// sidecar, then
/// a quote check for each claim quote of each section, inline claims first,
/// then those of the fetched sidecars.
pub open spec fn content_checks_of(
    d: Json,
    results: Seq<Result<Seq<u8>, Seq<char>>>,
    sidecars: Seq<Result<(Seq<u8>, Option<Json>), Seq<char>>>,
) -> Seq<CheckView> {
    let sources = crate::shape::listed(crate::json::get(d, "sources"@));
    let sections = crate::shape::listed(crate::json::get(d, "sections"@));
    guide_checks_of(
        d,
        if guide_request_of(d) is Some {
            Some(results[0])
        } else {
            None
        },
    ) + capture_checks_of(sources, capture_results(d, results)) + crate::cite_check::citation_checks_of(
        d,
        sections,
        section_results(d, results),
    ) + crate::sidecar::sidecar_checks_of(d, sections, sidecars) + crate::quote::quote_checks_of(
        crate::quote::capture_table_of(sources, capture_results(d, results)),
        sections,
    ) + crate::quote::sidecar_quote_checks_of(
        crate::quote::capture_table_of(sources, capture_results(d, results)),
        sections,
        sidecars,
    )
}

/// An optional borrowed fetch result, as a value.
pub open spec fn opt_fetch(f: Option<&Result<Vec<u8>, Unfetchable>>) -> Option<Result<Seq<u8>, Seq<char>>> {
    match f {
        Some(r) => Some(fetch_view(*r)),
        None => None,
    }
}

/// The URI the guide check fetches.
fn guide_request(descriptor: &Json) -> (r: Option<String>)
    ensures
        match r {
            Some(u) => guide_request_of(*descriptor) == Some(u@),
            None => guide_request_of(*descriptor) is None,
        },
{
    let hash = match crate::json::str_in(descriptor.get("guide_hash")) {
        Some(h) => h,
        None => return None,
    };
    let path = guide_hash_path();
    match parse_sri(CheckKind::GuideHash, path.as_str(), hash) {
        Ok(_) => {},
        Err(_) => return None,
    }
    match crate::json::str_in(descriptor.get("guide_uri")) {
        Some(u) => Some(effective_reference(descriptor, u)),
        None => None,
    }
}

/// The message of a failed fetch.
pub(crate) fn unfetched(kind: CheckKind, path: &str, error: &Unfetchable) -> (c: ContentCheck)
    ensures
        c@ == unfetched_check(kind, path@, error.reason@),
{
    let message = error.message();
    check(Outcome::Unverifiable, kind, path, message.as_str())
}

/// The guide checks of a descriptor.
fn guide_checks(descriptor: &Json, fetched: Option<&Result<Vec<u8>, Unfetchable>>) -> (r: Vec<ContentCheck>)
    ensures
        check_views(r@) == guide_checks_of(*descriptor, opt_fetch(fetched)),
{
    let mut r: Vec<ContentCheck> = Vec::new();
    let hash = match crate::json::str_in(descriptor.get("guide_hash")) {
        Some(h) => h,
        None => {
            assert(check_views(r@) =~= seq![]);
            return r;
        },
    };
    let path = guide_hash_path();
    let expected = match parse_sri(CheckKind::GuideHash, path.as_str(), hash) {
        Ok(expected) => expected,
        Err(c) => {
            r.push(c);
            assert(check_views(r@) =~= seq![r@[0]@]);
            return r;
        },
    };
    match crate::json::str_in(descriptor.get("guide_uri")) {
        None => {
            r.push(check(Outcome::Unverifiable, CheckKind::GuideHash, path.as_str(), "missing guide_uri"));
        },
        Some(_) => match fetched {
            Some(Ok(payload)) => {
                r.push(compare_sri(CheckKind::GuideHash, path.as_str(), payload.as_slice(), expected.as_slice()));
            },
            Some(Err(error)) => {
                r.push(unfetched(CheckKind::GuideHash, path.as_str(), error));
            },
            None => {},
        },
    }
    assert(check_views(r@) =~= guide_checks_of(*descriptor, opt_fetch(fetched)));
    r
}

/// Whether a source is of type `redacted`.
pub(crate) fn redacted(source: &Vec<(String, Json)>) -> (r: bool)
    ensures
        r == is_redacted(source@),
{
    match crate::json::str_in(crate::json::member_of(source, "type")) {
        Some(t) => {
            let word = chars_of("redacted");
            crate::text::chars_eq(chars_of(t).as_slice(), word.as_slice())
        },
        None => false,
    }
}

/// The checks of source `index`.
fn source_checks(
    index: usize,
    source: &Vec<(String, Json)>,
    fetched: Option<&Result<Vec<u8>, Unfetchable>>,
) -> (r: Vec<ContentCheck>)
    ensures
        check_views(r@) == source_checks_of(index as int, source@, opt_fetch(fetched)),
{
    let mut r: Vec<ContentCheck> = Vec::new();
    let capture = crate::json::str_in(crate::json::member_of(source, "capture_uri"));
    let hash = crate::json::str_in(crate::json::member_of(source, "content_hash"));
    let hash_path = source_content_hash_path(index);
    if redacted(source) {
        if capture.is_some() || hash.is_some() {
            let path = source_path(index);
            r.push(check(Outcome::Unverifiable, CheckKind::Capture, path.as_str(), "redacted source"));
        }
        assert(check_views(r@) =~= source_checks_of(index as int, source@, opt_fetch(fetched)));
        return r;
    }
    match capture {
        None => match hash {
            None => {},
            Some(h) => match parse_sri(CheckKind::Capture, hash_path.as_str(), h) {
                Ok(_) => {
                    r.push(check(Outcome::Unverifiable, CheckKind::Capture, hash_path.as_str(), "missing capture_uri"));
                },
                Err(c) => {
                    r.push(c);
                },
            },
        },
        Some(_) => match hash {
            Some(h) => match parse_sri(CheckKind::Capture, hash_path.as_str(), h) {
                Ok(expected) => match fetched {
                    Some(Ok(payload)) => {
                        r.push(compare_sri(CheckKind::Capture, hash_path.as_str(), payload.as_slice(), expected.as_slice()));
                    },
                    Some(Err(error)) => {
                        r.push(unfetched(CheckKind::Capture, hash_path.as_str(), error));
                    },
                    None => {},
                },
                Err(c) => {
                    r.push(c);
                    match fetched {
                        Some(Err(error)) => {
                            let uri_path = source_capture_uri_path(index);
                            r.push(unfetched(CheckKind::Capture, uri_path.as_str(), error));
                        },
                        _ => {},
                    }
                },
            },
            None => match fetched {
                Some(Err(error)) => {
                    let uri_path = source_capture_uri_path(index);
                    r.push(unfetched(CheckKind::Capture, uri_path.as_str(), error));
                },
                _ => {},
            },
        },
    }
    assert(check_views(r@) =~= source_checks_of(index as int, source@, opt_fetch(fetched)));
    r
}

pub(crate) proof fn lemma_capture_requests_prefix(d: Json, list: Seq<(int, Seq<(String, Json)>)>, k: int)
    requires
        0 <= k <= list.len(),
    ensures
        capture_requests_of(d, list.take(k)).len() <= capture_requests_of(d, list).len(),
    decreases list.len() - k,
{
    if k < list.len() {
        lemma_capture_requests_prefix(d, list, k + 1);
        assert(list.take(k + 1).drop_last() =~= list.take(k));
    }
}

/// The URIs that the content checks of a descriptor fetch, in order.
pub fn content_requests(descriptor: &Json) -> (r: Vec<String>)
    ensures
        r@.map_values(|u: String| u@) == content_requests_of(*descriptor),
{
    let mut r: Vec<String> = Vec::new();
    match guide_request(descriptor) {
        Some(u) => {
            r.push(u);
        },
        None => {},
    }
    let ghost start = r@.map_values(|u: String| u@);
    let sources = crate::shape::indexed_objects(descriptor.get("sources"));
    let ghost l = crate::shape::listing(sources@);
    let mut i: usize = 0;
    while i < sources.len()
        invariant
            0 <= i <= sources@.len(),
            l == crate::shape::listing(sources@),
            r@.map_values(|u: String| u@) == start + capture_requests_of(*descriptor, l.take(i as int)),
        decreases sources@.len() - i,
    {
        assert(l.take(i + 1).drop_last() =~= l.take(i as int));
        assert(l.take(i + 1).last() == l[i as int]);
        let source = sources[i].1;
        let ghost before = r@.map_values(|u: String| u@);
        if !redacted(source) {
            match crate::json::str_in(crate::json::member_of(source, "capture_uri")) {
                Some(uri) => {
                    r.push(effective_reference(descriptor, uri));
                    assert(r@.map_values(|u: String| u@) =~= before.push(r@.last()@));
                },
                None => {},
            }
        }
        i = i + 1;
    }
    assert(l.take(sources@.len() as int) =~= l);
    crate::cite_check::push_section_requests(descriptor, &mut r);
    assert(r@.map_values(|u: String| u@) =~= content_requests_of(*descriptor));
    r
}

/// Runs the content checks of a descriptor on the results of its fetches,
/// one for each of [`content_requests`], in that order.
#[verifier::spinoff_prover]
#[verifier::rlimit(40)]
pub fn assemble_report(
    descriptor: &Json,
    fetched: &Vec<Result<Vec<u8>, Unfetchable>>,
    sidecars: &Vec<Result<(Vec<u8>, Option<Json>), Unfetchable>>,
) -> (report: ContentReport)
    requires
        fetched@.len() == content_requests_of(*descriptor).len(),
        sidecars@.len() == crate::sidecar::sidecar_requests_of(
            *descriptor,
            crate::shape::listed(crate::json::get(*descriptor, "sections"@)),
        ).len(),
    ensures
        check_views(report.checks@) == content_checks_of(
            *descriptor,
            fetch_views(fetched@),
            crate::sidecar::sidecar_views(sidecars@),
        ),
{
    let ghost results = fetch_views(fetched@);
    let guided = guide_request(descriptor).is_some();
    let base: usize = if guided { 1 } else { 0 };
    let mut checks = if guided {
        guide_checks(descriptor, Some(&fetched[0]))
    } else {
        guide_checks(descriptor, None)
    };
    let ghost guide_part = check_views(checks@);
    let sources = crate::shape::indexed_objects(descriptor.get("sources"));
    let ghost l = crate::shape::listing(sources@);
    let ghost rest = results.skip(base as int);
    proof {
        lemma_capture_requests_prefix(*descriptor, l, 0);
    }
    let mut cursor: usize = base;
    let mut i: usize = 0;
    assert(capture_requests_of(*descriptor, l.take(0)).len() == 0);
    assert(rest.take(0) =~= Seq::<Result<Seq<u8>, Seq<char>>>::empty());
    while i < sources.len()
        invariant
            0 <= i <= sources@.len(),
            l == crate::shape::listing(sources@),
            base == 0 || base == 1,
            results == fetch_views(fetched@),
            rest == results.skip(base as int),
            fetched@.len() >= base + capture_requests_of(*descriptor, l).len(),
            cursor == base + capture_requests_of(*descriptor, l.take(i as int)).len(),
            check_views(checks@) == guide_part + capture_checks_of(l.take(i as int), rest.take(cursor - base)),
        decreases sources@.len() - i,
    {
        assert(l.take(i + 1).drop_last() =~= l.take(i as int));
        assert(l.take(i + 1).last() == l[i as int]);
        let (index, source) = sources[i];
        let ghost before = check_views(checks@);
        proof {
            lemma_capture_requests_prefix(*descriptor, l, i + 1);
        }
        let fetches = !redacted(source) && crate::json::str_in(crate::json::member_of(source, "capture_uri")).is_some();
        let mut more = if fetches {
            assert(cursor < fetched.len());
            let part = source_checks(index, source, Some(&fetched[cursor]));
            assert(rest.take(cursor + 1 - base).drop_last() =~= rest.take(cursor - base));
            assert(rest.take(cursor + 1 - base).last() == fetch_view(fetched@[cursor as int]));
            cursor = cursor + 1;
            part
        } else {
            source_checks(index, source, None)
        };
        let ghost added = check_views(more@);
        checks.append(&mut more);
        assert(check_views(checks@) =~= before + added);
        i = i + 1;
    }
    assert(l.take(sources@.len() as int) =~= l);
    assert(results.skip(0) =~= results);
    assert(rest == after_guide(*descriptor, results));
    assert(rest.skip(cursor - base) =~= results.skip(cursor as int));
    let ghost capture_part = check_views(checks@);
    let mut cited = crate::cite_check::citation_checks(descriptor, fetched, cursor);
    let ghost cite_part = check_views(cited@);
    checks.append(&mut cited);
    let mut bound = crate::sidecar::sidecar_checks(descriptor, sidecars);
    let ghost sidecar_part = check_views(bound@);
    checks.append(&mut bound);
    let table = crate::quote::capture_table(descriptor, fetched, base);
    let mut quotes = crate::quote::quote_checks(descriptor, &table);
    let ghost quote_part = check_views(quotes@);
    checks.append(&mut quotes);
    let mut sidecar_quotes = crate::quote::sidecar_quote_checks(descriptor, &table, sidecars);
    let ghost sidecar_quote_part = check_views(sidecar_quotes@);
    checks.append(&mut sidecar_quotes);
    assert(check_views(checks@) =~= capture_part + cite_part + sidecar_part + quote_part + sidecar_quote_part);
    ContentReport { checks }
}

/// Runs the content checks of a descriptor on the results of its fetches,
/// given in the order of [`content_requests`], and on its fetched sidecars,
/// each as its bytes and its JSON value, given in the order of
/// [`crate::sidecar::sidecar_requests`]; `None` when either list does not
/// hold one result per request.
pub fn check_content_with(
    descriptor: &Json,
    fetched: &Vec<Result<Vec<u8>, Unfetchable>>,
    sidecars: &Vec<Result<(Vec<u8>, Option<Json>), Unfetchable>>,
) -> (report: Option<ContentReport>)
    ensures
        report is Some <==> fetched@.len() == content_requests_of(*descriptor).len() && sidecars@.len()
            == crate::sidecar::sidecar_requests_of(
            *descriptor,
            crate::shape::listed(crate::json::get(*descriptor, "sections"@)),
        ).len(),
        report matches Some(r) ==> check_views(r.checks@) == content_checks_of(
            *descriptor,
            fetch_views(fetched@),
            crate::sidecar::sidecar_views(sidecars@),
        ),
{
    let requests = content_requests(descriptor);
    let sidecar_uris = crate::sidecar::sidecar_requests(descriptor);
    assert(requests@.map_values(|u: String| u@).len() == requests@.len());
    assert(sidecar_uris@.map_values(|u: String| u@).len() == sidecar_uris@.len());
    if requests.len() != fetched.len() || sidecar_uris.len() != sidecars.len() {
        return None;
    }
    Some(assemble_report(descriptor, fetched, sidecars))
}

// ---------------------------------------------------------------------------
// Laws of the content checks

/// No check of `checks` failed.
pub open spec fn none_failed(checks: Seq<CheckView>) -> bool {
    forall|i: int| 0 <= i < checks.len() ==> (#[trigger] checks[i]).outcome != Outcome::Failed
}

/// Every fetch of `results` failed.
pub open spec fn all_unfetched(results: Seq<Result<Seq<u8>, Seq<char>>>) -> bool {
    forall|i: int| 0 <= i < results.len() ==> (#[trigger] results[i]) is Err
}

proof fn lemma_source_unfetched(index: int, m: Seq<(String, Json)>, fetched: Option<Result<Seq<u8>, Seq<char>>>)
    requires
        fetched matches Some(r) ==> r is Err,
    ensures
        none_failed(source_checks_of(index, m, fetched)),
{
}

proof fn lemma_captures_unfetched(
    d: Json,
    list: Seq<(int, Seq<(String, Json)>)>,
    results: Seq<Result<Seq<u8>, Seq<char>>>,
)
    requires
        all_unfetched(results),
        results.len() == capture_requests_of(d, list).len(),
    ensures
        none_failed(capture_checks_of(list, results)),
    decreases list.len(),
{
    if list.len() > 0 {
        let (i, m) = list.last();
        if capture_fetches(m) {
            assert(all_unfetched(results.drop_last())) by {
                assert forall|k: int| 0 <= k < results.drop_last().len() implies (
                #[trigger] results.drop_last()[k]) is Err by {
                    assert(results.drop_last()[k] == results[k]);
                }
            }
            assert(results.last() == results[results.len() - 1]);
            lemma_captures_unfetched(d, list.drop_last(), results.drop_last());
            lemma_source_unfetched(i, m, Some(results.last()));
        } else {
            lemma_captures_unfetched(d, list.drop_last(), results);
            lemma_source_unfetched(i, m, None);
        }
    }
}

/// A fetch failure never fails a check: when every fetch fails, no content
/// check fails; an unfetchable resource is only ever unverifiable.
pub proof fn lemma_unfetched_never_fails(
    d: Json,
    results: Seq<Result<Seq<u8>, Seq<char>>>,
    sidecars: Seq<Result<(Seq<u8>, Option<Json>), Seq<char>>>,
)
    requires
        all_unfetched(results),
        results.len() == content_requests_of(d).len(),
        forall|k: int| 0 <= k < sidecars.len() ==> (#[trigger] sidecars[k]) is Err,
        sidecars.len() == crate::sidecar::sidecar_requests_of(d, crate::shape::listed(crate::json::get(d, "sections"@))).len(),
    ensures
        none_failed(content_checks_of(d, results, sidecars)),
{
    let guided = guide_request_of(d) is Some;
    let sources = crate::shape::listed(crate::json::get(d, "sources"@));
    let sections = crate::shape::listed(crate::json::get(d, "sections"@));
    let rest = after_guide(d, results);
    let caps = capture_results(d, results);
    let secs = section_results(d, results);
    let n = capture_requests_of(d, sources).len();
    assert(all_unfetched(rest)) by {
        if guided {
            assert forall|i: int| 0 <= i < rest.len() implies (#[trigger] rest[i]) is Err by {
                assert(rest[i] == results[i + 1]);
            }
        }
    }
    assert(all_unfetched(caps)) by {
        assert forall|i: int| 0 <= i < caps.len() implies (#[trigger] caps[i]) is Err by {
            assert(caps[i] == rest[i]);
        }
    }
    assert(all_unfetched(secs)) by {
        assert forall|i: int| 0 <= i < secs.len() implies (#[trigger] secs[i]) is Err by {
            assert(secs[i] == rest[i + n]);
        }
    }
    if guided {
        assert(results[0] is Err);
    }
    lemma_captures_unfetched(d, sources, caps);
    crate::cite_check::lemma_citations_unfetched(d, sections, secs);
    crate::quote::lemma_table_unfetched(d, sources, caps);
    crate::quote::lemma_quotes_unfetched(crate::quote::capture_table_of(sources, caps), sections);
    let a = guide_checks_of(
        d,
        if guided {
            Some(results[0])
        } else {
            None
        },
    ) + capture_checks_of(sources, caps);
    crate::sidecar::lemma_sidecars_unfetched(d, sections, sidecars);
    let b = crate::cite_check::citation_checks_of(d, sections, secs) + crate::sidecar::sidecar_checks_of(
        d,
        sections,
        sidecars,
    );
    crate::quote::lemma_sidecar_quotes_unfetched(crate::quote::capture_table_of(sources, caps), sections, sidecars);
    let c1 = crate::quote::quote_checks_of(crate::quote::capture_table_of(sources, caps), sections);
    let c2 = crate::quote::sidecar_quote_checks_of(crate::quote::capture_table_of(sources, caps), sections, sidecars);
    let c = c1 + c2;
    assert forall|i: int| 0 <= i < c.len() implies (#[trigger] c[i]).outcome != Outcome::Failed by {
        if i >= c1.len() {
            assert(c[i] == c2[i - c1.len()]);
        } else {
            assert(c[i] == c1[i]);
        }
    }
    let b1 = crate::cite_check::citation_checks_of(d, sections, secs);
    let b2 = crate::sidecar::sidecar_checks_of(d, sections, sidecars);
    assert forall|i: int| 0 <= i < b.len() implies (#[trigger] b[i]).outcome != Outcome::Failed by {
        if i >= b1.len() {
            assert(b[i] == b2[i - b1.len()]);
        } else {
            assert(b[i] == b1[i]);
        }
    }
    assert(content_checks_of(d, results, sidecars) == a + b1 + b2 + c1 + c2);
    assert(a + b1 + b2 + c1 + c2 =~= a + b + c);
    assert forall|i: int| 0 <= i < (a + b + c).len() implies (#[trigger] (a + b + c)[i]).outcome != Outcome::Failed by {
        if i >= a.len() + b.len() {
            assert((a + b + c)[i] == c[i - a.len() - b.len()]);
        } else if i >= a.len() {
            assert((a + b + c)[i] == b[i - a.len()]);
        } else {
            assert((a + b + c)[i] == a[i]);
        }
    }
}

/// A redacted source is never fetched and never verified or failed: its
/// checks are all unverifiable.
pub proof fn lemma_redacted_unverifiable(index: int, m: Seq<(String, Json)>, fetched: Option<Result<Seq<u8>, Seq<char>>>)
    requires
        is_redacted(m),
    ensures
        !capture_fetches(m),
        forall|i: int|
            0 <= i < source_checks_of(index, m, fetched).len() ==> (#[trigger] source_checks_of(
                index,
                m,
                fetched,
            )[i]).outcome == Outcome::Unverifiable,
{
}

/// An SRI string that checks out is `sha256-` and the canonical base64 of a
/// 32-byte digest, which is what it names.
pub proof fn lemma_sri_canonical(sri: Seq<char>)
    requires
        sri_parse(sri) is Ok,
    ensures
        sri_parse(sri)->Ok_0.len() == SHA256_LENGTH,
        sri == SHA256_ALGORITHM@ + "-"@ + standard_base64(sri_parse(sri)->Ok_0),
{
    lemma_first_index_of(sri, '-');
    let i = first_index_of(sri, '-')->0;
    let decoded = sri_parse(sri)->Ok_0;
    assert(sri.take(i) == SHA256_ALGORITHM@);
    assert(standard_base64(decoded) == sri.skip(i + 1));
    reveal_strlit("-");
    assert(sri =~= sri.take(i) + "-"@ + sri.skip(i + 1));
}

/// No check of `checks` raises a finding.
pub open spec fn no_findings(checks: Seq<CheckView>) -> bool {
    forall|i: int| 0 <= i < checks.len() ==> (#[trigger] checks[i]).findings.len() == 0
}

proof fn lemma_captures_no_findings(list: Seq<(int, Seq<(String, Json)>)>, results: Seq<Result<Seq<u8>, Seq<char>>>)
    ensures
        no_findings(capture_checks_of(list, results)),
    decreases list.len(),
{
    if list.len() > 0 {
        let (i, m) = list.last();
        if capture_fetches(m) {
            lemma_captures_no_findings(list.drop_last(), results.drop_last());
        } else {
            lemma_captures_no_findings(list.drop_last(), results);
        }
    }
}

/// Only citation and sidecar checks raise findings: a hash problem or a
/// missing quote is a warning or a failed check, never an invalid
/// descriptor; a finding only ever reports an id in fetched content or a
/// fetched sidecar that names nothing declared or an entity of the wrong
/// kind.
pub proof fn lemma_only_references_raise_findings(
    d: Json,
    results: Seq<Result<Seq<u8>, Seq<char>>>,
    sidecars: Seq<Result<(Seq<u8>, Option<Json>), Seq<char>>>,
)
    ensures
        forall|i: int|
            0 <= i < content_checks_of(d, results, sidecars).len() && (#[trigger] content_checks_of(
                d,
                results,
                sidecars,
            )[i]).findings.len() > 0 ==> content_checks_of(d, results, sidecars)[i].kind == CheckKind::Citations
                || content_checks_of(d, results, sidecars)[i].kind == CheckKind::Sidecar,
{
    let guided = guide_request_of(d) is Some;
    let sources = crate::shape::listed(crate::json::get(d, "sources"@));
    let sections = crate::shape::listed(crate::json::get(d, "sections"@));
    let caps = capture_results(d, results);
    let secs = section_results(d, results);
    lemma_captures_no_findings(sources, caps);
    crate::cite_check::lemma_citation_checks_kind(d, sections, secs);
    crate::sidecar::lemma_sidecar_checks_kind(d, sections, sidecars);
    crate::quote::lemma_quotes_no_findings(crate::quote::capture_table_of(sources, caps), sections);
    let a = guide_checks_of(
        d,
        if guided {
            Some(results[0])
        } else {
            None
        },
    ) + capture_checks_of(sources, caps);
    let b1 = crate::cite_check::citation_checks_of(d, sections, secs);
    let b2 = crate::sidecar::sidecar_checks_of(d, sections, sidecars);
    crate::quote::lemma_sidecar_quotes_no_findings(crate::quote::capture_table_of(sources, caps), sections, sidecars);
    let c1 = crate::quote::quote_checks_of(crate::quote::capture_table_of(sources, caps), sections);
    let c2 = crate::quote::sidecar_quote_checks_of(crate::quote::capture_table_of(sources, caps), sections, sidecars);
    let c = c1 + c2;
    assert forall|i: int| 0 <= i < c.len() implies (#[trigger] c[i]).findings.len() == 0 by {
        if i >= c1.len() {
            assert(c[i] == c2[i - c1.len()]);
        } else {
            assert(c[i] == c1[i]);
        }
    }
    let all = a + b1 + b2 + c;
    assert(content_checks_of(d, results, sidecars) =~= all);
    assert forall|i: int| 0 <= i < all.len() && (#[trigger] all[i]).findings.len() > 0 implies all[i].kind
        == CheckKind::Citations || all[i].kind == CheckKind::Sidecar by {
        if i >= a.len() + b1.len() + b2.len() {
            assert(all[i] == c[i - a.len() - b1.len() - b2.len()]);
        } else if i >= a.len() + b1.len() {
            assert(all[i] == b2[i - a.len() - b1.len()]);
        } else if i >= a.len() {
            assert(all[i] == b1[i - a.len()]);
        } else {
            assert(all[i] == a[i]);
        }
    }
}

/// A check of the sections' content, sidecar or inline quote checks is a
/// check of the whole report.
proof fn lemma_content_parts(
    d: Json,
    results: Seq<Result<Seq<u8>, Seq<char>>>,
    sidecars: Seq<Result<(Seq<u8>, Option<Json>), Seq<char>>>,
    x: CheckView,
)
    requires
        crate::cite_check::citation_checks_of(
            d,
            crate::shape::listed(crate::json::get(d, "sections"@)),
            section_results(d, results),
        ).contains(x) || crate::sidecar::sidecar_checks_of(
            d,
            crate::shape::listed(crate::json::get(d, "sections"@)),
            sidecars,
        ).contains(x) || crate::quote::quote_checks_of(
            crate::quote::capture_table_of(
                crate::shape::listed(crate::json::get(d, "sources"@)),
                capture_results(d, results),
            ),
            crate::shape::listed(crate::json::get(d, "sections"@)),
        ).contains(x),
    ensures
        content_checks_of(d, results, sidecars).contains(x),
{
    let sources = crate::shape::listed(crate::json::get(d, "sources"@));
    let sections = crate::shape::listed(crate::json::get(d, "sections"@));
    let caps = capture_results(d, results);
    let a = guide_checks_of(
        d,
        if guide_request_of(d) is Some {
            Some(results[0])
        } else {
            None
        },
    ) + capture_checks_of(sources, caps);
    let b1 = crate::cite_check::citation_checks_of(d, sections, section_results(d, results));
    let b2 = crate::sidecar::sidecar_checks_of(d, sections, sidecars);
    let table = crate::quote::capture_table_of(sources, caps);
    let c1 = crate::quote::quote_checks_of(table, sections);
    let c2 = crate::quote::sidecar_quote_checks_of(table, sections, sidecars);
    let all = content_checks_of(d, results, sidecars);
    assert(all == a + b1 + b2 + c1 + c2);
    if b1.contains(x) {
        let t = choose|t: int| 0 <= t < b1.len() && b1[t] == x;
        assert(all[a.len() + t] == x);
    } else if b2.contains(x) {
        let t = choose|t: int| 0 <= t < b2.len() && b2[t] == x;
        assert(all[a.len() + b1.len() + t] == x);
    } else {
        let t = choose|t: int| 0 <= t < c1.len() && c1[t] == x;
        assert(all[a.len() + b1.len() + b2.len() + t] == x);
    }
}

/// Each section's content checks stand in the report, made against its own
/// fetch: given one result per request, a section whose content is fetched
/// has its `content_hash` check (and, for Markdown, its citation check) made
/// on the result at its position among the section requests; any other has
/// its `content_hash` check made without a fetch.
pub proof fn lemma_section_checks_reported(
    d: Json,
    results: Seq<Result<Seq<u8>, Seq<char>>>,
    sidecars: Seq<Result<(Seq<u8>, Option<Json>), Seq<char>>>,
    n: int,
)
    requires
        results.len() == content_requests_of(d).len(),
        0 <= n < crate::shape::listed(crate::json::get(d, "sections"@)).len(),
    ensures
        ({
            let l = crate::shape::listed(crate::json::get(d, "sections"@));
            let (i, m) = l[n];
            let fetched = section_results(d, results)[crate::cite_check::section_requests_of(d, l.take(n)).len() as int];
            &&& crate::cite_check::cites_checked(m) ==> forall|t: int|
                0 <= t < crate::cite_check::section_hash_checks_of(i, m, Some(fetched)).len() ==> content_checks_of(
                    d,
                    results,
                    sidecars,
                ).contains(#[trigger] crate::cite_check::section_hash_checks_of(i, m, Some(fetched))[t])
            &&& !crate::cite_check::cites_checked(m) ==> forall|t: int|
                0 <= t < crate::cite_check::section_hash_checks_of(i, m, None).len() ==> content_checks_of(
                    d,
                    results,
                    sidecars,
                ).contains(#[trigger] crate::cite_check::section_hash_checks_of(i, m, None)[t])
            &&& crate::cite_check::cites_checked(m) && crate::cite_check::markdown_section(m) ==> content_checks_of(
                d,
                results,
                sidecars,
            ).contains(crate::cite_check::citation_check_of(d, i, fetched))
        }),
{
    let l = crate::shape::listed(crate::json::get(d, "sections"@));
    let (i, m) = l[n];
    let secs = section_results(d, results);
    let k = crate::cite_check::section_requests_of(d, l.take(n)).len() as int;
    assert(secs.len() == crate::cite_check::section_requests_of(d, l).len());
    crate::cite_check::lemma_citation_checks_aligned(d, l, secs, n);
    if crate::cite_check::cites_checked(m) {
        let h = crate::cite_check::section_hash_checks_of(i, m, Some(secs[k]));
        assert forall|t: int| 0 <= t < h.len() implies content_checks_of(d, results, sidecars).contains(
            #[trigger] h[t],
        ) by {
            lemma_content_parts(d, results, sidecars, h[t]);
        }
        if crate::cite_check::markdown_section(m) {
            lemma_content_parts(d, results, sidecars, crate::cite_check::citation_check_of(d, i, secs[k]));
        }
    } else {
        let h = crate::cite_check::section_hash_checks_of(i, m, None);
        assert forall|t: int| 0 <= t < h.len() implies content_checks_of(d, results, sidecars).contains(
            #[trigger] h[t],
        ) by {
            lemma_content_parts(d, results, sidecars, h[t]);
        }
    }
}

/// Each section that names a sidecar has its sidecar check in the report,
/// made on its own fetched sidecar: given one sidecar per request, the one
/// at its position among the sidecar requests.
pub proof fn lemma_sidecar_check_reported(
    d: Json,
    results: Seq<Result<Seq<u8>, Seq<char>>>,
    sidecars: Seq<Result<(Seq<u8>, Option<Json>), Seq<char>>>,
    n: int,
)
    requires
        sidecars.len() == crate::sidecar::sidecar_requests_of(
            d,
            crate::shape::listed(crate::json::get(d, "sections"@)),
        ).len(),
        0 <= n < crate::shape::listed(crate::json::get(d, "sections"@)).len(),
        crate::sidecar::names_sidecar(crate::shape::listed(crate::json::get(d, "sections"@))[n].1),
    ensures
        ({
            let l = crate::shape::listed(crate::json::get(d, "sections"@));
            content_checks_of(d, results, sidecars).contains(
                crate::sidecar::sidecar_check_of(
                    d,
                    l[n].0,
                    l[n].1,
                    sidecars[crate::sidecar::sidecar_requests_of(d, l.take(n)).len() as int],
                ),
            )
        }),
{
    let l = crate::shape::listed(crate::json::get(d, "sections"@));
    crate::sidecar::lemma_sidecar_check_aligned(d, l, sidecars, n);
    lemma_content_parts(
        d,
        results,
        sidecars,
        crate::sidecar::sidecar_check_of(
            d,
            l[n].0,
            l[n].1,
            sidecars[crate::sidecar::sidecar_requests_of(d, l.take(n)).len() as int],
        ),
    );
}

/// Every inline claim quote stands in the report: claim `j` of the
/// `provenance` of section `i`, with a non-empty `locator.quote` and at least
/// one string among its `source_ids`, has the quote check of that quote
/// against the captures that the report fetched, at
/// `/sections/<i>/provenance/<j>/locator/quote`.
pub proof fn lemma_inline_quote_reported(
    d: Json,
    results: Seq<Result<Seq<u8>, Seq<char>>>,
    sidecars: Seq<Result<(Seq<u8>, Option<Json>), Seq<char>>>,
    sections: Vec<Json>,
    i: int,
    m: Vec<(String, Json)>,
    claims: Vec<Json>,
    j: int,
    c: Vec<(String, Json)>,
    q: Seq<char>,
)
    requires
        crate::json::get(d, "sections"@) == Some(Json::Array(sections)),
        0 <= i < sections@.len(),
        sections@[i] == Json::Object(m),
        crate::json::member(m@, "provenance"@) == Some(Json::Array(claims)),
        0 <= j < claims@.len(),
        claims@[j] == Json::Object(c),
        crate::quote::quote_text_of(c@) == Some(q),
        q.len() > 0,
        crate::quote::cited_ids_of(c@).len() > 0,
    ensures
        content_checks_of(d, results, sidecars).contains(
            crate::quote::quote_check_of(
                crate::quote::capture_table_of(
                    crate::shape::listed(crate::json::get(d, "sources"@)),
                    capture_results(d, results),
                ),
                crate::quote::quote_pointer(i, j, false),
                q,
                crate::quote::cited_ids_of(c@),
            ),
        ),
{
    let table = crate::quote::capture_table_of(
        crate::shape::listed(crate::json::get(d, "sources"@)),
        capture_results(d, results),
    );
    crate::quote::lemma_inline_claim_quote_checked(table, d, sections, i, m, claims, j, c, q);
    lemma_content_parts(
        d,
        results,
        sidecars,
        crate::quote::quote_check_of(table, crate::quote::quote_pointer(i, j, false), q, crate::quote::cited_ids_of(c@)),
    );
}

} // verus!
