//! Diagnostic model: JSON Pointer paths, findings, advisories and results.

use vstd::prelude::*;

use crate::catalog::{code_number, Code};
use crate::order::{
    chars_lt, compare_chars, lemma_chars_lt_irreflexive, lemma_chars_lt_total,
    lemma_chars_lt_transitive,
};
use crate::text::{chars_of, decimal, push_decimal, string_of};

verus! {

/// One segment in a JSON Pointer path.
#[derive(Debug, Clone, Copy, PartialEq, Eq)]
pub enum Segment<'a> {
    /// Object member key.
    Key(&'a str),
    /// Array index.
    Index(usize),
}

/// The RFC 6901 escape of one key character: `~` becomes `~0`, `/` becomes
/// `~1`, every other character stands for itself.
pub open spec fn escape_char(c: char) -> Seq<char> {
    if c == '~' {
        seq!['~', '0']
    } else if c == '/' {
        seq!['~', '1']
    } else {
        seq![c]
    }
}

/// The RFC 6901 escape of a member key.
pub open spec fn escape_key(key: Seq<char>) -> Seq<char>
    decreases key.len(),
{
    if key.len() == 0 {
        seq![]
    } else {
        escape_key(key.drop_last()) + escape_char(key.last())
    }
}

/// The reference token a segment contributes to a pointer.
pub open spec fn segment_token(segment: Segment) -> Seq<char> {
    match segment {
        Segment::Key(key) => escape_key(key@),
        Segment::Index(index) => decimal(index as nat),
    }
}

/// The JSON Pointer of a path: each segment's token preceded by `/`; the
/// empty path gives the empty pointer (the root).
pub open spec fn pointer_of(segments: Seq<Segment>) -> Seq<char>
    decreases segments.len(),
{
    if segments.len() == 0 {
        seq![]
    } else {
        pointer_of(segments.drop_last()) + seq!['/'] + segment_token(segments.last())
    }
}

/// The RFC 6901 unescape of a reference token: `~1` stands for `/`, `~0`
/// for `~`, every other character for itself.
pub open spec fn unescape_token(token: Seq<char>) -> Seq<char>
    decreases token.len(),
{
    if token.len() == 0 {
        seq![]
    } else if token.len() >= 2 && token[0] == '~' && token[1] == '1' {
        seq!['/'] + unescape_token(token.skip(2))
    } else if token.len() >= 2 && token[0] == '~' && token[1] == '0' {
        seq!['~'] + unescape_token(token.skip(2))
    } else {
        seq![token[0]] + unescape_token(token.skip(1))
    }
}

proof fn lemma_escape_key_front(c: char, rest: Seq<char>)
    ensures
        escape_key(seq![c] + rest) == escape_char(c) + escape_key(rest),
    decreases rest.len(),
{
    if rest.len() == 0 {
        assert(seq![c] + rest =~= seq![c]);
        assert(seq![c].drop_last() =~= Seq::<char>::empty());
        assert(escape_key(seq![c]) == escape_key(seq![c].drop_last()) + escape_char(c));
        assert(escape_key(seq![c]) =~= escape_char(c));
        assert(escape_char(c) + escape_key(rest) =~= escape_char(c));
    } else {
        lemma_escape_key_front(c, rest.drop_last());
        assert((seq![c] + rest).drop_last() =~= seq![c] + rest.drop_last());
        assert((seq![c] + rest).last() == rest.last());
        assert(escape_char(c) + escape_key(rest.drop_last()) + escape_char(rest.last()) =~= escape_char(c) + (
        escape_key(rest.drop_last()) + escape_char(rest.last())));
    }
}

/// A JSON Pointer reference token decodes back to its key: unescaping the
/// escape of any key gives the key itself.
pub proof fn lemma_unescape_escape(key: Seq<char>)
    ensures
        unescape_token(escape_key(key)) == key,
    decreases key.len(),
{
    if key.len() > 0 {
        let rest = key.skip(1);
        assert(key =~= seq![key[0]] + rest);
        lemma_escape_key_front(key[0], rest);
        lemma_unescape_escape(rest);
        let e = escape_char(key[0]) + escape_key(rest);
        if key[0] == '/' {
            assert(e.skip(2) =~= escape_key(rest));
        } else if key[0] == '~' {
            assert(e.skip(2) =~= escape_key(rest));
        } else {
            assert(e.skip(1) =~= escape_key(rest));
        }
    }
}

/// An escaped key never holds `/`: each segment of a pointer is one token.
pub proof fn lemma_escape_has_no_slash(key: Seq<char>)
    ensures
        !escape_key(key).contains('/'),
    decreases key.len(),
{
    if key.len() > 0 {
        lemma_escape_has_no_slash(key.drop_last());
        let e = escape_key(key);
        assert forall|i: int| 0 <= i < e.len() implies e[i] != '/' by {
            let front = escape_key(key.drop_last());
            if i < front.len() {
                assert(e[i] == front[i]);
            }
        }
    }
}

/// A decimal spelling never holds `/`.
proof fn lemma_decimal_has_no_slash(n: nat)
    ensures
        !crate::text::decimal(n).contains('/'),
    decreases n,
{
    if n >= 10 {
        lemma_decimal_has_no_slash(n / 10);
        let d = crate::text::decimal(n);
        let front = crate::text::decimal(n / 10);
        assert forall|i: int| 0 <= i < d.len() implies d[i] != '/' by {
            if i < front.len() {
                assert(d[i] == front[i]);
            }
        }
    }
}

/// A decimal spelling holds only the digits `0` to `9`.
proof fn lemma_decimal_digits(n: nat)
    ensures
        forall|i: int|
            0 <= i < crate::text::decimal(n).len() ==> '0' <= #[trigger] crate::text::decimal(n)[i] <= '9',
    decreases n,
{
    if n >= 10 {
        lemma_decimal_digits(n / 10);
        let d = crate::text::decimal(n);
        let front = crate::text::decimal(n / 10);
        assert forall|i: int| 0 <= i < d.len() implies '0' <= #[trigger] d[i] <= '9' by {
            if i < front.len() {
                assert(d[i] == front[i]);
            }
        }
    }
}

/// A token without `~` unescapes to itself.
proof fn lemma_unescape_plain(t: Seq<char>)
    requires
        !t.contains('~'),
    ensures
        unescape_token(t) == t,
    decreases t.len(),
{
    if t.len() > 0 {
        assert(t[0] != '~') by {
            if t[0] == '~' {
                assert(t.contains('~'));
            }
        }
        assert(!t.skip(1).contains('~')) by {
            if t.skip(1).contains('~') {
                let k = choose|k: int| 0 <= k < t.skip(1).len() && t.skip(1)[k] == '~';
                assert(t[k + 1] == '~');
            }
        }
        lemma_unescape_plain(t.skip(1));
        assert(seq![t[0]] + t.skip(1) =~= t);
    }
}

/// A pointer is empty exactly for the empty path, and otherwise starts with
/// `/`; the text after that `/` splits at `/` into the segments' tokens, one
/// per segment, and each token unescapes to its segment: the key itself, or
/// the index's decimal spelling.
pub proof fn lemma_pointer_tokens(segments: Seq<Segment>)
    ensures
        (pointer_of(segments).len() == 0) == (segments.len() == 0),
        segments.len() > 0 ==> pointer_of(segments)[0] == '/',
        segments.len() > 0 ==> crate::content::split_slash(pointer_of(segments).skip(1)) == segments.map_values(
            |g: Segment| segment_token(g),
        ),
        forall|k: int|
            0 <= k < segments.len() ==> unescape_token(segment_token(#[trigger] segments[k])) == match segments[k] {
                Segment::Key(key) => key@,
                Segment::Index(index) => crate::text::decimal(index as nat),
            },
    decreases segments.len(),
{
    if segments.len() > 0 {
        let front = segments.drop_last();
        lemma_pointer_tokens(front);
        let p = pointer_of(segments);
        assert(p == pointer_of(front) + seq!['/'] + segment_token(segments.last()));
        if front.len() == 0 {
            assert(pointer_of(front) =~= Seq::<char>::empty());
        }
        assert(p[0] == '/');
        lemma_pointer_splits(segments);
        crate::content::lemma_split_slash_concat(Seq::<char>::empty(), p.skip(1));
        assert(p =~= Seq::<char>::empty() + seq!['/'] + p.skip(1));
        assert(crate::content::split_slash(Seq::<char>::empty()) =~= seq![Seq::<char>::empty()]);
        let tokens = segments.map_values(|g: Segment| segment_token(g));
        assert((seq![Seq::<char>::empty()] + crate::content::split_slash(p.skip(1))).skip(1) =~= crate::content::split_slash(
            p.skip(1),
        ));
        assert((seq![Seq::<char>::empty()] + tokens).skip(1) =~= tokens);
    }
    assert forall|k: int| 0 <= k < segments.len() implies unescape_token(segment_token(#[trigger] segments[k]))
        == match segments[k] {
        Segment::Key(key) => key@,
        Segment::Index(index) => crate::text::decimal(index as nat),
    } by {
        match segments[k] {
            Segment::Key(key) => {
                lemma_unescape_escape(key@);
            },
            Segment::Index(index) => {
                lemma_decimal_digits(index as nat);
                let d = crate::text::decimal(index as nat);
                assert(!d.contains('~')) by {
                    if d.contains('~') {
                        let i = choose|i: int| 0 <= i < d.len() && d[i] == '~';
                        assert('0' <= d[i] <= '9');
                    }
                }
                lemma_unescape_plain(d);
            },
        }
    }
}

/// Splitting at `/` a text that ends with `/` and a part free of `/` gives
/// the parts of the text before, then that part.
proof fn lemma_split_slash_append(a: Seq<char>, t: Seq<char>)
    requires
        !t.contains('/'),
    ensures
        crate::content::split_slash(a + seq!['/'] + t) == crate::content::split_slash(a).push(t),
    decreases t.len(),
{
    let s = a + seq!['/'] + t;
    if t.len() == 0 {
        assert(s.drop_last() =~= a);
        assert(s.last() == '/');
        assert(t =~= Seq::<char>::empty());
        assert(crate::content::split_slash(s) == crate::content::split_slash(s.drop_last()).push(seq![]));
    } else {
        assert(s.drop_last() =~= a + seq!['/'] + t.drop_last());
        assert(!t.drop_last().contains('/')) by {
            if t.drop_last().contains('/') {
                let k = choose|k: int| 0 <= k < t.drop_last().len() && t.drop_last()[k] == '/';
                assert(t[k] == '/');
            }
        }
        lemma_split_slash_append(a, t.drop_last());
        assert(s.last() == t[t.len() - 1]);
        assert(t[t.len() - 1] != '/') by {
            if t[t.len() - 1] == '/' {
                assert(t.contains('/'));
            }
        }
        let r = crate::content::split_slash(s.drop_last());
        assert(r == crate::content::split_slash(a).push(t.drop_last()));
        assert(crate::content::split_slash(s) == r.update(r.len() - 1, r.last().push(s.last())));
        assert(t.drop_last().push(t[t.len() - 1]) =~= t);
        assert(r.update(r.len() - 1, r.last().push(s.last())) =~= crate::content::split_slash(a).push(t));
    }
}

/// A pointer splits back into its segments: split at `/`, it is an empty
/// part followed by the reference token of each segment, in order; and each
/// key's token unescapes to the key. So a pointer names the path it was made
/// from.
pub proof fn lemma_pointer_splits(segments: Seq<Segment>)
    ensures
        crate::content::split_slash(pointer_of(segments)) == seq![Seq::<char>::empty()] + segments.map_values(
            |g: Segment| segment_token(g),
        ),
        forall|k: int|
            0 <= k < segments.len() ==> (#[trigger] segments[k] matches Segment::Key(key) ==> unescape_token(
                segment_token(segments[k]),
            ) == key@),
    decreases segments.len(),
{
    if segments.len() == 0 {
        assert(crate::content::split_slash(pointer_of(segments)) =~= seq![Seq::<char>::empty()]);
        assert(seq![Seq::<char>::empty()] + segments.map_values(|g: Segment| segment_token(g)) =~= seq![
            Seq::<char>::empty(),
        ]);
    } else {
        let front = segments.drop_last();
        lemma_pointer_splits(front);
        let last = segments.last();
        match last {
            Segment::Key(key) => {
                lemma_escape_has_no_slash(key@);
            },
            Segment::Index(index) => {
                lemma_decimal_has_no_slash(index as nat);
            },
        }
        lemma_split_slash_append(pointer_of(front), segment_token(last));
        assert(seq![Seq::<char>::empty()] + segments.map_values(|g: Segment| segment_token(g)) =~= (seq![
            Seq::<char>::empty(),
        ] + front.map_values(|g: Segment| segment_token(g))).push(segment_token(last)));
        assert forall|k: int| 0 <= k < segments.len() implies (#[trigger] segments[k] matches Segment::Key(key)
            ==> unescape_token(segment_token(segments[k])) == key@) by {
            match segments[k] {
                Segment::Key(key) => {
                    lemma_unescape_escape(key@);
                },
                _ => {},
            }
        }
    }
}

/// Appends the escape of `key` to `out`.
fn push_escaped_key(out: &mut Vec<char>, key: &str)
    ensures
        final(out)@ == old(out)@ + escape_key(key@),
{
    let chars = chars_of(key);
    let mut i: usize = 0;
    while i < chars.len()
        invariant
            0 <= i <= chars@.len(),
            chars@ == key@,
            out@ == old(out)@ + escape_key(key@.subrange(0, i as int)),
        decreases chars@.len() - i,
    {
        let c = chars[i];
        if c == '~' {
            out.push('~');
            out.push('0');
        } else if c == '/' {
            out.push('~');
            out.push('1');
        } else {
            out.push(c);
        }
        proof {
            let next = key@.subrange(0, i + 1);
            assert(next.drop_last() =~= key@.subrange(0, i as int));
            assert(next.last() == c);
        }
        i = i + 1;
    }
    assert(key@.subrange(0, key@.len() as int) =~= key@);
}

/// Appends `/` and the token of `segment` to `out`.
pub fn push_segment(out: &mut Vec<char>, segment: Segment)
    ensures
        final(out)@ == old(out)@ + seq!['/'] + segment_token(segment),
{
    out.push('/');
    match segment {
        Segment::Key(key) => push_escaped_key(out, key),
        Segment::Index(index) => push_decimal(out, index),
    }
}

/// Appends the pointer of `segments` to `out`.
pub fn push_pointer(out: &mut Vec<char>, segments: &[Segment])
    ensures
        final(out)@ == old(out)@ + pointer_of(segments@),
{
    let mut i: usize = 0;
    while i < segments.len()
        invariant
            0 <= i <= segments@.len(),
            out@ == old(out)@ + pointer_of(segments@.subrange(0, i as int)),
        decreases segments@.len() - i,
    {
        push_segment(out, segments[i]);
        proof {
            let next = segments@.subrange(0, i + 1);
            assert(next.drop_last() =~= segments@.subrange(0, i as int));
        }
        i = i + 1;
    }
    assert(segments@.subrange(0, segments@.len() as int) =~= segments@);
}

/// Builds an RFC 6901 JSON Pointer from path segments.
pub fn json_pointer(segments: &[Segment]) -> (pointer: String)
    ensures
        pointer@ == pointer_of(segments@),
{
    let mut out: Vec<char> = Vec::new();
    push_pointer(&mut out, segments);
    string_of(&out)
}

/// A validation finding with a stable diagnostic code.
///
/// The derived ordering is intentional: findings sort by `(code, path, message)`
/// for deterministic diagnostics.
#[derive(Debug, Clone, PartialEq, Eq, PartialOrd, Ord)]
pub struct Finding {
    /// Stable diagnostic code.
    pub code: Code,
    /// JSON Pointer path to the affected value, or an empty string for the root.
    pub path: String,
    /// Human-readable diagnostic message.
    pub message: String,
}

/// The value of a finding.
pub struct FindingView {
    pub code: Code,
    pub path: Seq<char>,
    pub message: Seq<char>,
}

impl View for Finding {
    type V = FindingView;

    open spec fn view(&self) -> FindingView {
        FindingView { code: self.code, path: self.path@, message: self.message@ }
    }
}

impl Finding {
    /// Returns the stable name of this finding's diagnostic code.
    pub fn name(&self) -> (name: &'static str)
        ensures
            name@ == crate::catalog::code_name(self.code),
    {
        self.code.name()
    }

    /// A copy of this finding.
    pub fn duplicate(&self) -> (copy: Finding)
        ensures
            copy@ == self@,
    {
        Finding { code: self.code, path: self.path.clone(), message: self.message.clone() }
    }
}

/// A non-fatal validation advisory.
///
/// The derived ordering is intentional: advisories sort by `(path, message)`.
#[derive(Debug, Clone, PartialEq, Eq, PartialOrd, Ord)]
pub struct Advisory {
    /// JSON Pointer path to the affected value, or an empty string for the root.
    pub path: String,
    /// Human-readable advisory message.
    pub message: String,
}

/// The value of an advisory.
pub struct AdvisoryView {
    pub path: Seq<char>,
    pub message: Seq<char>,
}

impl View for Advisory {
    type V = AdvisoryView;

    open spec fn view(&self) -> AdvisoryView {
        AdvisoryView { path: self.path@, message: self.message@ }
    }
}

impl Advisory {
    /// A copy of this advisory.
    pub fn duplicate(&self) -> (copy: Advisory)
        ensures
            copy@ == self@,
    {
        Advisory { path: self.path.clone(), message: self.message.clone() }
    }
}

/// Findings order by code, then path, then message.
pub open spec fn finding_lt(a: FindingView, b: FindingView) -> bool {
    ||| code_number(a.code) < code_number(b.code)
    ||| code_number(a.code) == code_number(b.code) && chars_lt(a.path, b.path)
    ||| code_number(a.code) == code_number(b.code) && a.path == b.path && chars_lt(
        a.message,
        b.message,
    )
}

/// Advisories order by path, then message.
pub open spec fn advisory_lt(a: AdvisoryView, b: AdvisoryView) -> bool {
    ||| chars_lt(a.path, b.path)
    ||| a.path == b.path && chars_lt(a.message, b.message)
}

/// The values of a sequence of findings.
pub open spec fn finding_views(findings: Seq<Finding>) -> Seq<FindingView> {
    findings.map_values(|f: Finding| f@)
}

/// The values of a sequence of advisories.
pub open spec fn advisory_views(advisories: Seq<Advisory>) -> Seq<AdvisoryView> {
    advisories.map_values(|a: Advisory| a@)
}

/// Each finding sorts strictly before every later one: the sequence is
/// sorted and holds no finding twice.
pub open spec fn findings_strictly_sorted(findings: Seq<FindingView>) -> bool {
    forall|i: int, j: int| 0 <= i < j < findings.len() ==> finding_lt(findings[i], findings[j])
}

/// A list of findings sorted strictly is fixed by the findings it holds: two
/// such lists with the same findings are the same list.
pub proof fn lemma_sorted_findings_unique(s1: Seq<FindingView>, s2: Seq<FindingView>)
    requires
        findings_strictly_sorted(s1),
        findings_strictly_sorted(s2),
        forall|x: FindingView| s1.contains(x) <==> s2.contains(x),
    ensures
        s1 == s2,
    decreases s1.len() + s2.len(),
{
    if s1.len() == 0 {
        if s2.len() > 0 {
            assert(s2.contains(s2[0]));
        }
        assert(s1 =~= s2);
    } else if s2.len() == 0 {
        assert(s1.contains(s1[0]));
    } else {
        let a = s1[0];
        let b = s2[0];
        assert(s1.contains(a));
        assert(s2.contains(b));
        let k = choose|k: int| 0 <= k < s2.len() && s2[k] == a;
        let j = choose|j: int| 0 <= j < s1.len() && s1[j] == b;
        lemma_finding_lt_order(a, b, a);
        lemma_finding_lt_order(b, a, b);
        if k > 0 && j > 0 {
            assert(finding_lt(b, a));
            assert(finding_lt(a, b));
        }
        assert(a == b);
        let t1 = s1.skip(1);
        let t2 = s2.skip(1);
        assert forall|x: FindingView| t1.contains(x) <==> t2.contains(x) by {
            if t1.contains(x) {
                let p = choose|p: int| 0 <= p < t1.len() && t1[p] == x;
                assert(s1[p + 1] == x);
                assert(finding_lt(a, x));
                lemma_finding_lt_order(x, x, x);
                assert(s1.contains(x));
                let q = choose|q: int| 0 <= q < s2.len() && s2[q] == x;
                assert(q != 0);
                assert(t2[q - 1] == x);
            }
            if t2.contains(x) {
                let p = choose|p: int| 0 <= p < t2.len() && t2[p] == x;
                assert(s2[p + 1] == x);
                assert(finding_lt(b, x));
                lemma_finding_lt_order(x, x, x);
                assert(s2.contains(x));
                let q = choose|q: int| 0 <= q < s1.len() && s1[q] == x;
                assert(q != 0);
                assert(t1[q - 1] == x);
            }
        }
        assert(findings_strictly_sorted(t1)) by {
            assert forall|i: int, jj: int| 0 <= i < jj < t1.len() implies finding_lt(t1[i], t1[jj]) by {
                assert(t1[i] == s1[i + 1] && t1[jj] == s1[jj + 1]);
            }
        }
        assert(findings_strictly_sorted(t2)) by {
            assert forall|i: int, jj: int| 0 <= i < jj < t2.len() implies finding_lt(t2[i], t2[jj]) by {
                assert(t2[i] == s2[i + 1] && t2[jj] == s2[jj + 1]);
            }
        }
        lemma_sorted_findings_unique(t1, t2);
        assert(s1 =~= seq![a] + t1);
        assert(s2 =~= seq![b] + t2);
    }
}

/// A list of advisories sorted strictly is fixed by the advisories it holds.
pub proof fn lemma_sorted_advisories_unique(s1: Seq<AdvisoryView>, s2: Seq<AdvisoryView>)
    requires
        advisories_strictly_sorted(s1),
        advisories_strictly_sorted(s2),
        forall|x: AdvisoryView| s1.contains(x) <==> s2.contains(x),
    ensures
        s1 == s2,
    decreases s1.len() + s2.len(),
{
    if s1.len() == 0 {
        if s2.len() > 0 {
            assert(s2.contains(s2[0]));
        }
        assert(s1 =~= s2);
    } else if s2.len() == 0 {
        assert(s1.contains(s1[0]));
    } else {
        let a = s1[0];
        let b = s2[0];
        assert(s1.contains(a));
        assert(s2.contains(b));
        let k = choose|k: int| 0 <= k < s2.len() && s2[k] == a;
        let j = choose|j: int| 0 <= j < s1.len() && s1[j] == b;
        lemma_advisory_lt_order(a, b, a);
        lemma_advisory_lt_order(b, a, b);
        if k > 0 && j > 0 {
            assert(advisory_lt(b, a));
            assert(advisory_lt(a, b));
        }
        assert(a == b);
        let t1 = s1.skip(1);
        let t2 = s2.skip(1);
        assert forall|x: AdvisoryView| t1.contains(x) <==> t2.contains(x) by {
            if t1.contains(x) {
                let p = choose|p: int| 0 <= p < t1.len() && t1[p] == x;
                assert(s1[p + 1] == x);
                assert(advisory_lt(a, x));
                lemma_advisory_lt_order(x, x, x);
                assert(s1.contains(x));
                let q = choose|q: int| 0 <= q < s2.len() && s2[q] == x;
                assert(q != 0);
                assert(t2[q - 1] == x);
            }
            if t2.contains(x) {
                let p = choose|p: int| 0 <= p < t2.len() && t2[p] == x;
                assert(s2[p + 1] == x);
                assert(advisory_lt(b, x));
                lemma_advisory_lt_order(x, x, x);
                assert(s2.contains(x));
                let q = choose|q: int| 0 <= q < s1.len() && s1[q] == x;
                assert(q != 0);
                assert(t1[q - 1] == x);
            }
        }
        assert(advisories_strictly_sorted(t1)) by {
            assert forall|i: int, jj: int| 0 <= i < jj < t1.len() implies advisory_lt(t1[i], t1[jj]) by {
                assert(t1[i] == s1[i + 1] && t1[jj] == s1[jj + 1]);
            }
        }
        assert(advisories_strictly_sorted(t2)) by {
            assert forall|i: int, jj: int| 0 <= i < jj < t2.len() implies advisory_lt(t2[i], t2[jj]) by {
                assert(t2[i] == s2[i + 1] && t2[jj] == s2[jj + 1]);
            }
        }
        lemma_sorted_advisories_unique(t1, t2);
        assert(s1 =~= seq![a] + t1);
        assert(s2 =~= seq![b] + t2);
    }
}

/// The items of `a` stand in `b` at the increasing positions `idx`.
pub open spec fn placed_at(a: Seq<FindingView>, b: Seq<FindingView>, idx: Seq<int>) -> bool {
    &&& idx.len() == a.len()
    &&& forall|i: int| 0 <= i < idx.len() ==> 0 <= #[trigger] idx[i] < b.len() && b[idx[i]] == a[i]
    &&& forall|i: int, j: int| 0 <= i < j < idx.len() ==> #[trigger] idx[i] < #[trigger] idx[j]
}

/// `a` is a subsequence of `b`: its items stand in `b` in the same order.
pub open spec fn is_subsequence(a: Seq<FindingView>, b: Seq<FindingView>) -> bool {
    exists|idx: Seq<int>| #[trigger] placed_at(a, b, idx)
}

/// Of two strictly sorted lists of findings, one whose findings are all in
/// the other is a subsequence of it.
pub proof fn lemma_sorted_subset_subsequence(a: Seq<FindingView>, b: Seq<FindingView>)
    requires
        findings_strictly_sorted(a),
        findings_strictly_sorted(b),
        forall|x: FindingView| a.contains(x) ==> b.contains(x),
    ensures
        is_subsequence(a, b),
{
    let idx = Seq::new(a.len(), |i: int| choose|k: int| 0 <= k < b.len() && b[k] == a[i]);
    assert forall|i: int| 0 <= i < idx.len() implies 0 <= #[trigger] idx[i] < b.len() && b[idx[i]] == a[i] by {
        assert(a.contains(a[i]));
        assert(b.contains(a[i]));
    }
    assert forall|i: int, j: int| 0 <= i < j < idx.len() implies #[trigger] idx[i] < #[trigger] idx[j] by {
        assert(a.contains(a[i]) && b.contains(a[i]));
        assert(a.contains(a[j]) && b.contains(a[j]));
        let p = idx[i];
        let q = idx[j];
        assert(b[p] == a[i] && b[q] == a[j]);
        assert(finding_lt(a[i], a[j]));
        lemma_finding_lt_order(a[i], a[j], a[i]);
        if q < p {
            assert(finding_lt(b[q], b[p]));
        }
    }
    assert(placed_at(a, b, idx));
}

/// Each advisory sorts strictly before every later one.
pub open spec fn advisories_strictly_sorted(advisories: Seq<AdvisoryView>) -> bool {
    forall|i: int, j: int|
        0 <= i < j < advisories.len() ==> advisory_lt(advisories[i], advisories[j])
}

proof fn lemma_code_number_injective(a: Code, b: Code)
    requires
        code_number(a) == code_number(b),
    ensures
        a == b,
{
}

pub(crate) proof fn lemma_finding_lt_order(a: FindingView, b: FindingView, c: FindingView)
    ensures
        !finding_lt(a, a),
        finding_lt(a, b) && finding_lt(b, c) ==> finding_lt(a, c),
        a != b ==> finding_lt(a, b) || finding_lt(b, a),
{
    lemma_chars_lt_irreflexive(a.path);
    lemma_chars_lt_irreflexive(a.message);
    if finding_lt(a, b) && finding_lt(b, c) {
        if chars_lt(a.path, b.path) && chars_lt(b.path, c.path) {
            lemma_chars_lt_transitive(a.path, b.path, c.path);
        }
        if chars_lt(a.message, b.message) && chars_lt(b.message, c.message) {
            lemma_chars_lt_transitive(a.message, b.message, c.message);
        }
    }
    if a != b {
        if code_number(a.code) == code_number(b.code) {
            lemma_code_number_injective(a.code, b.code);
            if a.path != b.path {
                lemma_chars_lt_total(a.path, b.path);
            } else {
                lemma_chars_lt_total(a.message, b.message);
            }
        }
    }
}

proof fn lemma_advisory_lt_order(a: AdvisoryView, b: AdvisoryView, c: AdvisoryView)
    ensures
        !advisory_lt(a, a),
        advisory_lt(a, b) && advisory_lt(b, c) ==> advisory_lt(a, c),
        a != b ==> advisory_lt(a, b) || advisory_lt(b, a),
{
    lemma_chars_lt_irreflexive(a.path);
    lemma_chars_lt_irreflexive(a.message);
    if advisory_lt(a, b) && advisory_lt(b, c) {
        if chars_lt(a.path, b.path) && chars_lt(b.path, c.path) {
            lemma_chars_lt_transitive(a.path, b.path, c.path);
        }
        if chars_lt(a.message, b.message) && chars_lt(b.message, c.message) {
            lemma_chars_lt_transitive(a.message, b.message, c.message);
        }
    }
    if a != b {
        if a.path != b.path {
            lemma_chars_lt_total(a.path, b.path);
        } else {
            lemma_chars_lt_total(a.message, b.message);
        }
    }
}

/// Three-way comparison of two findings in their sort order.
pub fn compare_findings(a: &Finding, b: &Finding) -> (r: i8)
    ensures
        (r < 0) == finding_lt(a@, b@),
        (r == 0) == (a@ == b@),
        (r > 0) == finding_lt(b@, a@),
{
    proof {
        lemma_finding_lt_order(a@, b@, a@);
        lemma_finding_lt_order(b@, a@, b@);
    }
    let na = a.code.number();
    let nb = b.code.number();
    if na < nb {
        return -1;
    }
    if na > nb {
        return 1;
    }
    proof {
        lemma_code_number_injective(a.code, b.code);
    }
    let pa = chars_of(a.path.as_str());
    let pb = chars_of(b.path.as_str());
    let c = compare_chars(&pa, &pb);
    if c != 0 {
        proof {
            if c < 0 {
                lemma_chars_lt_irreflexive(a.path@);
            }
        }
        return c;
    }
    let ma = chars_of(a.message.as_str());
    let mb = chars_of(b.message.as_str());
    compare_chars(&ma, &mb)
}

/// Three-way comparison of two advisories in their sort order.
pub fn compare_advisories(a: &Advisory, b: &Advisory) -> (r: i8)
    ensures
        (r < 0) == advisory_lt(a@, b@),
        (r == 0) == (a@ == b@),
        (r > 0) == advisory_lt(b@, a@),
{
    proof {
        lemma_advisory_lt_order(a@, b@, a@);
        lemma_advisory_lt_order(b@, a@, b@);
    }
    let pa = chars_of(a.path.as_str());
    let pb = chars_of(b.path.as_str());
    let c = compare_chars(&pa, &pb);
    if c != 0 {
        return c;
    }
    let ma = chars_of(a.message.as_str());
    let mb = chars_of(b.message.as_str());
    compare_chars(&ma, &mb)
}

/// Inserts `f` into a strictly sorted sequence of findings unless an equal
/// finding is already there.
fn insert_finding(sorted: &mut Vec<Finding>, f: Finding)
    requires
        findings_strictly_sorted(finding_views(old(sorted)@)),
    ensures
        findings_strictly_sorted(finding_views(final(sorted)@)),
        forall|x: FindingView|
            finding_views(final(sorted)@).contains(x) <==> (finding_views(old(sorted)@).contains(x)
                || x == f@),
{
    let ghost before = finding_views(sorted@);
    let mut i: usize = 0;
    while i < sorted.len()
        invariant
            0 <= i <= sorted@.len(),
            finding_views(sorted@) == before,
            findings_strictly_sorted(before),
            forall|j: int| 0 <= j < i ==> finding_lt(#[trigger] before[j], f@),
        ensures
            0 <= i <= sorted@.len(),
            finding_views(sorted@) == before,
            forall|j: int| 0 <= j < i ==> finding_lt(#[trigger] before[j], f@),
            i < sorted@.len() ==> finding_lt(f@, before[i as int]),
        decreases sorted@.len() - i,
    {
        let c = compare_findings(&sorted[i], &f);
        if c == 0 {
            assert(before[i as int] == f@);
            assert forall|x: FindingView|
                finding_views(sorted@).contains(x) <==> (before.contains(x) || x == f@) by {
                if x == f@ {
                    assert(before[i as int] == x);
                }
            }
            return;
        }
        if c > 0 {
            break;
        }
        i = i + 1;
    }
    let ghost pos = i as int;
    assert(forall|j: int| pos <= j < before.len() ==> finding_lt(f@, #[trigger] before[j])) by {
        assert forall|j: int| pos <= j < before.len() implies finding_lt(f@, #[trigger] before[j]) by {
            if j > pos {
                lemma_finding_lt_order(f@, before[pos], before[j]);
            }
        }
    }
    sorted.insert(i, f);
    proof {
        let after = finding_views(sorted@);
        assert(after =~= before.insert(pos, f@));
        assert forall|a: int, b: int| 0 <= a < b < after.len() implies finding_lt(
            after[a],
            after[b],
        ) by {
            if a < pos && b == pos {
            } else if a < pos && b > pos {
                lemma_finding_lt_order(before[a], f@, before[b - 1]);
            } else if a == pos {
            } else {
            }
        }
        assert forall|x: FindingView| after.contains(x) <==> (before.contains(x) || x == f@) by {
            if after.contains(x) {
                let k = choose|k: int| 0 <= k < after.len() && after[k] == x;
                if k < pos {
                    assert(before[k] == x);
                } else if k > pos {
                    assert(before[k - 1] == x);
                }
            }
            if before.contains(x) {
                let k = choose|k: int| 0 <= k < before.len() && before[k] == x;
                if k < pos {
                    assert(after[k] == x);
                } else {
                    assert(after[k + 1] == x);
                }
            }
            if x == f@ {
                assert(after[pos] == x);
            }
        }
    }
}

/// Inserts `a` into a strictly sorted sequence of advisories unless an equal
/// advisory is already there.
fn insert_advisory(sorted: &mut Vec<Advisory>, a: Advisory)
    requires
        advisories_strictly_sorted(advisory_views(old(sorted)@)),
    ensures
        advisories_strictly_sorted(advisory_views(final(sorted)@)),
        forall|x: AdvisoryView|
            advisory_views(final(sorted)@).contains(x) <==> (advisory_views(
                old(sorted)@,
            ).contains(x) || x == a@),
{
    let ghost before = advisory_views(sorted@);
    let mut i: usize = 0;
    while i < sorted.len()
        invariant
            0 <= i <= sorted@.len(),
            advisory_views(sorted@) == before,
            advisories_strictly_sorted(before),
            forall|j: int| 0 <= j < i ==> advisory_lt(#[trigger] before[j], a@),
        ensures
            0 <= i <= sorted@.len(),
            advisory_views(sorted@) == before,
            forall|j: int| 0 <= j < i ==> advisory_lt(#[trigger] before[j], a@),
            i < sorted@.len() ==> advisory_lt(a@, before[i as int]),
        decreases sorted@.len() - i,
    {
        let c = compare_advisories(&sorted[i], &a);
        if c == 0 {
            assert(before[i as int] == a@);
            assert forall|x: AdvisoryView|
                advisory_views(sorted@).contains(x) <==> (before.contains(x) || x == a@) by {
                if x == a@ {
                    assert(before[i as int] == x);
                }
            }
            return;
        }
        if c > 0 {
            break;
        }
        i = i + 1;
    }
    let ghost pos = i as int;
    assert(forall|j: int| pos <= j < before.len() ==> advisory_lt(a@, #[trigger] before[j])) by {
        assert forall|j: int| pos <= j < before.len() implies advisory_lt(a@, #[trigger] before[j]) by {
            if j > pos {
                lemma_advisory_lt_order(a@, before[pos], before[j]);
            }
        }
    }
    sorted.insert(i, a);
    proof {
        let after = advisory_views(sorted@);
        assert(after =~= before.insert(pos, a@));
        assert forall|p: int, q: int| 0 <= p < q < after.len() implies advisory_lt(
            after[p],
            after[q],
        ) by {
            if p < pos && q > pos {
                lemma_advisory_lt_order(before[p], a@, before[q - 1]);
            }
        }
        assert forall|x: AdvisoryView| after.contains(x) <==> (before.contains(x) || x == a@) by {
            if after.contains(x) {
                let k = choose|k: int| 0 <= k < after.len() && after[k] == x;
                if k < pos {
                    assert(before[k] == x);
                } else if k > pos {
                    assert(before[k - 1] == x);
                }
            }
            if before.contains(x) {
                let k = choose|k: int| 0 <= k < before.len() && before[k] == x;
                if k < pos {
                    assert(after[k] == x);
                } else {
                    assert(after[k + 1] == x);
                }
            }
            if x == a@ {
                assert(after[pos] == x);
            }
        }
    }
}

/// Sorts findings into their order and drops repeats.
pub fn sort_dedup_findings(findings: Vec<Finding>) -> (sorted: Vec<Finding>)
    ensures
        findings_strictly_sorted(finding_views(sorted@)),
        forall|x: FindingView|
            finding_views(sorted@).contains(x) <==> finding_views(findings@).contains(x),
{
    let ghost all = finding_views(findings@);
    let mut rest = findings;
    let mut sorted: Vec<Finding> = Vec::new();
    while rest.len() > 0
        invariant
            findings_strictly_sorted(finding_views(sorted@)),
            forall|x: FindingView|
                (finding_views(sorted@).contains(x) || finding_views(rest@).contains(x))
                    <==> all.contains(x),
        decreases rest@.len(),
    {
        let ghost rest_before = rest@;
        let f = rest.pop().unwrap();
        proof {
            assert(finding_views(rest_before) =~= finding_views(rest@).push(f@));
            assert forall|x: FindingView| finding_views(rest_before).contains(x) <==> (
            finding_views(rest@).contains(x) || x == f@) by {
                let rv = finding_views(rest_before);
                if rv.contains(x) {
                    let k = choose|k: int| 0 <= k < rv.len() && rv[k] == x;
                    if k < rv.len() - 1 {
                        assert(finding_views(rest@)[k] == x);
                    }
                }
                if finding_views(rest@).contains(x) {
                    let k = choose|k: int| 0 <= k < finding_views(rest@).len()
                        && finding_views(rest@)[k] == x;
                    assert(rv[k] == x);
                }
                if x == f@ {
                    assert(rv[rv.len() - 1] == x);
                }
            }
        }
        insert_finding(&mut sorted, f);
    }
    sorted
}

/// Sorts advisories into their order and drops repeats.
pub fn sort_dedup_advisories(advisories: Vec<Advisory>) -> (sorted: Vec<Advisory>)
    ensures
        advisories_strictly_sorted(advisory_views(sorted@)),
        forall|x: AdvisoryView|
            advisory_views(sorted@).contains(x) <==> advisory_views(advisories@).contains(x),
{
    let ghost all = advisory_views(advisories@);
    let mut rest = advisories;
    let mut sorted: Vec<Advisory> = Vec::new();
    while rest.len() > 0
        invariant
            advisories_strictly_sorted(advisory_views(sorted@)),
            forall|x: AdvisoryView|
                (advisory_views(sorted@).contains(x) || advisory_views(rest@).contains(x))
                    <==> all.contains(x),
        decreases rest@.len(),
    {
        let ghost rest_before = rest@;
        let a = rest.pop().unwrap();
        proof {
            assert(advisory_views(rest_before) =~= advisory_views(rest@).push(a@));
            assert forall|x: AdvisoryView| advisory_views(rest_before).contains(x) <==> (
            advisory_views(rest@).contains(x) || x == a@) by {
                let rv = advisory_views(rest_before);
                if rv.contains(x) {
                    let k = choose|k: int| 0 <= k < rv.len() && rv[k] == x;
                    if k < rv.len() - 1 {
                        assert(advisory_views(rest@)[k] == x);
                    }
                }
                if advisory_views(rest@).contains(x) {
                    let k = choose|k: int| 0 <= k < advisory_views(rest@).len()
                        && advisory_views(rest@)[k] == x;
                    assert(rv[k] == x);
                }
                if x == a@ {
                    assert(rv[rv.len() - 1] == x);
                }
            }
        }
        insert_advisory(&mut sorted, a);
    }
    sorted
}

/// Complete validation outcome.
#[derive(Debug, Clone)]
pub struct ValidationResult {
    /// Fatal validation findings.
    pub findings: Vec<Finding>,
    /// Non-fatal validation warnings.
    pub warnings: Vec<Advisory>,
}

impl Default for ValidationResult {
    fn default() -> (result: Self)
        ensures
            result.findings@.len() == 0,
            result.warnings@.len() == 0,
    {
        ValidationResult { findings: Vec::new(), warnings: Vec::new() }
    }
}

/// The code of the catalog with number `n`, for `1 <= n <= 12`.
fn code_with_number(n: u8) -> (code: Code)
    requires
        1 <= n <= 12,
    ensures
        code_number(code) == n,
{
    if n == 1 { Code::Akb001 }
    else if n == 2 { Code::Akb002 }
    else if n == 3 { Code::Akb003 }
    else if n == 4 { Code::Akb004 }
    else if n == 5 { Code::Akb005 }
    else if n == 6 { Code::Akb006 }
    else if n == 7 { Code::Akb007 }
    else if n == 8 { Code::Akb008 }
    else if n == 9 { Code::Akb009 }
    else if n == 10 { Code::Akb010 }
    else if n == 11 { Code::Akb011 }
    else { Code::Akb012 }
}

/// Some finding of `findings` carries `code`.
pub open spec fn has_code(findings: Seq<Finding>, code: Code) -> bool {
    exists|i: int| 0 <= i < findings.len() && #[trigger] findings[i].code == code
}

impl ValidationResult {
    /// Returns true when validation produced no fatal findings.
    pub fn ok(&self) -> (ok: bool)
        ensures
            ok == (self.findings@.len() == 0),
    {
        self.findings.len() == 0
    }

    /// Returns the fatal diagnostic codes of this result, each once, in
    /// ascending catalog order.
    pub fn codes(&self) -> (codes: Vec<Code>)
        ensures
            forall|i: int, j: int|
                0 <= i < j < codes@.len() ==> code_number(codes@[i]) < code_number(codes@[j]),
            forall|c: Code| codes@.contains(c) <==> has_code(self.findings@, c),
    {
        let mut codes: Vec<Code> = Vec::new();
        let mut n: u8 = 1;
        while n <= 12
            invariant
                1 <= n <= 13,
                forall|i: int, j: int|
                    0 <= i < j < codes@.len() ==> code_number(codes@[i]) < code_number(codes@[j]),
                forall|i: int| 0 <= i < codes@.len() ==> code_number(#[trigger] codes@[i]) < n,
                forall|c: Code|
                    code_number(c) < n ==> (codes@.contains(c) <==> has_code(self.findings@, c)),
                forall|c: Code| codes@.contains(c) ==> code_number(c) < n,
            decreases 13 - n,
        {
            let code = code_with_number(n);
            let mut found = false;
            let mut i: usize = 0;
            while i < self.findings.len()
                invariant
                    0 <= i <= self.findings@.len(),
                    found == exists|k: int| 0 <= k < i && #[trigger] self.findings@[k].code == code,
                decreases self.findings@.len() - i,
            {
                if self.findings[i].code == code {
                    found = true;
                }
                i = i + 1;
            }
            let ghost old_codes = codes@;
            if found {
                codes.push(code);
            }
            proof {
                assert forall|c: Code| code_number(c) < n + 1 implies (codes@.contains(c)
                    <==> has_code(self.findings@, c)) by {
                    if code_number(c) == n {
                        assert(c == code);
                        if found {
                            assert(codes@[codes@.len() - 1] == c);
                        } else {
                            assert(!old_codes.contains(c));
                            assert(codes@ == old_codes);
                        }
                    } else {
                        if codes@.contains(c) && found {
                            let k = choose|k: int| 0 <= k < codes@.len() && codes@[k] == c;
                            if k < old_codes.len() {
                                assert(old_codes[k] == c);
                            }
                        }
                        if old_codes.contains(c) {
                            let k = choose|k: int| 0 <= k < old_codes.len() && old_codes[k] == c;
                            assert(codes@[k] == c);
                        }
                    }
                }
                assert forall|c: Code| codes@.contains(c) implies code_number(c) < n + 1 by {
                    if codes@.contains(c) && found && !old_codes.contains(c) {
                        let k = choose|k: int| 0 <= k < codes@.len() && codes@[k] == c;
                        if k < old_codes.len() {
                            assert(old_codes[k] == c);
                        }
                    }
                }
            }
            n = n + 1;
        }
        proof {
            assert forall|c: Code| codes@.contains(c) <==> has_code(self.findings@, c) by {
                assert(code_number(c) <= 12);
            }
        }
        codes
    }
}

} // verus!
