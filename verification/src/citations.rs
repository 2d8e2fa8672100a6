//! Inline citation extraction for Markdown content.

use vstd::prelude::*;

use crate::catalog::{LOCAL_ID_CHARSET, LOCAL_ID_MAX_LENGTH};
use crate::text::{chars_of, decimal, push_decimal, push_str, string_of};

verus! {

broadcast use vstd::seq_lib::group_seq_properties;

// ---------------------------------------------------------------------------
// Source normalization

/// The replacement character that stands in for NUL.
pub const REPLACEMENT: char = '\u{fffd}';

/// The Markdown source as matching reads it: every CRLF and every lone CR
/// becomes LF, and every NUL becomes U+FFFD.
pub open spec fn normalized(s: Seq<char>) -> Seq<char>
    decreases s.len(),
{
    if s.len() == 0 {
        seq![]
    } else if s[0] == '\r' {
        if s.len() > 1 && s[1] == '\n' {
            seq!['\n'] + normalized(s.skip(2))
        } else {
            seq!['\n'] + normalized(s.skip(1))
        }
    } else if s[0] == '\0' {
        seq![REPLACEMENT] + normalized(s.skip(1))
    } else {
        seq![s[0]] + normalized(s.skip(1))
    }
}

/// Normalizes line endings and NUL characters.
pub fn normalize_source(markdown: &str) -> (source: String)
    ensures
        source@ == normalized(markdown@),
{
    let chars = chars_of(markdown);
    let mut out: Vec<char> = Vec::new();
    let mut i: usize = 0;
    assert(chars@.skip(0) =~= chars@);
    while i < chars.len()
        invariant
            0 <= i <= chars@.len(),
            chars@ == markdown@,
            out@ + normalized(chars@.skip(i as int)) == normalized(markdown@),
        decreases chars@.len() - i,
    {
        let ghost rest = chars@.skip(i as int);
        let ghost before = out@;
        let c = chars[i];
        assert(rest[0] == c);
        if c == '\r' {
            out.push('\n');
            if i + 1 < chars.len() && chars[i + 1] == '\n' {
                assert(rest[1] == '\n');
                assert(rest.skip(2) =~= chars@.skip(i + 2));
                assert(normalized(rest) == seq!['\n'] + normalized(rest.skip(2)));
                assert(out@ + normalized(rest.skip(2)) =~= before + (seq!['\n'] + normalized(rest.skip(2))));
                i = i + 2;
            } else {
                assert(rest.skip(1) =~= chars@.skip(i + 1));
                assert(normalized(rest) == seq!['\n'] + normalized(rest.skip(1)));
                assert(out@ + normalized(rest.skip(1)) =~= before + (seq!['\n'] + normalized(rest.skip(1))));
                i = i + 1;
            }
        } else if c == '\0' {
            out.push(REPLACEMENT);
            assert(rest.skip(1) =~= chars@.skip(i + 1));
            assert(normalized(rest) == seq![REPLACEMENT] + normalized(rest.skip(1)));
            assert(out@ + normalized(rest.skip(1)) =~= before + (seq![REPLACEMENT] + normalized(rest.skip(1))));
            i = i + 1;
        } else {
            out.push(c);
            assert(rest.skip(1) =~= chars@.skip(i + 1));
            assert(normalized(rest) == seq![c] + normalized(rest.skip(1)));
            assert(out@ + normalized(rest.skip(1)) =~= before + (seq![c] + normalized(rest.skip(1))));
            i = i + 1;
        }
    }
    assert(chars@.skip(i as int) =~= Seq::<char>::empty());
    assert(out@ =~= normalized(markdown@));
    string_of(&out)
}

/// Normalization leaves no carriage return and no NUL behind, and keeps
/// every other character.
pub proof fn lemma_normalized_clean(s: Seq<char>)
    ensures
        !normalized(s).contains('\r'),
        !normalized(s).contains('\0'),
    decreases s.len(),
{
    if s.len() > 0 {
        let n = normalized(s);
        if s[0] == '\r' && s.len() > 1 && s[1] == '\n' {
            lemma_normalized_clean(s.skip(2));
            assert forall|i: int| 0 <= i < n.len() implies n[i] != '\r' && n[i] != '\0' by {
                if i > 0 {
                    assert(n[i] == normalized(s.skip(2))[i - 1]);
                }
            }
        } else {
            lemma_normalized_clean(s.skip(1));
            assert forall|i: int| 0 <= i < n.len() implies n[i] != '\r' && n[i] != '\0' by {
                if i > 0 {
                    assert(n[i] == normalized(s.skip(1))[i - 1]);
                }
            }
        }
    }
}

// ---------------------------------------------------------------------------
// Byte search

/// `needle` stands at `index` of `bytes`, ending at or before `end`.
pub open spec fn starts_at(bytes: Seq<u8>, index: int, end: int, needle: Seq<u8>) -> bool {
    &&& 0 <= index
    &&& index + needle.len() <= end
    &&& end <= bytes.len()
    &&& bytes.subrange(index, index + needle.len()) == needle
}

/// Whether `needle` stands at `index` of `bytes`, ending at or before `end`.
pub fn starts_with_at(bytes: &[u8], index: usize, end: usize, needle: &[u8]) -> (r: bool)
    requires
        end <= bytes@.len(),
    ensures
        r == starts_at(bytes@, index as int, end as int, needle@),
{
    if index > end || needle.len() > end - index {
        return false;
    }
    let mut k: usize = 0;
    while k < needle.len()
        invariant
            0 <= k <= needle@.len(),
            index + needle@.len() <= end <= bytes@.len(),
            forall|j: int| 0 <= j < k ==> bytes@[index + j] == needle@[j],
        decreases needle@.len() - k,
    {
        if bytes[index + k] != needle[k] {
            assert(bytes@.subrange(index as int, index + needle@.len())[k as int] != needle@[k as int]);
            return false;
        }
        k = k + 1;
    }
    assert(bytes@.subrange(index as int, index + needle@.len()) =~= needle@);
    true
}

/// The first position at or after `start` where `needle` stands, ending at
/// or before `end`; none for an empty needle.
pub open spec fn find_from(bytes: Seq<u8>, start: int, end: int, needle: Seq<u8>) -> Option<int>
    decreases end - start,
{
    if needle.len() == 0 || start + needle.len() > end || start < 0 {
        None
    } else if starts_at(bytes, start, end, needle) {
        Some(start)
    } else {
        find_from(bytes, start + 1, end, needle)
    }
}

/// Finds `needle` in `bytes` between `start` and `end`.
pub fn find_bytes(bytes: &[u8], start: usize, end: usize, needle: &[u8]) -> (r: Option<usize>)
    requires
        end <= bytes@.len(),
    ensures
        match r {
            Some(i) => find_from(bytes@, start as int, end as int, needle@) == Some(i as int),
            None => find_from(bytes@, start as int, end as int, needle@) is None,
        },
{
    if needle.len() == 0 || start > end || needle.len() > end - start {
        return None;
    }
    let last = end - needle.len();
    let mut i: usize = start;
    while i <= last
        invariant
            start <= i <= last + 1,
            last + needle@.len() == end,
            end <= bytes@.len(),
            needle@.len() > 0,
            find_from(bytes@, start as int, end as int, needle@) == find_from(bytes@, i as int, end as int, needle@),
        decreases last + 1 - i,
    {
        if starts_with_at(bytes, i, end, needle) {
            return Some(i);
        }
        i = i + 1;
    }
    None
}

// ---------------------------------------------------------------------------
// Masking

/// The byte that masked spans are overwritten with.
pub const MASK: u8 = 0;

/// `<!--`, the opening of an HTML comment.
pub open spec fn comment_open() -> Seq<u8> {
    seq![60u8, 33u8, 45u8, 45u8]
}

/// `-->`, the closing of an HTML comment.
pub open spec fn comment_close() -> Seq<u8> {
    seq![45u8, 45u8, 62u8]
}

/// `<!-->`, an empty comment.
pub open spec fn comment_empty() -> Seq<u8> {
    seq![60u8, 33u8, 45u8, 45u8, 62u8]
}

/// `<!--->`, an empty comment with a dash.
pub open spec fn comment_dash() -> Seq<u8> {
    seq![60u8, 33u8, 45u8, 45u8, 45u8, 62u8]
}

/// Where a comment opened at `open_start` ends: right after `<!-->` or
/// `<!--->` there, or right after the first `-->` past the opening.
pub open spec fn comment_end_of(bytes: Seq<u8>, open_start: int, end: int) -> Option<int> {
    if starts_at(bytes, open_start, end, comment_empty()) {
        Some(open_start + 5)
    } else if starts_at(bytes, open_start, end, comment_dash()) {
        Some(open_start + 6)
    } else {
        match find_from(bytes, open_start + 4, end, comment_close()) {
            Some(close) => Some(close + 3),
            None => None,
        }
    }
}

proof fn lemma_find_from_bounds(bytes: Seq<u8>, start: int, end: int, needle: Seq<u8>)
    ensures
        find_from(bytes, start, end, needle) matches Some(i) ==> start <= i && i + needle.len() <= end,
    decreases end - start,
{
    if !(needle.len() == 0 || start + needle.len() > end || start < 0) && !starts_at(bytes, start, end, needle) {
        lemma_find_from_bounds(bytes, start + 1, end, needle);
    }
}

proof fn lemma_comment_end_bounds(bytes: Seq<u8>, open_start: int, end: int)
    ensures
        comment_end_of(bytes, open_start, end) matches Some(e) ==> open_start < e <= end,
{
    lemma_find_from_bounds(bytes, open_start + 4, end, comment_close());
}

/// The bytes of `<!--`.
fn open_bytes() -> (r: Vec<u8>)
    ensures
        r@ == comment_open(),
{
    let r = vec![60u8, 33u8, 45u8, 45u8];
    assert(r@ =~= comment_open());
    r
}

/// Where a comment opened at `open_start` ends.
pub fn comment_end(bytes: &[u8], open_start: usize, end: usize) -> (r: Option<usize>)
    requires
        end <= bytes@.len(),
    ensures
        match r {
            Some(e) => comment_end_of(bytes@, open_start as int, end as int) == Some(e as int),
            None => comment_end_of(bytes@, open_start as int, end as int) is None,
        },
{
    let empty = vec![60u8, 33u8, 45u8, 45u8, 62u8];
    let dash = vec![60u8, 33u8, 45u8, 45u8, 45u8, 62u8];
    let close = vec![45u8, 45u8, 62u8];
    assert(empty@ =~= comment_empty());
    assert(dash@ =~= comment_dash());
    assert(close@ =~= comment_close());
    if starts_with_at(bytes, open_start, end, empty.as_slice()) {
        return Some(open_start + 5);
    }
    if starts_with_at(bytes, open_start, end, dash.as_slice()) {
        return Some(open_start + 6);
    }
    if open_start > end {
        proof {
            lemma_find_from_bounds(bytes@, open_start + 4, end as int, comment_close());
        }
        return None;
    }
    proof {
        lemma_find_from_bounds(bytes@, open_start + 4, end as int, comment_close());
    }
    if end - open_start < 4 {
        return None;
    }
    match find_bytes(bytes, open_start + 4, end, close.as_slice()) {
        Some(close_start) => Some(close_start + 3),
        None => None,
    }
}

/// `masked` with `start..end` overwritten by [`MASK`].
pub open spec fn mask(masked: Seq<u8>, start: int, end: int) -> Seq<u8> {
    Seq::new(masked.len(), |k: int| if start <= k < end { MASK } else { masked[k] })
}

/// Overwrites `start..end` of `masked` with [`MASK`].
pub fn mask_range(masked: &mut Vec<u8>, start: usize, end: usize)
    requires
        start <= end <= old(masked)@.len(),
    ensures
        final(masked)@ == mask(old(masked)@, start as int, end as int),
{
    let mut i: usize = start;
    while i < end
        invariant
            start <= i <= end <= masked@.len(),
            masked@.len() == old(masked)@.len(),
            forall|k: int| 0 <= k < masked@.len() ==> masked@[k] == if start <= k < i {
                MASK
            } else {
                old(masked)@[k]
            },
        decreases end - i,
    {
        masked.set(i, MASK);
        i = i + 1;
    }
    assert(masked@ =~= mask(old(masked)@, start as int, end as int));
}

/// The HTML comments found in `bytes` from `index` up to `end`, in order:
/// each `<!--` that has an end opens one, which is masked through its end,
/// and the scan goes on after it.
pub open spec fn comment_masks(bytes: Seq<u8>, index: int, end: int) -> Seq<(int, int)>
    decreases end - index,
{
    if index >= end {
        seq![]
    } else if starts_at(bytes, index, end, comment_open()) {
        match comment_end_of(bytes, index, end) {
            Some(e) => if index < e <= end {
                seq![(index, e)] + comment_masks(bytes, e, end)
            } else {
                comment_masks(bytes, index + 1, end)
            },
            None => comment_masks(bytes, index + 1, end),
        }
    } else {
        comment_masks(bytes, index + 1, end)
    }
}

/// `masked` with each of the spans masked, in order.
pub open spec fn mask_all(masked: Seq<u8>, spans: Seq<(int, int)>) -> Seq<u8>
    decreases spans.len(),
{
    if spans.len() == 0 {
        masked
    } else {
        mask(mask_all(masked, spans.drop_last()), spans.last().0, spans.last().1)
    }
}

proof fn lemma_mask_all_len(masked: Seq<u8>, spans: Seq<(int, int)>)
    ensures
        mask_all(masked, spans).len() == masked.len(),
    decreases spans.len(),
{
    if spans.len() > 0 {
        lemma_mask_all_len(masked, spans.drop_last());
    }
}

/// Masks the HTML comments that open between `start` and `end`.
pub fn mask_comments(bytes: &[u8], masked: &mut Vec<u8>, start: usize, end: usize)
    requires
        end <= bytes@.len(),
        old(masked)@.len() == bytes@.len(),
    ensures
        final(masked)@ == mask_all(old(masked)@, comment_masks(bytes@, start as int, end as int)),
{
    let open = open_bytes();
    let mut index: usize = start;
    let ghost done: Seq<(int, int)> = seq![];
    proof {
        lemma_mask_all_len(old(masked)@, done);
    }
    while index < end
        invariant
            end <= bytes@.len(),
            open@ == comment_open(),
            masked@.len() == bytes@.len(),
            masked@ == mask_all(old(masked)@, done),
            done + comment_masks(bytes@, index as int, end as int) == comment_masks(
                bytes@,
                start as int,
                end as int,
            ),
        decreases end - index,
    {
        if starts_with_at(bytes, index, end, open.as_slice()) {
            proof {
                lemma_comment_end_bounds(bytes@, index as int, end as int);
            }
            match comment_end(bytes, index, end) {
                Some(e) => {
                    mask_range(masked, index, e);
                    proof {
                        let span = seq![(index as int, e as int)];
                        assert(done + span + comment_masks(bytes@, e as int, end as int) =~= done + comment_masks(
                            bytes@,
                            index as int,
                            end as int,
                        ));
                        assert((done + span).drop_last() =~= done);
                        done = done + span;
                    }
                    index = e;
                },
                None => {
                    index = index + 1;
                },
            }
        } else {
            index = index + 1;
        }
    }
    assert(done =~= comment_masks(bytes@, start as int, end as int));
}

// ---------------------------------------------------------------------------
// Markdown structure

/// What masking does with the span of a Markdown parser event.
#[derive(Debug, Clone, Copy, PartialEq, Eq, Structural)]
pub enum SpanAction {
    /// A code block, HTML block or code span: masked whole.
    Mask,
    /// The start or end of another element: left as it is.
    Keep,
    /// Any other event: its HTML comments are masked.
    ScanComments,
}

/// The events of a CommonMark parse of `source`, in order, each as its
/// `Debug` text and its byte range.
pub uninterp spec fn markdown_events(source: Seq<char>) -> Seq<(Seq<char>, usize, usize)>;

/// Parses `source` with `pulldown_cmark::Parser::new` and lists its offset
/// events, each as its `Debug` text and byte range. The contract claims only
/// that the list is the parse's; which events those are is left to
/// `pulldown-cmark`.
#[verifier::external_body]
fn markdown_spans(source: &str) -> (r: Vec<(String, usize, usize)>)
    ensures
        r@.map_values(|e: (String, usize, usize)| (e.0@, e.1, e.2)) == markdown_events(source@),
{
    pulldown_cmark::Parser::new(source).into_offset_iter().map(
        |(event, range)| (format!("{:?}", event), range.start, range.end),
    ).collect()
}

/// `s` starts with `prefix`.
pub open spec fn starts_with(s: Seq<char>, prefix: Seq<char>) -> bool {
    prefix.len() <= s.len() && s.take(prefix.len() as int) == prefix
}

/// The masking rule for an event, read from its `Debug` text (the variant's
/// name, then its fields in brackets): the start of a code block or an HTML
/// block and an inline code span are masked whole; the start or end of any
/// other element is kept; text, HTML, math, breaks, rules and the other
/// leaves have their HTML comments masked.
pub open spec fn span_action_of(event: Seq<char>) -> SpanAction {
    if starts_with(event, "Start(CodeBlock("@) || event == "Start(HtmlBlock)"@ || starts_with(event, "Code("@) {
        SpanAction::Mask
    } else if starts_with(event, "Start("@) || starts_with(event, "End("@) {
        SpanAction::Keep
    } else {
        SpanAction::ScanComments
    }
}

/// Whether `s` starts with `prefix`.
fn has_prefix(s: &[char], prefix: &str) -> (r: bool)
    ensures
        r == starts_with(s@, prefix@),
{
    let p = chars_of(prefix);
    if p.len() > s.len() {
        return false;
    }
    let mut i: usize = 0;
    while i < p.len()
        invariant
            p@ == prefix@,
            p@.len() <= s@.len(),
            0 <= i <= p@.len(),
            forall|j: int| 0 <= j < i ==> s@[j] == p@[j],
        decreases p@.len() - i,
    {
        if s[i] != p[i] {
            assert(s@.take(p@.len() as int)[i as int] != p@[i as int]);
            return false;
        }
        i = i + 1;
    }
    assert(s@.take(p@.len() as int) =~= p@);
    true
}

/// The masking rule for the event whose `Debug` text is `event`.
pub fn span_action(event: &str) -> (action: SpanAction)
    ensures
        action == span_action_of(event@),
{
    let text = chars_of(event);
    let html_block = chars_of("Start(HtmlBlock)");
    if has_prefix(&text, "Start(CodeBlock(") || crate::text::chars_eq(&text, &html_block) || has_prefix(
        &text,
        "Code(",
    ) {
        SpanAction::Mask
    } else if has_prefix(&text, "Start(") || has_prefix(&text, "End(") {
        SpanAction::Keep
    } else {
        SpanAction::ScanComments
    }
}

/// `masked` after the actions of `events` on the source bytes `bytes`, in
/// order; an event whose range does not lie in the source changes nothing.
pub open spec fn apply_events(bytes: Seq<u8>, masked: Seq<u8>, events: Seq<(Seq<char>, usize, usize)>) -> Seq<u8>
    decreases events.len(),
{
    if events.len() == 0 {
        masked
    } else {
        let before = apply_events(bytes, masked, events.drop_last());
        let (event, start, end) = events.last();
        if start <= end && end <= bytes.len() {
            match span_action_of(event) {
                SpanAction::Mask => mask(before, start as int, end as int),
                SpanAction::Keep => before,
                SpanAction::ScanComments => mask_all(before, comment_masks(bytes, start as int, end as int)),
            }
        } else {
            before
        }
    }
}

/// The bytes that citation markers are matched against: the normalized
/// source's UTF-8 bytes with code, HTML blocks and HTML comments masked.
pub open spec fn masked_source(markdown: Seq<char>) -> Seq<u8> {
    let source = normalized(markdown);
    let bytes = vstd::utf8::encode_utf8(source);
    apply_events(bytes, bytes, markdown_events(source))
}

proof fn lemma_apply_events_len(bytes: Seq<u8>, masked: Seq<u8>, events: Seq<(Seq<char>, usize, usize)>)
    ensures
        apply_events(bytes, masked, events).len() == masked.len(),
    decreases events.len(),
{
    if events.len() > 0 {
        lemma_apply_events_len(bytes, masked, events.drop_last());
        let before = apply_events(bytes, masked, events.drop_last());
        let (event, start, end) = events.last();
        lemma_mask_all_len(before, comment_masks(bytes, start as int, end as int));
    }
}

/// Masking keeps every byte in place: the masked source is exactly as long
/// as the normalized source's bytes, so offsets into one are offsets into
/// the other.
pub proof fn lemma_masked_source_len(markdown: Seq<char>)
    ensures
        masked_source(markdown).len() == vstd::utf8::encode_utf8(normalized(markdown)).len(),
{
    let source = normalized(markdown);
    let bytes = vstd::utf8::encode_utf8(source);
    lemma_apply_events_len(bytes, bytes, markdown_events(source));
}

/// Masks the spans of a Markdown source that cannot hold live citations.
pub fn mask_non_prose(markdown: &str) -> (masked: Vec<u8>)
    ensures
        masked@ == masked_source(markdown@),
{
    let source = normalize_source(markdown);
    let bytes = source.as_str().as_bytes();
    let mut masked: Vec<u8> = Vec::new();
    let mut k: usize = 0;
    while k < bytes.len()
        invariant
            0 <= k <= bytes@.len(),
            masked@ == bytes@.take(k as int),
        decreases bytes@.len() - k,
    {
        masked.push(bytes[k]);
        assert(bytes@.take(k + 1) =~= bytes@.take(k as int).push(bytes@[k as int]));
        k = k + 1;
    }
    assert(bytes@.take(bytes@.len() as int) =~= bytes@);
    let events = markdown_spans(source.as_str());
    let ghost views = events@.map_values(|e: (String, usize, usize)| (e.0@, e.1, e.2));
    let mut i: usize = 0;
    while i < events.len()
        invariant
            0 <= i <= events@.len(),
            views == events@.map_values(|e: (String, usize, usize)| (e.0@, e.1, e.2)),
            bytes@ == vstd::utf8::encode_utf8(source@),
            masked@ == apply_events(bytes@, bytes@, views.take(i as int)),
            masked@.len() == bytes@.len(),
        decreases events@.len() - i,
    {
        let start = events[i].1;
        let end = events[i].2;
        let action = span_action(events[i].0.as_str());
        assert(views.take(i + 1).drop_last() =~= views.take(i as int));
        assert(views.take(i + 1).last() == views[i as int]);
        if start <= end && end <= bytes.len() {
            match action {
                SpanAction::Mask => mask_range(&mut masked, start, end),
                SpanAction::Keep => {},
                SpanAction::ScanComments => mask_comments(bytes, &mut masked, start, end),
            }
            proof {
                lemma_apply_events_len(bytes@, bytes@, views.take(i + 1));
            }
        }
        i = i + 1;
    }
    assert(views.take(views.len() as int) =~= views);
    masked
}

// ---------------------------------------------------------------------------
// Markers

/// The pattern of a cited id: a local id (1 to `LOCAL_ID_MAX_LENGTH`
/// characters of `LOCAL_ID_CHARSET`) or a typed source or section id (`src-`
/// or `sec-` in any ASCII case, then six ASCII letters or digits).
pub open spec fn id_class() -> Seq<char> {
    "(?:["@ + LOCAL_ID_CHARSET@ + "]{1,"@ + decimal(LOCAL_ID_MAX_LENGTH as nat)
        + "}|[Ss][Rr][Cc]-[0-9A-Za-z]{6}|[Ss][Ee][Cc]-[0-9A-Za-z]{6})"@
}

/// The citation marker pattern: `[cite:`, optional spaces or tabs, one or
/// more ids separated by commas with optional spaces or tabs around them,
/// and `]`; group 1 is the id list.
pub open spec fn marker_pattern() -> Seq<char> {
    "\\[cite:[ \\t]*("@ + id_class() + "(?:[ \\t]*,[ \\t]*"@ + id_class() + ")*)\\]"@
}

/// Appends the pattern of a cited id to `out`.
fn push_id_class(out: &mut Vec<char>)
    ensures
        final(out)@ == old(out)@ + id_class(),
{
    push_str(out, "(?:[");
    push_str(out, LOCAL_ID_CHARSET);
    push_str(out, "]{1,");
    push_decimal(out, LOCAL_ID_MAX_LENGTH);
    push_str(out, "}|[Ss][Rr][Cc]-[0-9A-Za-z]{6}|[Ss][Ee][Cc]-[0-9A-Za-z]{6})");
}

/// The citation marker pattern.
fn marker_regex() -> (pattern: String)
    ensures
        pattern@ == marker_pattern(),
{
    let mut out: Vec<char> = Vec::new();
    push_str(&mut out, "\\[cite:[ \\t]*(");
    push_id_class(&mut out);
    push_str(&mut out, "(?:[ \\t]*,[ \\t]*");
    push_id_class(&mut out);
    push_str(&mut out, ")*)\\]");
    string_of(&out)
}

/// A byte of the local id grammar: an ASCII lowercase letter, a digit, `_`
/// or `-`.
pub open spec fn local_id_byte(b: u8) -> bool {
    (97 <= b <= 122) || (48 <= b <= 57) || b == 95 || b == 45
}

/// An ASCII letter or digit byte.
pub open spec fn alnum_byte(b: u8) -> bool {
    (48 <= b <= 57) || (65 <= b <= 90) || (97 <= b <= 122)
}

/// `t` is a typed id whose prefix letters are the lowercase bytes `x`, `y`,
/// `z` in either ASCII case, then `-` and six ASCII letters or digits.
pub open spec fn typed_bytes(t: Seq<u8>, x: u8, y: u8, z: u8) -> bool {
    &&& t.len() == 10
    &&& (t[0] == x || t[0] + 32 == x)
    &&& (t[1] == y || t[1] + 32 == y)
    &&& (t[2] == z || t[2] + 32 == z)
    &&& t[3] == 45
    &&& forall|i: int| 4 <= i < 10 ==> alnum_byte(#[trigger] t[i])
}

/// `t` is a cited id: 1 to `LOCAL_ID_MAX_LENGTH` local id bytes, or a typed
/// source or section id.
pub open spec fn id_bytes(t: Seq<u8>) -> bool {
    ||| (1 <= t.len() <= LOCAL_ID_MAX_LENGTH && forall|i: int| 0 <= i < t.len() ==> local_id_byte(#[trigger] t[i]))
    ||| typed_bytes(t, 115, 114, 99)
    ||| typed_bytes(t, 115, 101, 99)
}

/// Each comma-separated part of an id list, without the spaces and tabs
/// around it, is a cited id.
pub open spec fn id_list(list: Seq<u8>) -> bool {
    forall|k: int| 0 <= k < split_commas(list).len() ==> id_bytes(trimmed(#[trigger] split_commas(list)[k]))
}

/// A cited id read as ASCII text is a well-formed id.
proof fn lemma_cited_id_chars(t: Seq<u8>)
    requires
        id_bytes(t),
    ensures
        forall|i: int| 0 <= i < t.len() ==> #[trigger] t[i] < 128u8,
        crate::shape::well_formed_id(ascii_chars(t)),
{
    let c = ascii_chars(t);
    assert forall|i: int| 0 <= i < t.len() implies #[trigger] t[i] < 128u8 by {
        if typed_bytes(t, 115, 114, 99) || typed_bytes(t, 115, 101, 99) {
            if 4 <= i {
                assert(alnum_byte(t[i]));
            }
        } else {
            assert(local_id_byte(t[i]));
        }
    }
    assert forall|i: int| 0 <= i < t.len() implies (#[trigger] c[i]) as int == t[i] as int by {}
    if 1 <= t.len() <= LOCAL_ID_MAX_LENGTH && forall|i: int| 0 <= i < t.len() ==> local_id_byte(#[trigger] t[i]) {
        assert forall|i: int| 0 <= i < c.len() implies crate::shape::local_id_char(#[trigger] c[i]) by {
            assert(local_id_byte(t[i]));
            assert(c[i] as int == t[i] as int);
        }
        assert(crate::shape::plain_id(c));
    } else {
        let (x, y, z) = if typed_bytes(t, 115, 114, 99) { ('s', 'r', 'c') } else { ('s', 'e', 'c') };
        assert(c.len() == 10);
        assert forall|i: int| 4 <= i < 10 implies crate::shape::ascii_alnum(#[trigger] c[i]) by {
            assert(alnum_byte(t[i]));
            assert(c[i] as int == t[i] as int);
        }
        assert(c[3] == '-') by {
            assert(c[3] as int == 45);
        }
        assert(c[0] as int == t[0] as int && c[1] as int == t[1] as int && c[2] as int == t[2] as int);
        assert(crate::shape::typed_shape(c, x, y, z));
        assert(crate::shape::kind_of_id(c) is Some);
    }
}

/// The bytes of capture group 1 of each successive non-overlapping match of
/// the `regex` pattern in `haystack`, empty where the group did not take
/// part; `None` where the pattern does not compile.
pub uninterp spec fn regex_groups(pattern: Seq<char>, haystack: Seq<u8>) -> Option<Seq<Seq<u8>>>;

/// Compiles `pattern` as a `regex::bytes::Regex` and collects group 1 of
/// each capture of `captures_iter` over `haystack`.
#[verifier::external_body]
fn capture_groups(pattern: &str, haystack: &[u8]) -> (r: Option<Vec<Vec<u8>>>)
    ensures
        match r {
            Some(groups) => regex_groups(pattern@, haystack@) == Some(groups@.map_values(|g: Vec<u8>| g@)),
            None => regex_groups(pattern@, haystack@) is None,
        },
        pattern@ == marker_pattern() && r is Some ==> forall|k: int|
            0 <= k < r->0@.len() ==> id_list(#[trigger] r->0@[k]@),
{
    let regex = regex::bytes::Regex::new(pattern).ok()?;
    Some(regex.captures_iter(haystack).map(|captures| captures.get(1).map_or(Vec::new(), |m| m.as_bytes().to_vec())).collect())
}

/// A space or a tab.
pub open spec fn is_horizontal_space(b: u8) -> bool {
    b == 32u8 || b == 9u8
}

/// `bytes` without leading spaces and tabs.
pub open spec fn trim_front(bytes: Seq<u8>) -> Seq<u8>
    decreases bytes.len(),
{
    if bytes.len() > 0 && is_horizontal_space(bytes[0]) {
        trim_front(bytes.skip(1))
    } else {
        bytes
    }
}

/// `bytes` without trailing spaces and tabs.
pub open spec fn trim_back(bytes: Seq<u8>) -> Seq<u8>
    decreases bytes.len(),
{
    if bytes.len() > 0 && is_horizontal_space(bytes.last()) {
        trim_back(bytes.drop_last())
    } else {
        bytes
    }
}

/// `bytes` without leading or trailing spaces and tabs.
pub open spec fn trimmed(bytes: Seq<u8>) -> Seq<u8> {
    trim_back(trim_front(bytes))
}

/// Removes leading and trailing spaces and tabs.
#[verifier::spinoff_prover]
#[verifier::rlimit(30)]
pub fn trim_horizontal_space(bytes: &[u8]) -> (r: Vec<u8>)
    ensures
        r@ == trimmed(bytes@),
{
    let mut start: usize = 0;
    assert(bytes@.skip(0) =~= bytes@);
    while start < bytes.len() && (bytes[start] == 32u8 || bytes[start] == 9u8)
        invariant
            0 <= start <= bytes@.len(),
            trim_front(bytes@) == trim_front(bytes@.skip(start as int)),
        decreases bytes@.len() - start,
    {
        assert(bytes@.skip(start as int).skip(1) =~= bytes@.skip(start + 1));
        start = start + 1;
    }
    assert(trim_front(bytes@) == bytes@.skip(start as int));
    let mut end: usize = bytes.len();
    assert(bytes@.subrange(start as int, end as int) =~= bytes@.skip(start as int));
    while end > start && (bytes[end - 1] == 32u8 || bytes[end - 1] == 9u8)
        invariant
            start <= end <= bytes@.len(),
            trimmed(bytes@) == trim_back(bytes@.subrange(start as int, end as int)),
        decreases end - start,
    {
        assert(bytes@.subrange(start as int, end as int).drop_last() =~= bytes@.subrange(start as int, end - 1));
        end = end - 1;
    }
    let mut r: Vec<u8> = Vec::new();
    let mut k: usize = start;
    while k < end
        invariant
            start <= k <= end <= bytes@.len(),
            r@ == bytes@.subrange(start as int, k as int),
        decreases end - k,
    {
        r.push(bytes[k]);
        k = k + 1;
    }
    r
}

/// The `,`-separated parts of `bytes`: one more than there are commas.
pub open spec fn split_commas(bytes: Seq<u8>) -> Seq<Seq<u8>>
    decreases bytes.len(),
{
    if bytes.len() == 0 {
        seq![seq![]]
    } else {
        let r = split_commas(bytes.drop_last());
        if bytes.last() == 44u8 {
            r.push(seq![])
        } else {
            r.update(r.len() - 1, r.last().push(bytes.last()))
        }
    }
}

/// The text of `bytes` read as UTF-8, invalid sequences replaced by U+FFFD.
pub uninterp spec fn lossy_utf8(bytes: Seq<u8>) -> Seq<char>;

/// The characters of ASCII bytes.
pub open spec fn ascii_chars(bytes: Seq<u8>) -> Seq<char> {
    bytes.map_values(|b: u8| b as char)
}

/// Converts bytes to text with `String::from_utf8_lossy`; ASCII bytes come
/// out as the same characters.
#[verifier::external_body]
fn lossy_text(bytes: &[u8]) -> (r: String)
    ensures
        r@ == lossy_utf8(bytes@),
        (forall|i: int| 0 <= i < bytes@.len() ==> bytes@[i] < 128u8) ==> r@ == ascii_chars(bytes@),
{
    String::from_utf8_lossy(bytes).into_owned()
}

/// The ids of a marker's id list: its comma-separated parts, trimmed of
/// spaces and tabs, as text.
pub open spec fn ids_of(list: Seq<u8>) -> Seq<Seq<char>> {
    split_commas(list).map_values(|part: Seq<u8>| lossy_utf8(trimmed(part)))
}

/// Splits a marker's id list into its ids.
pub fn split_ids(bytes: &[u8]) -> (ids: Vec<String>)
    ensures
        ids@.map_values(|s: String| s@) == ids_of(bytes@),
        id_list(bytes@) ==> forall|k: int| 0 <= k < ids@.len() ==> crate::shape::well_formed_id(#[trigger] ids@[k]@),
{
    let mut parts: Vec<Vec<u8>> = Vec::new();
    parts.push(Vec::new());
    let mut i: usize = 0;
    assert(bytes@.take(0) =~= Seq::<u8>::empty());
    assert(parts@.map_values(|p: Vec<u8>| p@) =~= split_commas(bytes@.take(0)));
    while i < bytes.len()
        invariant
            0 <= i <= bytes@.len(),
            parts@.len() >= 1,
            parts@.map_values(|p: Vec<u8>| p@) == split_commas(bytes@.take(i as int)),
        decreases bytes@.len() - i,
    {
        let ghost prev = parts@.map_values(|p: Vec<u8>| p@);
        assert(bytes@.take(i + 1).drop_last() =~= bytes@.take(i as int));
        assert(bytes@.take(i + 1).last() == bytes@[i as int]);
        if bytes[i] == 44u8 {
            parts.push(Vec::new());
            assert(parts@.map_values(|p: Vec<u8>| p@) =~= prev.push(seq![]));
        } else {
            let last = parts.len() - 1;
            let mut part = parts.pop().unwrap();
            part.push(bytes[i]);
            parts.push(part);
            assert(parts@.map_values(|p: Vec<u8>| p@) =~= prev.update(last as int, prev.last().push(bytes@[i as int])));
        }
        i = i + 1;
    }
    assert(bytes@.take(bytes@.len() as int) =~= bytes@);
    let ghost pv = parts@.map_values(|p: Vec<u8>| p@);
    let mut ids: Vec<String> = Vec::new();
    let mut k: usize = 0;
    while k < parts.len()
        invariant
            0 <= k <= parts@.len(),
            pv == parts@.map_values(|p: Vec<u8>| p@),
            ids@.len() == k,
            forall|j: int| 0 <= j < k ==> (#[trigger] ids@[j])@ == lossy_utf8(trimmed(pv[j])),
            pv == split_commas(bytes@),
            id_list(bytes@) ==> forall|j: int| 0 <= j < k ==> crate::shape::well_formed_id(#[trigger] ids@[j]@),
        decreases parts@.len() - k,
    {
        let part = trim_horizontal_space(parts[k].as_slice());
        proof {
            if id_list(bytes@) {
                assert(id_bytes(trimmed(pv[k as int])));
                lemma_cited_id_chars(part@);
            }
        }
        let text = lossy_text(part.as_slice());
        ids.push(text);
        k = k + 1;
    }
    assert(ids@.map_values(|s: String| s@) =~= ids_of(bytes@));
    ids
}

/// One recognized inline citation marker, with source ids in written order.
#[derive(Debug, Clone, PartialEq, Eq)]
pub struct Citation {
    /// Source ids listed by the marker.
    pub ids: Vec<String>,
}

/// The ids of a citation.
pub open spec fn citation_ids(c: Citation) -> Seq<Seq<char>> {
    c.ids@.map_values(|s: String| s@)
}

/// The citations of a Markdown source: for each marker matched in the masked
/// source, in order, the ids of its id list.
pub open spec fn citations_of(markdown: Seq<char>) -> Seq<Seq<Seq<char>>> {
    match regex_groups(marker_pattern(), masked_source(markdown)) {
        Some(groups) => groups.map_values(|g: Seq<u8>| ids_of(g)),
        None => seq![],
    }
}

/// Extract one citation entry per recognized marker in Markdown source order.
///
/// Matching follows the OpenAKB v1 raw-source grammar: code blocks, code spans,
/// HTML blocks, and HTML comments are masked before citation markers are matched.
pub fn extract_citations(markdown: &str) -> (citations: Vec<Citation>)
    ensures
        citations@.map_values(|c: Citation| citation_ids(c)) == citations_of(markdown@),
        forall|c: int, k: int|
            0 <= c < citations@.len() && 0 <= k < citations@[c].ids@.len() ==> crate::shape::well_formed_id(
                #[trigger] citations@[c].ids@[k]@,
            ),
{
    let masked = mask_non_prose(markdown);
    let pattern = marker_regex();
    let groups = match capture_groups(pattern.as_str(), masked.as_slice()) {
        Some(groups) => groups,
        None => {
            let none: Vec<Citation> = Vec::new();
            assert(none@.map_values(|c: Citation| citation_ids(c)) =~= seq![]);
            return none;
        },
    };
    let ghost gv = groups@.map_values(|g: Vec<u8>| g@);
    let mut citations: Vec<Citation> = Vec::new();
    let mut i: usize = 0;
    while i < groups.len()
        invariant
            0 <= i <= groups@.len(),
            gv == groups@.map_values(|g: Vec<u8>| g@),
            citations@.len() == i,
            forall|j: int| 0 <= j < i ==> citation_ids(#[trigger] citations@[j]) == ids_of(gv[j]),
            forall|j: int| 0 <= j < groups@.len() ==> id_list(#[trigger] groups@[j]@),
            forall|c: int, k: int|
                0 <= c < citations@.len() && 0 <= k < citations@[c].ids@.len() ==> crate::shape::well_formed_id(
                    #[trigger] citations@[c].ids@[k]@,
                ),
        decreases groups@.len() - i,
    {
        let ids = split_ids(groups[i].as_slice());
        citations.push(Citation { ids });
        i = i + 1;
    }
    assert(citations@.map_values(|c: Citation| citation_ids(c)) =~= citations_of(markdown@));
    citations
}

} // verus!
